//! The events that a connection log records, and their JSON form.
use vstd::prelude::*;
use vstd::utf8::encode_utf8;
use crate::text::{byte_list, push_byte_list, push_quoted, push_slice, quoted};

verus! {

/// One event in the life of a connection or of the server.
#[derive(Debug, Clone, PartialEq, Eq)]
pub enum ConnLogBody {
    ServerStartup,
    ServerShutdown,
    Connect { ipaddr: String },
    ServerToClientMsg(Vec<u8>),
    ClientToServerMsg(Vec<u8>),
    Close,
}

/// What an event holds, as mathematical values.
pub enum BodyView {
    ServerStartup,
    ServerShutdown,
    Connect { ipaddr: Seq<char> },
    ServerToClientMsg(Seq<u8>),
    ClientToServerMsg(Seq<u8>),
    Close,
}

impl View for ConnLogBody {
    type V = BodyView;

    open spec fn view(&self) -> BodyView {
        match self {
            ConnLogBody::ServerStartup => BodyView::ServerStartup,
            ConnLogBody::ServerShutdown => BodyView::ServerShutdown,
            ConnLogBody::Connect { ipaddr } => BodyView::Connect { ipaddr: ipaddr@ },
            ConnLogBody::ServerToClientMsg(b) => BodyView::ServerToClientMsg(b@),
            ConnLogBody::ClientToServerMsg(b) => BodyView::ClientToServerMsg(b@),
            ConnLogBody::Close => BodyView::Close,
        }
    }
}

/// `"ServerStartup"`
pub open spec fn server_startup_text() -> Seq<u8> {
    seq![34u8, 83u8, 101u8, 114u8, 118u8, 101u8, 114u8, 83u8, 116u8, 97u8, 114u8, 116u8, 117u8, 112u8, 34u8]
}

/// `"ServerShutdown"`
pub open spec fn server_shutdown_text() -> Seq<u8> {
    seq![34u8, 83u8, 101u8, 114u8, 118u8, 101u8, 114u8, 83u8, 104u8, 117u8, 116u8, 100u8, 111u8, 119u8, 110u8, 34u8]
}

/// `{"Connect":{"ipaddr":`
pub open spec fn connect_open() -> Seq<u8> {
    seq![123u8, 34u8, 67u8, 111u8, 110u8, 110u8, 101u8, 99u8, 116u8, 34u8, 58u8, 123u8, 34u8, 105u8, 112u8, 97u8, 100u8, 100u8, 114u8, 34u8, 58u8]
}

/// `{"ServerToClientMsg":`
pub open spec fn server_to_client_open() -> Seq<u8> {
    seq![123u8, 34u8, 83u8, 101u8, 114u8, 118u8, 101u8, 114u8, 84u8, 111u8, 67u8, 108u8, 105u8, 101u8, 110u8, 116u8, 77u8, 115u8, 103u8, 34u8, 58u8]
}

/// `{"ClientToServerMsg":`
pub open spec fn client_to_server_open() -> Seq<u8> {
    seq![123u8, 34u8, 67u8, 108u8, 105u8, 101u8, 110u8, 116u8, 84u8, 111u8, 83u8, 101u8, 114u8, 118u8, 101u8, 114u8, 77u8, 115u8, 103u8, 34u8, 58u8]
}

/// `"Close"`
pub open spec fn close_text() -> Seq<u8> {
    seq![34u8, 67u8, 108u8, 111u8, 115u8, 101u8, 34u8]
}

/// The JSON form of an event, externally tagged: a variant without payload
/// is its name as a string, any other an object whose one key is the name.
pub open spec fn body_text(v: BodyView) -> Seq<u8> {
    match v {
        BodyView::ServerStartup => server_startup_text(),
        BodyView::ServerShutdown => server_shutdown_text(),
        BodyView::Connect { ipaddr } => connect_open() + quoted(encode_utf8(ipaddr)) + seq![125u8, 125u8],
        BodyView::ServerToClientMsg(b) => server_to_client_open() + byte_list(b) + seq![125u8],
        BodyView::ClientToServerMsg(b) => client_to_server_open() + byte_list(b) + seq![125u8],
        BodyView::Close => close_text(),
    }
}

impl ConnLogBody {
    /// Appends the JSON form of this event.
    pub fn push_json(&self, out: &mut Vec<u8>)
        ensures
            final(out)@ == old(out)@ + body_text(self@),
    {
        match self {
            ConnLogBody::ServerStartup => {
                push_slice(out, &[34u8, 83u8, 101u8, 114u8, 118u8, 101u8, 114u8, 83u8, 116u8, 97u8, 114u8, 116u8, 117u8, 112u8, 34u8]);
            },
            ConnLogBody::ServerShutdown => {
                push_slice(out, &[34u8, 83u8, 101u8, 114u8, 118u8, 101u8, 114u8, 83u8, 104u8, 117u8, 116u8, 100u8, 111u8, 119u8, 110u8, 34u8]);
            },
            ConnLogBody::Connect { ipaddr } => {
                push_slice(out, &[123u8, 34u8, 67u8, 111u8, 110u8, 110u8, 101u8, 99u8, 116u8, 34u8, 58u8, 123u8, 34u8, 105u8, 112u8, 97u8, 100u8, 100u8, 114u8, 34u8, 58u8]);
                push_quoted(out, ipaddr.as_str().as_bytes());
                push_slice(out, &[125u8, 125u8]);
            },
            ConnLogBody::ServerToClientMsg(b) => {
                push_slice(out, &[123u8, 34u8, 83u8, 101u8, 114u8, 118u8, 101u8, 114u8, 84u8, 111u8, 67u8, 108u8, 105u8, 101u8, 110u8, 116u8, 77u8, 115u8, 103u8, 34u8, 58u8]);
                push_byte_list(out, b.as_slice());
                out.push(125);
            },
            ConnLogBody::ClientToServerMsg(b) => {
                push_slice(out, &[123u8, 34u8, 67u8, 108u8, 105u8, 101u8, 110u8, 116u8, 84u8, 111u8, 83u8, 101u8, 114u8, 118u8, 101u8, 114u8, 77u8, 115u8, 103u8, 34u8, 58u8]);
                push_byte_list(out, b.as_slice());
                out.push(125);
            },
            ConnLogBody::Close => {
                push_slice(out, &[34u8, 67u8, 108u8, 111u8, 115u8, 101u8, 34u8]);
            },
        }
    }

    /// The JSON form of this event.
    pub fn to_json(&self) -> (r: Vec<u8>)
        ensures
            r@ == body_text(self@),
    {
        let mut out: Vec<u8> = Vec::new();
        self.push_json(&mut out);
        out
    }
}

} // verus!
