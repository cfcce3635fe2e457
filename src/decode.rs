//! Reading events and records back from their JSON form.
use vstd::prelude::*;
use vstd::utf8::{decode_utf8, encode_utf8, encode_utf8_decode_utf8, encode_utf8_valid_utf8, valid_utf8};
use crate::event::{
    body_text, client_to_server_open, close_text, connect_open, server_shutdown_text,
    server_startup_text, server_to_client_open, BodyView, ConnLogBody,
};
use crate::log::{entry_record, Entry};
use crate::parse::{
    lemma_decimal, list_at, parse_byte_list, parse_digits, parse_quoted, pow10, quoted_at,
};
use crate::record::{conn_id_key, encode_line, op_key, record_text, ts_key};
use crate::text::{byte_list, decimal, is_digit, quoted};

verus! {

/// Relies on `String::from_utf8`: it succeeds exactly on valid UTF-8 and
/// then holds the characters that the bytes encode.
#[verifier::external_body]
fn string_from_utf8(v: Vec<u8>) -> (r: Option<String>)
    ensures
        r is Some <==> valid_utf8(v@),
        r matches Some(s) ==> s@ == decode_utf8(v@),
{
    String::from_utf8(v).ok()
}

/// `body_text(v)` stands at `start` in `b`.
pub open spec fn body_at(b: Seq<u8>, start: int, v: BodyView) -> bool {
    start + body_text(v).len() <= b.len() && b.subrange(start, start + body_text(v).len())
        == body_text(v)
}

/// Where `x + y + z` stands at `start`, `y` stands at `start + |x|`.
proof fn lemma_middle(b: Seq<u8>, start: int, x: Seq<u8>, y: Seq<u8>, z: Seq<u8>)
    requires
        0 <= start,
        start + (x + y + z).len() <= b.len(),
        b.subrange(start, start + (x + y + z).len()) == x + y + z,
    ensures
        b.subrange(start + x.len(), start + x.len() + y.len()) == y,
        forall|i: int| 0 <= i < x.len() ==> b[start + i] == x[i],
        forall|i: int| 0 <= i < z.len() ==> b[start + x.len() + y.len() + i] == z[i],
{
    let w = x + y + z;
    assert forall|i: int| 0 <= i < y.len() implies b.subrange(start + x.len(), start + x.len() + y.len())[i] == y[i] by {
        assert(b[start + x.len() + i] == w[x.len() + i]);
    }
    assert(b.subrange(start + x.len(), start + x.len() + y.len()) == y);
    assert forall|i: int| 0 <= i < x.len() implies b[start + i] == x[i] by {
        assert(b[start + i] == w[i]);
    }
    assert forall|i: int| 0 <= i < z.len() implies b[start + x.len() + y.len() + i] == z[i] by {
        assert(b[start + x.len() + y.len() + i] == w[x.len() + y.len() + i]);
    }
}

proof fn lemma_whole(b: Seq<u8>, start: int, x: Seq<u8>)
    requires
        0 <= start,
        start + x.len() <= b.len(),
        b.subrange(start, start + x.len()) == x,
    ensures
        forall|i: int| 0 <= i < x.len() ==> b[start + i] == x[i],
{
    assert forall|i: int| 0 <= i < x.len() implies b[start + i] == x[i] by {
        assert(b[start + i] == b.subrange(start, start + x.len())[i]);
    }
}

/// Reads an event at `start`: where `body_text(v)` stands there, it reads
/// `v` and the position after it.
pub fn parse_body_at(b: &[u8], start: usize) -> (r: Option<(ConnLogBody, usize)>)
    requires
        start <= b@.len(),
    ensures
        r matches Some((o, e)) ==> e <= b@.len(),
        forall|v: BodyView|
            #![trigger body_at(b@, start as int, v)]
            body_at(b@, start as int, v) ==> (r matches Some((o, e)) && o@ == v && e == start
                + body_text(v).len()),
{
    let n = b.len();
    let r = if n - start < 7 {
        None
    } else if b[start] == 34 {
        if b[start + 1] == 67 {
            Some((ConnLogBody::Close, start + 7))
        } else if n - start < 15 {
            None
        } else if b[start + 8] == 116 {
            Some((ConnLogBody::ServerStartup, start + 15))
        } else if n - start < 16 {
            None
        } else {
            Some((ConnLogBody::ServerShutdown, start + 16))
        }
    } else if n - start < 21 {
        None
    } else if b[start + 2] == 83 {
        match parse_byte_list(b, start + 21) {
            Some((v, e)) => if e < n {
                Some((ConnLogBody::ServerToClientMsg(v), e + 1))
            } else {
                None
            },
            None => None,
        }
    } else if b[start + 3] == 108 {
        match parse_byte_list(b, start + 21) {
            Some((v, e)) => if e < n {
                Some((ConnLogBody::ClientToServerMsg(v), e + 1))
            } else {
                None
            },
            None => None,
        }
    } else {
        match parse_quoted(b, start + 21) {
            Some((v, e)) => if n - e < 2 {
                None
            } else {
                match string_from_utf8(v) {
                    Some(s) => Some((ConnLogBody::Connect { ipaddr: s }, e + 2)),
                    None => None,
                }
            },
            None => None,
        }
    };
    assert forall|v: BodyView|
        #![trigger body_at(b@, start as int, v)]
        body_at(b@, start as int, v) implies (r matches Some((o, e)) && o@ == v && e == start
            + body_text(v).len()) by {
        lemma_whole(b@, start as int, body_text(v));
        match v {
            BodyView::Connect { ipaddr } => {
                let t = encode_utf8(ipaddr);
                lemma_middle(b@, start as int, connect_open(), quoted(t), seq![125u8, 125u8]);
                assert(quoted_at(b@, start + 21, t));
                encode_utf8_valid_utf8(ipaddr);
                encode_utf8_decode_utf8(ipaddr);
            },
            BodyView::ServerToClientMsg(w) => {
                lemma_middle(b@, start as int, server_to_client_open(), byte_list(w), seq![125u8]);
                assert(list_at(b@, start + 21, w));
            },
            BodyView::ClientToServerMsg(w) => {
                lemma_middle(b@, start as int, client_to_server_open(), byte_list(w), seq![125u8]);
                assert(list_at(b@, start + 21, w));
            },
            _ => {},
        }
    }
    r
}

/// Whether `lit` stands at `p` in `b`.
fn matches_at(b: &[u8], p: usize, lit: &[u8]) -> (r: bool)
    requires
        p <= b@.len(),
    ensures
        r == (p + lit@.len() <= b@.len() && b@.subrange(p as int, p + lit@.len()) == lit@),
{
    let n: usize = lit.len();
    if b.len() - p < n {
        return false;
    }
    let mut i: usize = 0;
    while i < n
        invariant
            n == lit@.len(),
            b@.len() <= usize::MAX,
            i <= n,
            p + n <= b@.len(),
            forall|j: int| 0 <= j < i ==> b@[p + j] == lit@[j],
        decreases n - i,
    {
        let q: usize = p + i;
        if b[q] != lit[i] {
            assert(b@.subrange(p as int, p + lit@.len())[i as int] != lit@[i as int]);
            return false;
        }
        i = i + 1;
    }
    assert(b@.subrange(p as int, p + lit@.len()) =~= lit@);
    true
}

impl ConnLogBody {
    /// Reads an event back from its JSON form. Exactly the texts that
    /// `to_json` writes are read, each as the event it was written from.
    pub fn from_json(b: &[u8]) -> (r: Option<ConnLogBody>)
        ensures
            r matches Some(o) ==> body_text(o@) == b@,
            forall|v: BodyView| #[trigger] body_text(v) == b@ ==> (r matches Some(o) && o@ == v),
    {
        let r = match parse_body_at(b, 0) {
            Some((o, e)) => {
                let back = o.to_json();
                if e == b.len() && back.len() == b.len() && matches_at(back.as_slice(), 0, b) {
                    proof {
                        assert(back@.subrange(0, b@.len() as int) == back@);
                    }
                    Some(o)
                } else {
                    None
                }
            },
            None => None,
        };
        assert forall|v: BodyView| #[trigger] body_text(v) == b@ implies (r matches Some(o) && o@ == v) by {
            assert(b@.subrange(0, b@.len() as int) == b@);
            assert(body_at(b@, 0, v));
            assert(b@.subrange(0, b@.len() as int) == b@);
        }
        r
    }
}

/// A record read back from the log.
#[derive(Debug, Clone, PartialEq, Eq)]
pub struct LogLine {
    pub conn_id: u32,
    pub op: ConnLogBody,
    /// The record's time, as the RFC 3339 text that the log holds.
    pub ts: String,
}

impl View for LogLine {
    type V = Entry;

    open spec fn view(&self) -> Entry {
        Entry { conn_id: self.conn_id, op: self.op@, ts: self.ts@ }
    }
}

/// Where the decimal identifier of `x`'s record ends.
pub open spec fn id_end(x: Entry) -> int {
    11 + decimal(x.conn_id as nat).len() as int
}

/// Where the event of `x`'s record ends.
pub open spec fn op_end(x: Entry) -> int {
    id_end(x) + 6 + body_text(x.op).len() as int
}

/// Where the pieces of the record of `x` stand in `b`.
pub open spec fn record_layout(b: Seq<u8>, x: Entry) -> bool {
    &&& 11 <= b.len()
    &&& b.subrange(0, 11) == conn_id_key()
    &&& id_end(x) < b.len()
    &&& b.subrange(11, id_end(x)) == decimal(x.conn_id as nat)
    &&& !is_digit(b[id_end(x)])
    &&& decimal(x.conn_id as nat).len() <= 10
    &&& id_end(x) + 6 <= b.len()
    &&& b.subrange(id_end(x), id_end(x) + 6) == op_key()
    &&& body_at(b, id_end(x) + 6, x.op)
    &&& op_end(x) + 6 <= b.len()
    &&& b.subrange(op_end(x), op_end(x) + 6) == ts_key()
    &&& quoted_at(b, op_end(x) + 6, encode_utf8(x.ts))
}

/// Where each piece of a record stands in its text.
proof fn lemma_record_at(b: Seq<u8>, x: Entry)
    requires
        entry_record(x) == b,
    ensures
        record_layout(b, x),
{
    reveal(record_text);
    let d = decimal(x.conn_id as nat);
    let t = encode_utf8(x.ts);
    lemma_layout(b, conn_id_key(), d, op_key(), body_text(x.op), ts_key(), quoted(t));
    lemma_decimal(x.conn_id as nat);
    reveal_with_fuel(pow10, 11);
    assert(x.conn_id < pow10(10));
}

/// The places of the pieces in `k1 + d + k2 + bt + k3 + q + "}"`.
proof fn lemma_layout(
    b: Seq<u8>,
    k1: Seq<u8>,
    d: Seq<u8>,
    k2: Seq<u8>,
    bt: Seq<u8>,
    k3: Seq<u8>,
    q: Seq<u8>,
)
    requires
        b == k1 + d + k2 + bt + k3 + q + seq![125u8],
        k2.len() > 0,
    ensures
        b.subrange(0, k1.len() as int) == k1,
        b.subrange(k1.len() as int, (k1.len() + d.len()) as int) == d,
        b[(k1.len() + d.len()) as int] == k2[0],
        b.subrange((k1.len() + d.len()) as int, (k1.len() + d.len() + k2.len()) as int) == k2,
        b.subrange((k1.len() + d.len() + k2.len()) as int, (k1.len() + d.len() + k2.len() + bt.len()) as int) == bt,
        b.subrange(
            (k1.len() + d.len() + k2.len() + bt.len()) as int,
            (k1.len() + d.len() + k2.len() + bt.len() + k3.len()) as int,
        ) == k3,
        b.subrange(
            (k1.len() + d.len() + k2.len() + bt.len() + k3.len()) as int,
            (k1.len() + d.len() + k2.len() + bt.len() + k3.len() + q.len()) as int,
        ) == q,
{
    let tail = seq![125u8];
    let n = b.len();
    assert(b.subrange(0, n as int) == b);
    assert(b =~= k1 + d + (k2 + bt + k3 + q + tail));
    lemma_middle(b, 0, k1, d, k2 + bt + k3 + q + tail);
    assert(b.subrange(0, k1.len() as int) =~= k1);
    assert(b =~= (k1 + d) + k2 + (bt + k3 + q + tail));
    lemma_middle(b, 0, k1 + d, k2, bt + k3 + q + tail);
    assert(b =~= (k1 + d + k2) + bt + (k3 + q + tail));
    lemma_middle(b, 0, k1 + d + k2, bt, k3 + q + tail);
    assert(b =~= (k1 + d + k2 + bt) + k3 + (q + tail));
    lemma_middle(b, 0, k1 + d + k2 + bt, k3, q + tail);
    assert(b =~= (k1 + d + k2 + bt + k3) + q + tail);
    lemma_middle(b, 0, k1 + d + k2 + bt + k3, q, tail);
}

/// Every record that `b` is the text of has its pieces where the reader
/// looks for them, and its time is valid UTF-8 that reads back as itself.
proof fn lemma_records_at(b: Seq<u8>)
    ensures
        forall|x: Entry|
            #[trigger] entry_record(x) == b ==> {
                &&& record_layout(b, x)
                &&& valid_utf8(encode_utf8(x.ts))
                &&& decode_utf8(encode_utf8(x.ts)) == x.ts
            },
{
    assert forall|x: Entry| #[trigger] entry_record(x) == b implies {
        &&& record_layout(b, x)
        &&& valid_utf8(encode_utf8(x.ts))
        &&& decode_utf8(encode_utf8(x.ts)) == x.ts
    } by {
        lemma_record_at(b, x);
        encode_utf8_valid_utf8(x.ts);
        encode_utf8_decode_utf8(x.ts);
    }
}

/// Reads one record, given without its line break. Exactly the texts that
/// a record is written as are read, each as the record it was written from.
pub fn decode_record(b: &[u8]) -> (r: Option<LogLine>)
    ensures
        r matches Some(l) ==> entry_record(l@) == b@,
        forall|x: Entry| #[trigger] entry_record(x) == b@ ==> (r matches Some(l) && l@ == x),
{
    let n = b.len();
    proof {
        lemma_records_at(b@);
    }
    if !matches_at(b, 0, &[123u8, 34u8, 99u8, 111u8, 110u8, 110u8, 95u8, 105u8, 100u8, 34u8, 58u8]) {
        return None;
    }
    let (c, e) = match parse_digits(b, 11, 10) {
        Some(p) => p,
        None => {
        return None;
        },
    };
    if c > 0xffff_ffff || !matches_at(b, e, &[44u8, 34u8, 111u8, 112u8, 34u8, 58u8]) {
        return None;
    }
    let (op, e2) = match parse_body_at(b, e + 6) {
        Some(p) => p,
        None => {
        return None;
        },
    };
    if !matches_at(b, e2, &[44u8, 34u8, 116u8, 115u8, 34u8, 58u8]) {
        return None;
    }
    let tb = match parse_quoted(b, e2 + 6) {
        Some((tb, _e3)) => tb,
        None => {
        return None;
        },
    };
    let ghost tbv = tb@;
    let ts = match string_from_utf8(tb) {
        Some(ts) => ts,
        None => {
        return None;
        },
    };
    let back = encode_line(c as u32, &op, ts.as_str());
    proof {
        assert(back@.subrange(0, back@.len() - 1) =~= record_text(c as u32, op@, ts@));
    }
    if back.len() > 0 && back.len() - 1 == n && matches_at(back.as_slice(), 0, b) {
        let l = LogLine { conn_id: c as u32, op, ts };
        Some(l)
    } else {
        None
    }
}

} // verus!
