//! The per-connection handle onto the shared log sink.
use std::sync::Arc;
use vstd::prelude::*;
use crate::event::ConnLogBody;
use crate::record::{formattable, line_text, rfc3339_text, ConnLogMsg, RecordError, Timestamp};

verus! {

/// `tokio::fs::File`, carried through opaquely.
#[verifier::external_type_specification]
#[verifier::external_body]
pub struct ExFile(tokio::fs::File);

/// `tokio::sync::Mutex`, carried through opaquely.
#[verifier::external_type_specification]
#[verifier::external_body]
#[verifier::reject_recursive_types(T)]
pub struct ExMutex<T: ?Sized>(tokio::sync::Mutex<T>);

/// The shared sink: the log file behind an asynchronous lock.
pub type Sink = Arc<tokio::sync::Mutex<tokio::fs::File>>;

/// Relies on `tokio::sync::Mutex::new`, which only puts `file` behind a
/// new lock; nothing is claimed of the result.
#[verifier::external_body]
fn new_lock(file: tokio::fs::File) -> tokio::sync::Mutex<tokio::fs::File> {
    tokio::sync::Mutex::new(file)
}

/// Relies on `Option::clone` and `Arc::clone`: the copy points to the same
/// allocation.
#[verifier::external_body]
fn share(s: &Option<Sink>) -> (r: Option<Sink>)
    ensures
        r == *s,
{
    s.clone()
}

/// A connection's view of the log: its identifier and, unless logging is
/// off, the sink that every handle derived from the same root shares.
#[derive(Clone)]
pub struct ConnLog {
    conn_id: u32,
    file: Option<Sink>,
}

impl Default for ConnLog {
    /// A handle that drops every event.
    fn default() -> (r: ConnLog)
        ensures
            r.conn_id() == 0,
            !r.is_enabled(),
    {
        ConnLog { conn_id: 0, file: None }
    }
}

impl ConnLog {
    /// The connection identifier that this handle tags records with.
    pub closed spec fn spec_conn_id(&self) -> u32 {
        self.conn_id
    }

    /// Whether the handle has a sink.
    pub open spec fn spec_enabled(&self) -> bool {
        self.sink_spec() is Some
    }

    /// The sink, where the handle has one.
    pub closed spec fn sink_spec(&self) -> Option<Sink> {
        self.file
    }

    /// A root handle over a newly shared sink around `file`.
    pub fn new(conn_id: u32, file: tokio::fs::File) -> (r: ConnLog)
        ensures
            r.conn_id() == conn_id,
            r.is_enabled(),
    {
        ConnLog { conn_id, file: Some(Arc::new(new_lock(file))) }
    }

    /// A handle for `conn_id` onto the same sink as this one.
    pub fn clone_with_conn_id(&self, conn_id: u32) -> (r: ConnLog)
        ensures
            r.conn_id() == conn_id,
            r.sink_spec() == self.sink_spec(),
            r.is_enabled() == self.is_enabled(),
    {
        ConnLog { conn_id, file: share(&self.file) }
    }

    #[verifier::when_used_as_spec(spec_conn_id)]
    pub fn conn_id(&self) -> (r: u32)
        ensures
            r == self.spec_conn_id(),
    {
        self.conn_id
    }

    #[verifier::when_used_as_spec(spec_enabled)]
    pub fn is_enabled(&self) -> (r: bool)
        ensures
            r == self.spec_enabled(),
    {
        self.file.is_some()
    }

    /// The sink, where the handle has one.
    pub fn sink(&self) -> (r: Option<Sink>)
        ensures
            r == self.sink_spec(),
            r is Some <==> self.is_enabled(),
    {
        share(&self.file)
    }

    /// The record that appending `op` at `ts` writes: none on a handle
    /// without a sink.
    pub fn record(&self, op: ConnLogBody, ts: Timestamp) -> (r: Option<ConnLogMsg>)
        ensures
            r is Some <==> self.is_enabled(),
            r matches Some(m) ==> m.conn_id == self.conn_id() && m.op == op && m.ts == ts,
    {
        if self.file.is_some() {
            Some(ConnLogMsg::new(self.conn_id, op, ts))
        } else {
            None
        }
    }

    /// Appends to `out` what this handle writes for `op` at `ts`: nothing,
    /// without a sink; else exactly one line tagged with this handle's
    /// identifier. On error `out` is left as it was.
    pub fn append_to(&self, out: &mut Vec<u8>, op: ConnLogBody, ts: Timestamp) -> (r: Result<
        (),
        RecordError,
    >)
        ensures
            !self.is_enabled() ==> r is Ok && final(out)@ == old(out)@,
            self.is_enabled() ==> (r is Ok <==> formattable(ts.unix_nanos as int)),
            self.is_enabled() && r is Ok ==> final(out)@ == old(out)@ + line_text(
                self.conn_id(),
                op@,
                rfc3339_text(ts.unix_nanos as int),
            ),
            r is Err ==> final(out)@ == old(out)@,
    {
        match self.record(op, ts) {
            Some(m) => m.push_to(out),
            None => Ok(()),
        }
    }
}

} // verus!
