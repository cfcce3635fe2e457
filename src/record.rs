//! One log record and the line that stands for it in the log.
use vstd::prelude::*;
use vstd::utf8::encode_utf8;
use crate::event::{body_text, ConnLogBody, BodyView};
use crate::text::{decimal, push_decimal, push_quoted, push_slice, quoted};

verus! {

/// An instant in UTC, as nanoseconds since the Unix epoch.
#[derive(Debug, Clone, Copy, PartialEq, Eq)]
pub struct Timestamp {
    pub unix_nanos: i128,
}

/// First nanosecond of the year 0, counted from the Unix epoch.
pub const FIRST_FORMATTABLE_NANOS: i128 = -62_167_219_200_000_000_000;

/// First nanosecond of the year 10000, counted from the Unix epoch.
pub const END_FORMATTABLE_NANOS: i128 = 253_402_300_800_000_000_000;

/// Instants whose year has the four digits that RFC 3339 asks for.
pub open spec fn formattable(n: int) -> bool {
    FIRST_FORMATTABLE_NANOS <= n < END_FORMATTABLE_NANOS
}

/// The RFC 3339 text (UTC, `Z` offset, fractional seconds) of the instant
/// `n` nanoseconds after the Unix epoch, as the `time` crate writes it.
pub uninterp spec fn rfc3339_text(n: int) -> Seq<char>;

/// Relies on `time::OffsetDateTime::from_unix_timestamp_nanos`, which turns
/// the count into a UTC date-time (and fails outside the years -9999 to
/// 9999), and on `OffsetDateTime::format` with `Rfc3339`, which fails on a
/// year outside 0 to 9999 and otherwise depends on the date-time alone.
#[verifier::external_body]
fn format_rfc3339(n: i128) -> (r: Option<String>)
    ensures
        r is Some <==> formattable(n as int),
        r matches Some(s) ==> s@ == rfc3339_text(n as int),
{
    let dt = time::OffsetDateTime::from_unix_timestamp_nanos(n).ok()?;
    dt.format(&time::format_description::well_known::Rfc3339).ok()
}

impl Timestamp {
    pub fn from_unix_nanos(unix_nanos: i128) -> (r: Timestamp)
        ensures
            r.unix_nanos == unix_nanos,
    {
        Timestamp { unix_nanos }
    }

    /// The RFC 3339 text of this instant; `None` where its year is not
    /// between 0 and 9999.
    pub fn to_rfc3339(&self) -> (r: Option<String>)
        ensures
            r is Some <==> formattable(self.unix_nanos as int),
            r matches Some(s) ==> s@ == rfc3339_text(self.unix_nanos as int),
    {
        format_rfc3339(self.unix_nanos)
    }
}

/// `{"conn_id":`
pub open spec fn conn_id_key() -> Seq<u8> {
    seq![123u8, 34u8, 99u8, 111u8, 110u8, 110u8, 95u8, 105u8, 100u8, 34u8, 58u8]
}

/// `,"op":`
pub open spec fn op_key() -> Seq<u8> {
    seq![44u8, 34u8, 111u8, 112u8, 34u8, 58u8]
}

/// `,"ts":`
pub open spec fn ts_key() -> Seq<u8> {
    seq![44u8, 34u8, 116u8, 115u8, 34u8, 58u8]
}

/// A record as one JSON object, without the line break.
#[verifier::opaque]
pub open spec fn record_text(conn_id: u32, op: BodyView, ts: Seq<char>) -> Seq<u8> {
    conn_id_key() + decimal(conn_id as nat) + op_key() + body_text(op) + ts_key()
        + quoted(encode_utf8(ts)) + seq![125u8]
}

/// A record as one line of the log: the object, then a line break.
pub open spec fn line_text(conn_id: u32, op: BodyView, ts: Seq<char>) -> Seq<u8> {
    record_text(conn_id, op, ts) + seq![10u8]
}

/// Appends the line of the record (`conn_id`, `op`), stamped with the
/// already formatted time `ts`.
pub fn push_line(out: &mut Vec<u8>, conn_id: u32, op: &ConnLogBody, ts: &str)
    ensures
        final(out)@ == old(out)@ + line_text(conn_id, op@, ts@),
{
    reveal(record_text);
    push_slice(out, &[123u8, 34u8, 99u8, 111u8, 110u8, 110u8, 95u8, 105u8, 100u8, 34u8, 58u8]);
    push_decimal(out, conn_id);
    push_slice(out, &[44u8, 34u8, 111u8, 112u8, 34u8, 58u8]);
    op.push_json(out);
    push_slice(out, &[44u8, 34u8, 116u8, 115u8, 34u8, 58u8]);
    push_quoted(out, ts.as_bytes());
    push_slice(out, &[125u8, 10u8]);
    assert(out@ == old(out)@ + line_text(conn_id, op@, ts@));
}

/// The line of the record (`conn_id`, `op`), stamped with the already
/// formatted time `ts`.
pub fn encode_line(conn_id: u32, op: &ConnLogBody, ts: &str) -> (r: Vec<u8>)
    ensures
        r@ == line_text(conn_id, op@, ts@),
{
    let mut out: Vec<u8> = Vec::new();
    push_line(&mut out, conn_id, op, ts);
    out
}

/// Why a record could not be written.
#[derive(Debug, Clone, Copy, PartialEq, Eq)]
pub enum RecordError {
    /// The timestamp's year is not between 0 and 9999.
    TimestampOutOfRange,
}

/// A record: which connection, what happened, and when.
#[derive(Debug, Clone, PartialEq, Eq)]
pub struct ConnLogMsg {
    pub conn_id: u32,
    pub op: ConnLogBody,
    pub ts: Timestamp,
}

impl ConnLogMsg {
    pub fn new(conn_id: u32, op: ConnLogBody, ts: Timestamp) -> (r: ConnLogMsg)
        ensures
            r.conn_id == conn_id,
            r.op == op,
            r.ts == ts,
    {
        ConnLogMsg { conn_id, op, ts }
    }

    /// Appends this record's line; on error `out` is left as it was.
    pub fn push_to(&self, out: &mut Vec<u8>) -> (r: Result<(), RecordError>)
        ensures
            r is Ok <==> formattable(self.ts.unix_nanos as int),
            r is Ok ==> final(out)@ == old(out)@ + line_text(
                self.conn_id,
                self.op@,
                rfc3339_text(self.ts.unix_nanos as int),
            ),
            r is Err ==> final(out)@ == old(out)@,
    {
        match self.ts.to_rfc3339() {
            Some(ts) => {
                push_line(out, self.conn_id, &self.op, ts.as_str());
                Ok(())
            },
            None => Err(RecordError::TimestampOutOfRange),
        }
    }

    /// This record's line.
    pub fn to_line(&self) -> (r: Result<Vec<u8>, RecordError>)
        ensures
            r is Ok <==> formattable(self.ts.unix_nanos as int),
            r matches Ok(b) ==> b@ == line_text(
                self.conn_id,
                self.op@,
                rfc3339_text(self.ts.unix_nanos as int),
            ),
    {
        let mut out: Vec<u8> = Vec::new();
        match self.push_to(&mut out) {
            Ok(()) => Ok(out),
            Err(e) => Err(e),
        }
    }
}

} // verus!
