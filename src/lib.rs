//! A connection log: per-connection handles that append one JSON line per
//! event to a single shared sink.

mod text;
mod event;
mod record;
mod handle;
mod log;
mod parse;
mod decode;

pub use text::{push_decimal, push_quoted, push_byte_list};
pub use event::{ConnLogBody, BodyView};
pub use record::{
    Timestamp, ConnLogMsg, RecordError, encode_line, push_line, FIRST_FORMATTABLE_NANOS,
    END_FORMATTABLE_NANOS,
};
pub use handle::{ConnLog, Sink};
pub use log::{
    Entry, lemma_log_lines, lemma_log_lines_after, lemma_connection_order,
    lemma_connection_order_after, lemma_tagged, lemma_append_entry,
};
pub use decode::{LogLine, decode_record, parse_body_at};
pub use parse::{parse_byte_list, parse_digits, parse_quoted};
