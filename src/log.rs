//! What a log made of appended records looks like as a whole.
use vstd::prelude::*;
use vstd::utf8::encode_utf8;
use crate::event::{body_text, BodyView};
use crate::parse::lemma_decimal;
use crate::record::{conn_id_key, line_text, op_key, record_text};
use crate::text::{byte_list, decimal, escape_byte, escaped, list_items, quoted};

verus! {

/// One record as the log holds it: connection, event, formatted time.
pub struct Entry {
    pub conn_id: u32,
    pub op: BodyView,
    pub ts: Seq<char>,
}

/// The line of an entry.
pub open spec fn entry_line(e: Entry) -> Seq<u8> {
    line_text(e.conn_id, e.op, e.ts)
}

/// The object of an entry, without its line break.
pub open spec fn entry_record(e: Entry) -> Seq<u8> {
    record_text(e.conn_id, e.op, e.ts)
}

/// The log after the entries `es` were appended, in that order.
pub open spec fn log_text(es: Seq<Entry>) -> Seq<u8>
    decreases es.len(),
{
    if es.len() == 0 {
        Seq::empty()
    } else {
        log_text(es.drop_last()) + entry_line(es.last())
    }
}

/// `b` cut at each line break: the finished lines, without their breaks,
/// then what follows the last break.
pub open spec fn split_lines(b: Seq<u8>) -> Seq<Seq<u8>>
    decreases b.len(),
{
    if b.len() == 0 {
        seq![Seq::empty()]
    } else {
        let r = split_lines(b.drop_last());
        if b.last() == 10 {
            r.push(Seq::empty())
        } else {
            r.update(r.len() - 1, r.last().push(b.last()))
        }
    }
}

pub open spec fn no_line_break(s: Seq<u8>) -> bool {
    forall|i: int| 0 <= i < s.len() ==> s[i] != 10
}

proof fn lemma_split_len(b: Seq<u8>)
    ensures
        split_lines(b).len() >= 1,
    decreases b.len(),
{
    if b.len() > 0 {
        lemma_split_len(b.drop_last());
    }
}

proof fn lemma_decimal_no_break(n: nat)
    ensures
        no_line_break(decimal(n)),
    decreases n,
{
    if n >= 10 {
        lemma_decimal_no_break(n / 10);
    }
}

proof fn lemma_escaped_no_break(s: Seq<u8>)
    ensures
        no_line_break(escaped(s)),
    decreases s.len(),
{
    if s.len() > 0 {
        lemma_escaped_no_break(s.drop_last());
        let b = s.last();
        assert(no_line_break(escape_byte(b)));
    }
}

proof fn lemma_items_no_break(b: Seq<u8>)
    ensures
        no_line_break(list_items(b)),
    decreases b.len(),
{
    if b.len() == 1 {
        lemma_decimal_no_break(b[0] as nat);
    } else if b.len() > 1 {
        lemma_items_no_break(b.drop_last());
        lemma_decimal_no_break(b.last() as nat);
    }
}

/// No record holds a line break: whatever a string or a payload holds,
/// it is escaped or written as numbers.
pub proof fn lemma_record_no_break(conn_id: u32, op: BodyView, ts: Seq<char>)
    ensures
        no_line_break(record_text(conn_id, op, ts)),
{
    reveal(record_text);
    lemma_decimal_no_break(conn_id as nat);
    lemma_escaped_no_break(encode_utf8(ts));
    match op {
        BodyView::Connect { ipaddr } => {
            lemma_escaped_no_break(encode_utf8(ipaddr));
        },
        BodyView::ServerToClientMsg(b) => {
            lemma_items_no_break(b);
        },
        BodyView::ClientToServerMsg(b) => {
            lemma_items_no_break(b);
        },
        _ => {},
    }
    assert(no_line_break(body_text(op)));
}

proof fn lemma_split_extend(x: Seq<u8>, y: Seq<u8>)
    requires
        no_line_break(y),
    ensures
        split_lines(x + y) == {
            let r = split_lines(x);
            r.update(r.len() - 1, r.last() + y)
        },
    decreases y.len(),
{
    lemma_split_len(x);
    if y.len() == 0 {
        assert(x + y == x);
        assert(split_lines(x).last() + y == split_lines(x).last());
        assert(split_lines(x).update(split_lines(x).len() - 1, split_lines(x).last())
            == split_lines(x));
    } else {
        lemma_split_extend(x, y.drop_last());
        assert((x + y).drop_last() == x + y.drop_last());
        let r = split_lines(x);
        assert((r.last() + y.drop_last()).push(y.last()) == r.last() + y);
    }
}

/// Appended records read back line by line: the log cut at its line
/// breaks is exactly the records, one per line, in the order they were
/// appended, with nothing after the last break.
pub proof fn lemma_log_lines(es: Seq<Entry>)
    ensures
        split_lines(log_text(es)) == Seq::new(es.len(), |i: int| entry_record(es[i])).push(
            Seq::empty(),
        ),
        forall|i: int| 0 <= i < es.len() ==> no_line_break(#[trigger] entry_record(es[i])),
    decreases es.len(),
{
    assert forall|i: int| 0 <= i < es.len() implies no_line_break(#[trigger] entry_record(es[i])) by {
        lemma_record_no_break(es[i].conn_id, es[i].op, es[i].ts);
    }
    if es.len() == 0 {
        assert(split_lines(Seq::empty()) == seq![Seq::<u8>::empty()]);
        assert(Seq::new(0, |i: int| entry_record(es[i])).push(Seq::empty()) == seq![Seq::<u8>::empty()]);
    } else {
        let prev = es.drop_last();
        let e = es.last();
        lemma_log_lines(prev);
        let rec = entry_record(e);
        lemma_record_no_break(e.conn_id, e.op, e.ts);
        let base = log_text(prev);
        lemma_split_extend(base, rec);
        assert(log_text(es) == (base + rec) + seq![10u8]);
        assert((base + rec) + seq![10u8] == ((base + rec) + seq![10u8]).drop_last() + seq![10u8]);
        assert(((base + rec) + seq![10u8]).drop_last() == base + rec);
        assert(Seq::<u8>::empty() + rec == rec);
        assert(split_lines(log_text(es)) == Seq::new(es.len(), |i: int| entry_record(es[i])).push(
            Seq::empty(),
        ));
    }
}

/// The records of `es`, in order, one per entry.
pub open spec fn records(es: Seq<Entry>) -> Seq<Seq<u8>> {
    Seq::new(es.len(), |i: int| entry_record(es[i]))
}

/// The records of the entries of `es` made for connection `c`, in order.
pub open spec fn records_of(es: Seq<Entry>, c: u32) -> Seq<Seq<u8>>
    decreases es.len(),
{
    if es.len() == 0 {
        Seq::empty()
    } else if es.last().conn_id == c {
        records_of(es.drop_last(), c).push(entry_record(es.last()))
    } else {
        records_of(es.drop_last(), c)
    }
}

/// The line begins as a record of connection `c` does.
pub open spec fn tagged(line: Seq<u8>, c: u32) -> bool {
    let p = conn_id_key() + decimal(c as nat) + op_key();
    p.len() <= line.len() && line.subrange(0, p.len() as int) == p
}

/// The lines among `lines` that are tagged with connection `c`, in order.
pub open spec fn lines_of(lines: Seq<Seq<u8>>, c: u32) -> Seq<Seq<u8>>
    decreases lines.len(),
{
    if lines.len() == 0 {
        Seq::empty()
    } else if tagged(lines.last(), c) {
        lines_of(lines.drop_last(), c).push(lines.last())
    } else {
        lines_of(lines.drop_last(), c)
    }
}

/// A record is tagged with exactly the connection it was made for.
pub proof fn lemma_tagged(e: Entry, c: u32)
    ensures
        tagged(entry_record(e), c) <==> e.conn_id == c,
{
    reveal(record_text);
    let line = entry_record(e);
    let k1 = conn_id_key();
    let k2 = op_key();
    let d = decimal(c as nat);
    let d2 = decimal(e.conn_id as nat);
    let rest = body_text(e.op) + ts_key_rest(e.ts);
    assert(line =~= k1 + d2 + k2 + rest);
    let p = k1 + d + k2;
    if e.conn_id == c {
        assert(line.subrange(0, p.len() as int) =~= p);
    } else if tagged(line, c) {
        lemma_decimal(c as nat);
        lemma_decimal(e.conn_id as nat);
        assert(line[11 + d.len() as int] == p[11 + d.len() as int]);
        if d.len() < d2.len() {
            assert(line[11 + d.len() as int] == d2[d.len() as int]);
        } else if d.len() > d2.len() {
            assert(line[11 + d2.len() as int] == p[11 + d2.len() as int]);
            assert(line[11 + d2.len() as int] == k2[0]);
        } else {
            assert forall|i: int| 0 <= i < d.len() implies d[i] == d2[i] by {
                assert(line[11 + i] == p[11 + i]);
                assert(line[11 + i] == (k1 + d2 + k2 + rest)[11 + i]);
            }
            assert(d =~= d2);
        }
    }
}

/// What follows the event in a record.
pub open spec fn ts_key_rest(ts: Seq<char>) -> Seq<u8> {
    crate::record::ts_key() + quoted(encode_utf8(ts)) + seq![125u8]
}

proof fn lemma_lines_of_records(es: Seq<Entry>, c: u32)
    ensures
        lines_of(records(es), c) == records_of(es, c),
    decreases es.len(),
{
    if es.len() > 0 {
        let p = es.drop_last();
        lemma_lines_of_records(p, c);
        assert(records(es).drop_last() == records(p));
        lemma_tagged(es.last(), c);
    }
}

/// One connection's records keep their order: among the finished lines of
/// the log, those tagged with connection `c` are, in order, the records
/// appended for `c`, whatever was appended for other connections between
/// them.
pub proof fn lemma_connection_order(es: Seq<Entry>, c: u32)
    ensures
        lines_of(split_lines(log_text(es)).drop_last(), c) == records_of(es, c),
{
    lemma_log_lines(es);
    assert(split_lines(log_text(es)).drop_last() == records(es));
    lemma_lines_of_records(es, c);
}

proof fn lemma_lines_of_concat(a: Seq<Seq<u8>>, b: Seq<Seq<u8>>, c: u32)
    ensures
        lines_of(a + b, c) == lines_of(a, c) + lines_of(b, c),
    decreases b.len(),
{
    if b.len() == 0 {
        assert(a + b == a);
        assert(lines_of(a, c) + Seq::<Seq<u8>>::empty() == lines_of(a, c));
    } else {
        lemma_lines_of_concat(a, b.drop_last(), c);
        assert((a + b).drop_last() == a + b.drop_last());
        assert((a + b).last() == b.last());
    }
}

/// Appending to a log whose last line is finished (`s0` is empty or ends
/// with a line break) leaves its lines as they were and adds one whole line
/// per appended record, in order, with nothing unfinished after them.
pub proof fn lemma_log_lines_after(s0: Seq<u8>, es: Seq<Entry>)
    requires
        split_lines(s0).last() == Seq::<u8>::empty(),
    ensures
        split_lines(s0 + log_text(es)) == split_lines(s0).drop_last() + records(es).push(
            Seq::empty(),
        ),
    decreases es.len(),
{
    lemma_split_len(s0);
    if es.len() == 0 {
        assert(s0 + log_text(es) == s0);
        assert(split_lines(s0).drop_last() + records(es).push(Seq::empty()) =~= split_lines(s0));
    } else {
        let prev = es.drop_last();
        let e = es.last();
        lemma_log_lines_after(s0, prev);
        let rec = entry_record(e);
        lemma_record_no_break(e.conn_id, e.op, e.ts);
        let base = s0 + log_text(prev);
        lemma_split_extend(base, rec);
        assert(s0 + log_text(es) == (base + rec) + seq![10u8]);
        assert(((base + rec) + seq![10u8]).drop_last() == base + rec);
        assert(Seq::<u8>::empty() + rec == rec);
        assert(records(es) == records(prev).push(rec));
        assert(split_lines(s0 + log_text(es)) =~= split_lines(s0).drop_last() + records(es).push(
            Seq::empty(),
        ));
    }
}

/// One connection's records keep their order after whatever finished lines
/// the log held before: the lines tagged with `c` are those it held, then
/// the records appended for `c`, in the order they were appended.
pub proof fn lemma_connection_order_after(s0: Seq<u8>, es: Seq<Entry>, c: u32)
    requires
        split_lines(s0).last() == Seq::<u8>::empty(),
    ensures
        lines_of(split_lines(s0 + log_text(es)).drop_last(), c) == lines_of(
            split_lines(s0).drop_last(),
            c,
        ) + records_of(es, c),
{
    lemma_log_lines_after(s0, es);
    assert(split_lines(s0 + log_text(es)).drop_last() == split_lines(s0).drop_last() + records(es));
    lemma_lines_of_concat(split_lines(s0).drop_last(), records(es), c);
    lemma_lines_of_records(es, c);
}

/// One more append, as `ConnLog::append_to` makes it, is one more entry of
/// the log: `line_text` of the new record after what was there.
pub proof fn lemma_append_entry(es: Seq<Entry>, conn_id: u32, op: BodyView, ts: Seq<char>)
    ensures
        log_text(es.push(Entry { conn_id, op, ts })) == log_text(es) + line_text(conn_id, op, ts),
{
    assert(es.push(Entry { conn_id, op, ts }).drop_last() == es);
}

} // verus!
