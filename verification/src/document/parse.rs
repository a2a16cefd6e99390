//! Reading text into records and fields.
//!
//! One scanner produces both, in a single pass, so there is one opinion about
//! where quoting starts. Each field is measured against what writing its value
//! would produce, and keeps its original characters only when the two differ.

use vstd::prelude::*;
use vstd::slice::slice_subrange;

use super::dialect::{Dialect, RecordStyle, RECORD_SEPARATOR};
use super::model::{
    blank_field, field_text, fields_text, fields_view, record_text, records_text, records_view,
    terminator_text, written, Field, FieldM, Record, RecordM, Terminator,
};
use super::serialize::matches_canonical;
use crate::text::string_of;

verus! {

/// Where a field stopped, which is also how the record it belongs to ended.
#[derive(Debug, Clone, Copy, PartialEq, Eq, Structural)]
pub enum FieldEnd {
    Delimiter,
    Lf,
    CrLf,
    RecordSeparator,
    EndOfText,
}

/// The inside of a quoted field, read from just past its opening quote: the
/// value, with each doubled quote read as one, and the position just past the
/// closing quote, or the end of the text when the quote is never closed.
pub open spec fn quoted_part(t: Seq<char>, p: int, quote: char) -> (Seq<char>, int)
    decreases t.len() - p,
{
    if p < 0 || p >= t.len() {
        (Seq::empty(), p)
    } else if t[p] == quote {
        if p + 1 < t.len() && t[p + 1] == quote {
            let rest = quoted_part(t, p + 2, quote);
            (seq![quote] + rest.0, rest.1)
        } else {
            (Seq::empty(), p + 1)
        }
    } else {
        let rest = quoted_part(t, p + 1, quote);
        (seq![t[p]] + rest.0, rest.1)
    }
}

/// The literal part of a field from `p`: everything up to a delimiter, the
/// end of the record, or the end of the text. A record ends at a line feed or
/// a carriage return followed by one, and a carriage return on its own is
/// data; in a dialect whose records end with the ASCII record separator, it
/// ends there instead, and line breaks are data. Gives the characters read,
/// where they stopped, and what stopped them.
pub open spec fn plain_part(t: Seq<char>, p: int, dialect: Dialect) -> (Seq<char>, int, FieldEnd)
    decreases t.len() - p,
{
    if p < 0 || p >= t.len() {
        (Seq::empty(), p, FieldEnd::EndOfText)
    } else if dialect.style() == RecordStyle::RecordSeparator {
        if t[p] == RECORD_SEPARATOR {
            (Seq::empty(), p, FieldEnd::RecordSeparator)
        } else if t[p] == dialect.delimiter_char() {
            (Seq::empty(), p, FieldEnd::Delimiter)
        } else {
            let rest = plain_part(t, p + 1, dialect);
            (seq![t[p]] + rest.0, rest.1, rest.2)
        }
    } else if t[p] == '\n' {
        (Seq::empty(), p, FieldEnd::Lf)
    } else if t[p] == '\r' && p + 1 < t.len() && t[p + 1] == '\n' {
        (Seq::empty(), p, FieldEnd::CrLf)
    } else if t[p] == dialect.delimiter_char() {
        (Seq::empty(), p, FieldEnd::Delimiter)
    } else {
        let rest = plain_part(t, p + 1, dialect);
        (seq![t[p]] + rest.0, rest.1, rest.2)
    }
}

/// The field that starts at `start`: an optional quoted part followed by a
/// literal part. Gives the field, where its characters stop, and what stopped
/// them.
pub open spec fn field_at(t: Seq<char>, start: int, dialect: Dialect) -> (FieldM, int, FieldEnd) {
    let head = if start < t.len() && t[start] == dialect.quote_char() {
        quoted_part(t, start + 1, dialect.quote_char())
    } else {
        (Seq::<char>::empty(), start)
    };
    let tail = plain_part(t, head.1, dialect);
    let value = head.0 + tail.0;
    let raw = t.subrange(start, tail.1);
    (
        FieldM {
            value,
            verbatim: if written(value, dialect) == raw {
                None
            } else {
                Some(raw)
            },
        },
        tail.1,
        tail.2,
    )
}

/// Where reading goes on after a field that stopped at `stop`.
pub open spec fn resume(stop: int, end: FieldEnd) -> int {
    match end {
        FieldEnd::Delimiter => stop + 1,
        FieldEnd::Lf => stop + 1,
        FieldEnd::CrLf => stop + 2,
        FieldEnd::RecordSeparator => stop + 1,
        FieldEnd::EndOfText => stop,
    }
}

/// How a record ends when its last field ended this way.
pub open spec fn terminator_of(end: FieldEnd) -> Terminator {
    match end {
        FieldEnd::Lf => Terminator::Lf,
        FieldEnd::CrLf => Terminator::CrLf,
        FieldEnd::RecordSeparator => Terminator::RecordSeparator,
        _ => Terminator::Absent,
    }
}

/// The record that starts at `start`: its fields, how it ended, and where the
/// next record starts.
pub open spec fn record_at(t: Seq<char>, start: int, dialect: Dialect) -> (
    Seq<FieldM>,
    Terminator,
    int,
)
    decreases t.len() - start,
{
    let (field, stop, end) = field_at(t, start, dialect);
    if end == FieldEnd::Delimiter && start <= stop < t.len() {
        let rest = record_at(t, stop + 1, dialect);
        (seq![field] + rest.0, rest.1, rest.2)
    } else {
        (seq![field], terminator_of(end), resume(stop, end))
    }
}

/// The records from `p` to the end of the text.
pub open spec fn records_from(t: Seq<char>, p: int, dialect: Dialect) -> Seq<RecordM>
    decreases t.len() - p,
{
    if p < 0 || p >= t.len() {
        Seq::empty()
    } else {
        let (fields, terminator, next) = record_at(t, p, dialect);
        let record = RecordM { fields, terminator };
        if p < next <= t.len() {
            seq![record] + records_from(t, next, dialect)
        } else {
            seq![record]
        }
    }
}

/// What a text reads as: the records it holds. A text that ends with a
/// terminator has no empty record after it, and an empty text has none.
pub open spec fn parse_spec(t: Seq<char>, dialect: Dialect) -> Seq<RecordM> {
    records_from(t, 0, dialect)
}

pub(crate) proof fn lemma_quoted_part_bounds(t: Seq<char>, p: int, quote: char)
    requires
        0 <= p <= t.len(),
    ensures
        p <= quoted_part(t, p, quote).1 <= t.len(),
    decreases t.len() - p,
{
    if p < t.len() {
        if t[p] == quote {
            if p + 1 < t.len() && t[p + 1] == quote {
                lemma_quoted_part_bounds(t, p + 2, quote);
            }
        } else {
            lemma_quoted_part_bounds(t, p + 1, quote);
        }
    }
}

pub(crate) proof fn lemma_plain_part_facts(t: Seq<char>, p: int, dialect: Dialect)
    requires
        0 <= p <= t.len(),
    ensures
        ({
            let (v, stop, end) = plain_part(t, p, dialect);
            &&& p <= stop <= t.len()
            &&& end == FieldEnd::EndOfText ==> stop == t.len()
            &&& end == FieldEnd::Lf ==> stop < t.len() && t[stop] == '\n'
            &&& end == FieldEnd::CrLf ==> stop + 1 < t.len() && t[stop] == '\r' && t[stop + 1]
                == '\n'
            &&& end == FieldEnd::Delimiter ==> stop < t.len() && t[stop]
                == dialect.delimiter_char()
            &&& end == FieldEnd::RecordSeparator ==> stop < t.len() && t[stop] == RECORD_SEPARATOR
            &&& (end == FieldEnd::Lf || end == FieldEnd::CrLf) ==> dialect.style()
                == RecordStyle::LineBreak
            &&& end == FieldEnd::RecordSeparator ==> dialect.style() == RecordStyle::RecordSeparator
            &&& v =~= t.subrange(p, stop)
        }),
    decreases t.len() - p,
{
    if p < t.len() {
        let stops = if dialect.style() == RecordStyle::RecordSeparator {
            t[p] == RECORD_SEPARATOR || t[p] == dialect.delimiter_char()
        } else {
            t[p] == '\n' || (t[p] == '\r' && p + 1 < t.len() && t[p + 1] == '\n') || t[p]
                == dialect.delimiter_char()
        };
        if !stops {
            lemma_plain_part_facts(t, p + 1, dialect);
            let stop = plain_part(t, p, dialect).1;
            assert(seq![t[p]] + t.subrange(p + 1, stop) =~= t.subrange(p, stop));
        }
    }
}

pub(crate) proof fn lemma_field_at_facts(t: Seq<char>, start: int, dialect: Dialect)
    requires
        0 <= start <= t.len(),
    ensures
        ({
            let (f, stop, end) = field_at(t, start, dialect);
            &&& start <= stop <= t.len()
            &&& end == FieldEnd::EndOfText ==> stop == t.len()
            &&& end == FieldEnd::Lf ==> stop < t.len() && t[stop] == '\n'
            &&& end == FieldEnd::CrLf ==> stop + 1 < t.len() && t[stop] == '\r' && t[stop + 1]
                == '\n'
            &&& end == FieldEnd::Delimiter ==> stop < t.len() && t[stop]
                == dialect.delimiter_char()
            &&& end == FieldEnd::RecordSeparator ==> stop < t.len() && t[stop] == RECORD_SEPARATOR
            &&& (end == FieldEnd::Lf || end == FieldEnd::CrLf) ==> dialect.style()
                == RecordStyle::LineBreak
            &&& end == FieldEnd::RecordSeparator ==> dialect.style() == RecordStyle::RecordSeparator
            &&& start < t.len() ==> start < resume(stop, end)
            &&& resume(stop, end) <= t.len()
            &&& field_text(f, dialect) == t.subrange(start, stop)
        }),
{
    let q = dialect.quote_char();
    let head = if start < t.len() && t[start] == q {
        quoted_part(t, start + 1, q)
    } else {
        (Seq::<char>::empty(), start)
    };
    if start < t.len() && t[start] == q {
        lemma_quoted_part_bounds(t, start + 1, q);
    }
    lemma_plain_part_facts(t, head.1, dialect);
}

pub(crate) proof fn lemma_record_at_text(t: Seq<char>, start: int, dialect: Dialect)
    requires
        0 <= start <= t.len(),
    ensures
        ({
            let (fields, terminator, next) = record_at(t, start, dialect);
            &&& start <= next <= t.len()
            &&& start < t.len() ==> start < next
            &&& fields.len() >= 1
            &&& fields_text(fields, dialect) + terminator_text(terminator) == t.subrange(
                start,
                next,
            )
        }),
    decreases t.len() - start,
{
    lemma_field_at_facts(t, start, dialect);
    let (field, stop, end) = field_at(t, start, dialect);
    if end == FieldEnd::Delimiter && start <= stop < t.len() {
        lemma_record_at_text(t, stop + 1, dialect);
        let rest = record_at(t, stop + 1, dialect);
        let fields = seq![field] + rest.0;
        assert(fields.drop_first() =~= rest.0);
        assert(fields[0] == field);
        assert(fields_text(fields, dialect) == field_text(field, dialect) + seq![
            dialect.delimiter_char(),
        ] + fields_text(rest.0, dialect));
        assert(t.subrange(start, rest.2) =~= t.subrange(start, stop) + seq![
            dialect.delimiter_char(),
        ] + t.subrange(stop + 1, rest.2));
        assert(fields_text(fields, dialect) + terminator_text(rest.1) =~= t.subrange(
            start,
            rest.2,
        ));
    } else {
        let fields = seq![field];
        assert(fields[0] == field);
        assert(fields_text(fields, dialect) == field_text(field, dialect));
        assert(fields_text(fields, dialect) + terminator_text(terminator_of(end)) =~= t.subrange(
            start,
            resume(stop, end),
        ));
    }
}

/// Reading then writing gives back exactly the text that was read, whatever
/// the text and whatever the dialect.
pub proof fn lemma_records_from_text(t: Seq<char>, p: int, dialect: Dialect)
    requires
        0 <= p <= t.len(),
    ensures
        records_text(records_from(t, p, dialect), dialect) == t.subrange(p, t.len() as int),
    decreases t.len() - p,
{
    if p >= t.len() {
        assert(t.subrange(p, t.len() as int) =~= Seq::<char>::empty());
    } else {
        lemma_record_at_text(t, p, dialect);
        let (fields, terminator, next) = record_at(t, p, dialect);
        let record = RecordM { fields, terminator };
        lemma_records_from_text(t, next, dialect);
        let rs = seq![record] + records_from(t, next, dialect);
        assert(rs.drop_first() =~= records_from(t, next, dialect));
        assert(rs[0] == record);
        assert(t.subrange(p, t.len() as int) =~= t.subrange(p, next) + t.subrange(
            next,
            t.len() as int,
        ));
    }
}

/// The round trip for a whole text.
pub proof fn lemma_parse_writes_back(t: Seq<char>, dialect: Dialect)
    ensures
        records_text(parse_spec(t, dialect), dialect) == t,
{
    lemma_records_from_text(t, 0, dialect);
    assert(t.subrange(0, t.len() as int) =~= t);
}

/// Reads the inside of a quoted field into `value`, starting just past the
/// opening quote, and returns the position just past the closing one.
fn read_quoted(t: &Vec<char>, start: usize, quote: char, value: &mut Vec<char>) -> (r: usize)
    requires
        start <= t@.len(),
    ensures
        final(value)@ == old(value)@ + quoted_part(t@, start as int, quote).0,
        r == quoted_part(t@, start as int, quote).1,
{
    let ghost goal = quoted_part(t@, start as int, quote);
    let mut position: usize = start;
    loop
        invariant
            position <= t@.len(),
            goal == quoted_part(t@, start as int, quote),
            old(value)@ + goal.0 == value@ + quoted_part(t@, position as int, quote).0,
            goal.1 == quoted_part(t@, position as int, quote).1,
        decreases t@.len() - position,
    {
        if position >= t.len() {
            assert(value@ =~= old(value)@ + goal.0);
            return position;
        }
        let c = t[position];
        if c == quote {
            if position + 1 < t.len() && t[position + 1] == quote {
                value.push(quote);
                position = position + 2;
                assert(old(value)@ + goal.0 =~= value@ + quoted_part(t@, position as int, quote).0);
            } else {
                assert(value@ =~= old(value)@ + goal.0);
                return position + 1;
            }
        } else {
            value.push(c);
            position = position + 1;
            assert(old(value)@ + goal.0 =~= value@ + quoted_part(t@, position as int, quote).0);
        }
    }
}

/// Reads the literal part of a field into `value`, and says where it stopped
/// and why.
fn read_plain(t: &Vec<char>, start: usize, dialect: Dialect, value: &mut Vec<char>) -> (r: (
    usize,
    FieldEnd,
))
    requires
        start <= t@.len(),
    ensures
        final(value)@ == old(value)@ + plain_part(t@, start as int, dialect).0,
        r.0 == plain_part(t@, start as int, dialect).1,
        r.1 == plain_part(t@, start as int, dialect).2,
{
    let ghost goal = plain_part(t@, start as int, dialect);
    let delimiter = dialect.delimiter();
    let separated = dialect.uses_record_separator();
    let mut position: usize = start;
    loop
        invariant
            position <= t@.len(),
            delimiter == dialect.delimiter_char(),
            separated == (dialect.style() == RecordStyle::RecordSeparator),
            goal == plain_part(t@, start as int, dialect),
            old(value)@ + goal.0 == value@ + plain_part(t@, position as int, dialect).0,
            goal.1 == plain_part(t@, position as int, dialect).1,
            goal.2 == plain_part(t@, position as int, dialect).2,
        decreases t@.len() - position,
    {
        if position >= t.len() {
            assert(value@ =~= old(value)@ + goal.0);
            return (position, FieldEnd::EndOfText);
        }
        let c = t[position];
        if separated {
            if c == RECORD_SEPARATOR {
                assert(value@ =~= old(value)@ + goal.0);
                return (position, FieldEnd::RecordSeparator);
            }
        } else if c == '\n' {
            assert(value@ =~= old(value)@ + goal.0);
            return (position, FieldEnd::Lf);
        } else if c == '\r' && position + 1 < t.len() && t[position + 1] == '\n' {
            assert(value@ =~= old(value)@ + goal.0);
            return (position, FieldEnd::CrLf);
        }
        if c == delimiter {
            assert(value@ =~= old(value)@ + goal.0);
            return (position, FieldEnd::Delimiter);
        }
        value.push(c);
        position = position + 1;
        assert(old(value)@ + goal.0 =~= value@ + plain_part(t@, position as int, dialect).0);
    }
}

/// Reads the field that starts at `start`.
fn parse_field(t: &Vec<char>, start: usize, dialect: Dialect) -> (r: (Field, usize, FieldEnd))
    requires
        start <= t@.len(),
    ensures
        (r.0@, r.1 as int, r.2) == field_at(t@, start as int, dialect),
{
    let mut value: Vec<char> = Vec::new();
    let quote = dialect.quote();
    let mut position = start;
    if start < t.len() && t[start] == quote {
        proof {
            lemma_quoted_part_bounds(t@, start + 1, quote);
        }
        position = read_quoted(t, start + 1, quote, &mut value);
    }
    let ghost head = value@;
    proof {
        lemma_plain_part_facts(t@, position as int, dialect);
    }
    let (stop, end) = read_plain(t, position, dialect, &mut value);
    let raw = slice_subrange(t.as_slice(), start, stop);
    let verbatim = if matches_canonical(value.as_slice(), raw, dialect) {
        None
    } else {
        Some(string_of(raw))
    };
    let field = Field { value: string_of(value.as_slice()), verbatim };
    proof {
        let expected = field_at(t@, start as int, dialect);
        assert(value@ =~= expected.0.value);
        assert(field@ == expected.0);
    }
    (field, stop, end)
}

/// Reads the record that starts at `start`, and says where the next one does.
fn parse_record(t: &Vec<char>, start: usize, dialect: Dialect) -> (r: (Record, usize))
    requires
        start <= t@.len(),
    ensures
        ({
            let goal = record_at(t@, start as int, dialect);
            &&& r.0@.fields == goal.0
            &&& r.0@.terminator == goal.1
            &&& r.1 == goal.2
        }),
{
    let ghost goal = record_at(t@, start as int, dialect);
    let mut fields: Vec<Field> = Vec::new();
    let mut position = start;
    loop
        invariant
            position <= t@.len(),
            goal == record_at(t@, start as int, dialect),
            goal.0 == fields_view(fields@) + record_at(t@, position as int, dialect).0,
            goal.1 == record_at(t@, position as int, dialect).1,
            goal.2 == record_at(t@, position as int, dialect).2,
        decreases t@.len() - position,
    {
        proof {
            lemma_field_at_facts(t@, position as int, dialect);
        }
        let ghost before = fields@;
        let (field, stop, end) = parse_field(t, position, dialect);
        let ghost f = field@;
        let length = t.len();
        assert(end != FieldEnd::EndOfText ==> stop < length);
        assert(end == FieldEnd::CrLf ==> stop + 1 < length);
        assert(end == FieldEnd::RecordSeparator ==> stop < length);
        fields.push(field);
        assert(fields_view(fields@) =~= fields_view(before).push(f));
        match end {
            FieldEnd::Delimiter => {
                let ghost rest = record_at(t@, stop + 1, dialect);
                assert(goal.0 =~= fields_view(fields@) + rest.0);
                position = stop + 1;
            },
            _ => {
                let terminator = match end {
                    FieldEnd::Lf => Terminator::Lf,
                    FieldEnd::CrLf => Terminator::CrLf,
                    FieldEnd::RecordSeparator => Terminator::RecordSeparator,
                    _ => Terminator::Absent,
                };
                let next = match end {
                    FieldEnd::CrLf => stop + 2,
                    FieldEnd::Lf => stop + 1,
                    FieldEnd::RecordSeparator => stop + 1,
                    _ => stop,
                };
                assert(goal.0 =~= fields_view(fields@));
                return (Record { fields, terminator }, next);
            },
        }
    }
}

/// Reads a whole text into records.
pub fn parse(t: &Vec<char>, dialect: Dialect) -> (r: Vec<Record>)
    ensures
        records_view(r@) == parse_spec(t@, dialect),
{
    let ghost goal = parse_spec(t@, dialect);
    let mut records: Vec<Record> = Vec::new();
    let mut position: usize = 0;
    while position < t.len()
        invariant
            position <= t@.len(),
            goal == parse_spec(t@, dialect),
            goal == records_view(records@) + records_from(t@, position as int, dialect),
        decreases t@.len() - position,
    {
        proof {
            lemma_record_at_text(t@, position as int, dialect);
        }
        let ghost before = records@;
        let (record, next) = parse_record(t, position, dialect);
        let ghost m = record@;
        records.push(record);
        assert(records_view(records@) =~= records_view(before).push(m));
        assert(goal =~= records_view(records@) + records_from(t@, next as int, dialect));
        position = next;
    }
    assert(goal =~= records_view(records@));
    records
}

} // verus!
