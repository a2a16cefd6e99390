//! What reading gives back of what was written.
//!
//! Records are written one after another, each field followed by the
//! delimiter or, for the last, by the record's terminator. A field whose text
//! is read back as its own value wherever it stands, followed by what follows
//! it, makes the whole text read back as the records it was written from.

use vstd::prelude::*;

use super::dialect::{Dialect, RecordStyle, RECORD_SEPARATOR};
use super::history::with_fields;
use super::set_cell;
use super::model::{
    escaped, field_text, fields_text, needs_quoting, record_text, records_text, terminator_text,
    written, FieldM, RecordM, Terminator,
};
use super::parse::{
    field_at, lemma_field_at_facts, lemma_record_at_text, lemma_plain_part_facts, lemma_quoted_part_bounds, parse_spec,
    plain_part, quoted_part, record_at, records_from, FieldEnd,
};

verus! {

/// Whether `t` holds, at `p`, the boundary that ends a field this way.
pub open spec fn boundary_at(t: Seq<char>, p: int, end: FieldEnd, dialect: Dialect) -> bool {
    match end {
        FieldEnd::Delimiter => 0 <= p < t.len() && t[p] == dialect.delimiter_char(),
        FieldEnd::Lf => dialect.style() == RecordStyle::LineBreak && 0 <= p < t.len() && t[p]
            == '\n',
        FieldEnd::CrLf => dialect.style() == RecordStyle::LineBreak && 0 <= p && p + 1 < t.len()
            && t[p] == '\r' && t[p + 1] == '\n',
        FieldEnd::RecordSeparator => dialect.style() == RecordStyle::RecordSeparator && 0 <= p
            < t.len() && t[p] == RECORD_SEPARATOR,
        FieldEnd::EndOfText => p == t.len(),
    }
}

/// Whether a field's text, wherever it stands and followed by a boundary of
/// the kind `follow`, reads back as the field's value, stopping where its
/// text does.
pub open spec fn stands_alone(field: FieldM, follow: FieldEnd, dialect: Dialect) -> bool {
    forall|t: Seq<char>, start: int|
        #![trigger field_at(t, start, dialect)]
        0 <= start && start + field_text(field, dialect).len() <= t.len() && t.subrange(
            start,
            start + field_text(field, dialect).len(),
        ) == field_text(field, dialect) && boundary_at(
            t,
            start + field_text(field, dialect).len(),
            follow,
            dialect,
        ) ==> {
            let (read, stop, end) = field_at(t, start, dialect);
            &&& read.value == field.value
            &&& stop == start + field_text(field, dialect).len()
            &&& end == follow
        }
}

/// What follows the field at `j` of a record when it is written: the
/// delimiter, or for the last field the record's terminator.
pub open spec fn follow_of(record: RecordM, j: int) -> FieldEnd {
    if j + 1 < record.fields.len() {
        FieldEnd::Delimiter
    } else {
        match record.terminator {
            Terminator::Lf => FieldEnd::Lf,
            Terminator::CrLf => FieldEnd::CrLf,
            Terminator::RecordSeparator => FieldEnd::RecordSeparator,
            Terminator::Absent => FieldEnd::EndOfText,
        }
    }
}

/// Whether a record may end this way in this dialect: with a line break where
/// records end at line breaks, with the record separator where they end
/// there, or, for the last, with nothing.
pub open spec fn ends_in(terminator: Terminator, dialect: Dialect) -> bool {
    match terminator {
        Terminator::Absent => true,
        Terminator::RecordSeparator => dialect.style() == RecordStyle::RecordSeparator,
        _ => dialect.style() == RecordStyle::LineBreak,
    }
}

/// Whether records can be written and read back: each has a field and ends
/// the way the dialect ends records, only the last may end without a terminator and
/// then only when it writes something, and every field stands alone followed
/// by what follows it.
pub open spec fn readable(records: Seq<RecordM>, dialect: Dialect) -> bool {
    forall|i: int|
        0 <= i < records.len() ==> {
            &&& (#[trigger] records[i]).fields.len() >= 1
            &&& ends_in(records[i].terminator, dialect)
            &&& records[i].terminator == Terminator::Absent ==> i == records.len() - 1
                && record_text(records[i], dialect).len() > 0
            &&& forall|j: int|
                0 <= j < records[i].fields.len() ==> stands_alone(
                    #[trigger] records[i].fields[j],
                    follow_of(records[i], j),
                    dialect,
                )
        }
}

/// The values of a record's fields.
pub open spec fn values_of(record: RecordM) -> Seq<Seq<char>> {
    record.fields.map_values(|f: FieldM| f.value)
}

/// What a run of records holds once how each field was spelled is set aside:
/// every record's values and how it ends.
pub open spec fn contents(records: Seq<RecordM>) -> Seq<(Seq<Seq<char>>, Terminator)> {
    records.map_values(|r: RecordM| (values_of(r), r.terminator))
}

/// A run of characters none of which stops a plain part is read through.
proof fn lemma_plain_run(t: Seq<char>, p: int, q: int, dialect: Dialect)
    requires
        0 <= p <= q <= t.len(),
        forall|k: int| p <= k < q ==> !dialect.spec_is_boundary(#[trigger] t[k]),
    ensures
        plain_part(t, p, dialect).0 == t.subrange(p, q) + plain_part(t, q, dialect).0,
        plain_part(t, p, dialect).1 == plain_part(t, q, dialect).1,
        plain_part(t, p, dialect).2 == plain_part(t, q, dialect).2,
    decreases q - p,
{
    if p < q {
        lemma_plain_run(t, p + 1, q, dialect);
        assert(seq![t[p]] + t.subrange(p + 1, q) =~= t.subrange(p, q));
    } else {
        assert(t.subrange(p, q) =~= Seq::<char>::empty());
    }
}

/// A plain part that starts at a boundary reads nothing and stops there.
proof fn lemma_plain_at_boundary(t: Seq<char>, p: int, end: FieldEnd, dialect: Dialect)
    requires
        dialect.wf(),
        0 <= p <= t.len(),
        boundary_at(t, p, end, dialect),
    ensures
        plain_part(t, p, dialect) == (Seq::<char>::empty(), p, end),
{
}

/// The inside of a quoted field whose value was escaped is read back as the
/// value, ending just past the closing quote.
proof fn lemma_quoted_run(t: Seq<char>, p: int, value: Seq<char>, quote: char)
    requires
        0 <= p,
        p + escaped(value, quote).len() + 1 <= t.len(),
        t.subrange(p, p + escaped(value, quote).len()) == escaped(value, quote),
        t[p + escaped(value, quote).len()] == quote,
        p + escaped(value, quote).len() + 1 < t.len() ==> t[p + escaped(value, quote).len() + 1]
            != quote,
    ensures
        quoted_part(t, p, quote) == (value, p + escaped(value, quote).len() + 1),
    decreases value.len(),
{
    let e = escaped(value, quote);
    if value.len() > 0 {
        let rest = value.drop_first();
        let er = escaped(rest, quote);
        if value[0] == quote {
            assert(e =~= seq![quote, quote] + er);
            assert(t[p] == e[0] && t[p + 1] == e[1]);
            assert(t.subrange(p + 2, p + 2 + er.len()) =~= er) by {
                assert forall|k: int| 0 <= k < er.len() implies t.subrange(p + 2, p + 2 + er.len())[k]
                    == er[k] by {
                    assert(t.subrange(p, p + e.len())[k + 2] == e[k + 2]);
                }
            }
            lemma_quoted_run(t, p + 2, rest, quote);
            assert(seq![quote] + rest =~= value);
        } else {
            assert(e =~= seq![value[0]] + er);
            assert(t[p] == e[0]);
            assert(t.subrange(p + 1, p + 1 + er.len()) =~= er) by {
                assert forall|k: int| 0 <= k < er.len() implies t.subrange(p + 1, p + 1 + er.len())[k]
                    == er[k] by {
                    assert(t.subrange(p, p + e.len())[k + 1] == e[k + 1]);
                }
            }
            lemma_quoted_run(t, p + 1, rest, quote);
            assert(seq![value[0]] + rest =~= value);
        }
    } else {
        assert(e =~= Seq::<char>::empty());
    }
}

/// A field written from its value alone reads back as that value whatever
/// boundary follows it.
pub proof fn lemma_written_stands_alone(value: Seq<char>, follow: FieldEnd, dialect: Dialect)
    requires
        dialect.wf(),
    ensures
        stands_alone(FieldM { value, verbatim: None }, follow, dialect),
{
    let field = FieldM { value, verbatim: None };
    let w = written(value, dialect);
    let q = dialect.quote_char();
    assert forall|t: Seq<char>, start: int|
        #![trigger field_at(t, start, dialect)]
        0 <= start && start + field_text(field, dialect).len() <= t.len() && t.subrange(
            start,
            start + field_text(field, dialect).len(),
        ) == field_text(field, dialect) && boundary_at(
            t,
            start + field_text(field, dialect).len(),
            follow,
            dialect,
        ) implies {
        let (read, stop, end) = field_at(t, start, dialect);
        &&& read.value == field.value
        &&& stop == start + field_text(field, dialect).len()
        &&& end == follow
    } by {
        let stop = start + w.len();
        if !needs_quoting(value, dialect) {
            assert forall|k: int| start <= k < stop implies !dialect.spec_is_boundary(#[trigger] t[k]) by {
                assert(t.subrange(start, stop)[k - start] == value[k - start]);
                assert(!dialect.spec_is_boundary(value[k - start]));
            }
            if value.len() > 0 {
                assert(t.subrange(start, stop)[0] == value[0]);
                assert(!(value[0] == q || dialect.spec_is_boundary(value[0])));
            }
            lemma_plain_run(t, start, stop, dialect);
            lemma_plain_at_boundary(t, stop, follow, dialect);
            assert(t.subrange(start, stop) =~= value);
            assert(value + Seq::<char>::empty() =~= value);
        } else {
            let e = escaped(value, q);
            assert(w =~= seq![q] + e + seq![q]);
            assert(t[start] == w[0]);
            assert(t.subrange(start + 1, start + 1 + e.len()) =~= e) by {
                assert forall|k: int| 0 <= k < e.len() implies t.subrange(start + 1, start + 1 + e.len())[k]
                    == e[k] by {
                    assert(t.subrange(start, stop)[k + 1] == w[k + 1]);
                }
            }
            assert(t[start + 1 + e.len()] == w[e.len() + 1 as int]);
            lemma_quoted_run(t, start + 1, value, q);
            lemma_plain_at_boundary(t, stop, follow, dialect);
            assert(value + Seq::<char>::empty() =~= value);
        }
    }
}

/// A record written at `start` reads back as its values and its terminator,
/// ending where its text does.
proof fn lemma_record_reads_back(t: Seq<char>, start: int, record: RecordM, dialect: Dialect)
    requires
        dialect.wf(),
        record.fields.len() >= 1,
        ends_in(record.terminator, dialect),
        0 <= start,
        start + record_text(record, dialect).len() <= t.len(),
        t.subrange(start, start + record_text(record, dialect).len()) == record_text(record, dialect),
        record.terminator == Terminator::Absent ==> start + record_text(record, dialect).len()
            == t.len(),
        forall|j: int|
            0 <= j < record.fields.len() ==> stands_alone(
                #[trigger] record.fields[j],
                follow_of(record, j),
                dialect,
            ),
    ensures
        ({
            let (fields, terminator, next) = record_at(t, start, dialect);
            &&& fields.map_values(|f: FieldM| f.value) == values_of(record)
            &&& terminator == record.terminator
            &&& next == start + record_text(record, dialect).len()
        }),
    decreases record.fields.len(),
{
    let fields = record.fields;
    let f0 = fields[0];
    let ft0 = field_text(f0, dialect);
    let rt = record_text(record, dialect);
    let tt = terminator_text(record.terminator);
    let stop0 = start + ft0.len();
    assert forall|k: int| 0 <= k < rt.len() implies t[start + k] == rt[k] by {
        assert(t.subrange(start, start + rt.len())[k] == rt[k]);
    }
    assert(stands_alone(fields[0], follow_of(record, 0), dialect));
    if fields.len() == 1 {
        assert(fields_text(fields, dialect) == ft0);
        assert(rt =~= ft0 + tt);
        assert(t.subrange(start, stop0) =~= ft0) by {
            assert forall|k: int| 0 <= k < ft0.len() implies t.subrange(start, stop0)[k] == ft0[k] by {
                assert(t[start + k] == rt[k]);
            }
        }
        match record.terminator {
            Terminator::Lf => {
                assert(t[stop0] == rt[ft0.len() as int]);
            },
            Terminator::CrLf => {
                assert(t[stop0] == rt[ft0.len() as int]);
                assert(t[stop0 + 1] == rt[ft0.len() + 1 as int]);
            },
            Terminator::RecordSeparator => {
                assert(t[stop0] == rt[ft0.len() as int]);
            },
            _ => {
                assert(tt =~= Seq::<char>::empty());
            },
        }
        let (read, stop, end) = field_at(t, start, dialect);
        assert(seq![read].map_values(|f: FieldM| f.value) =~= values_of(record));
    } else {
        let rest = RecordM { fields: fields.drop_first(), terminator: record.terminator };
        let rrt = record_text(rest, dialect);
        assert(fields_text(fields, dialect) == ft0 + seq![dialect.delimiter_char()] + fields_text(
            fields.drop_first(),
            dialect,
        ));
        assert(rt =~= ft0 + seq![dialect.delimiter_char()] + rrt);
        assert(t.subrange(start, stop0) =~= ft0) by {
            assert forall|k: int| 0 <= k < ft0.len() implies t.subrange(start, stop0)[k] == ft0[k] by {
                assert(t[start + k] == rt[k]);
            }
        }
        assert(t[stop0] == rt[ft0.len() as int]);
        let (read, stop, end) = field_at(t, start, dialect);
        assert(end == FieldEnd::Delimiter && stop == stop0);
        assert(t.subrange(stop0 + 1, stop0 + 1 + rrt.len()) =~= rrt) by {
            assert forall|k: int| 0 <= k < rrt.len() implies t.subrange(stop0 + 1, stop0 + 1 + rrt.len())[k]
                == rrt[k] by {
                assert(t[start + ft0.len() + 1 + k] == rt[ft0.len() + 1 + k as int]);
            }
        }
        assert forall|j: int| 0 <= j < rest.fields.len() implies stands_alone(
            #[trigger] rest.fields[j],
            follow_of(rest, j),
            dialect,
        ) by {
            assert(rest.fields[j] == fields[j + 1]);
            assert(stands_alone(fields[j + 1], follow_of(record, j + 1), dialect));
        }
        lemma_record_reads_back(t, stop0 + 1, rest, dialect);
        let after = record_at(t, stop0 + 1, dialect);
        assert((seq![read] + after.0).map_values(|f: FieldM| f.value) =~= seq![read.value]
            + after.0.map_values(|f: FieldM| f.value));
        assert(values_of(record) =~= seq![f0.value] + values_of(rest));
    }
}

/// Records written from `p` to the end of `t` read back as their contents.
proof fn lemma_records_read_back(t: Seq<char>, p: int, records: Seq<RecordM>, dialect: Dialect)
    requires
        dialect.wf(),
        readable(records, dialect),
        0 <= p <= t.len(),
        t.subrange(p, t.len() as int) == records_text(records, dialect),
    ensures
        contents(records_from(t, p, dialect)) == contents(records),
    decreases records.len(),
{
    if records.len() == 0 {
        assert(t.subrange(p, t.len() as int).len() == 0);
        assert(contents(records_from(t, p, dialect)) =~= contents(records));
    } else {
        let r0 = records[0];
        let rest = records.drop_first();
        let rt0 = record_text(r0, dialect);
        let n = p + rt0.len();
        assert(records[0] == r0);
        assert(records_text(records, dialect) == rt0 + records_text(rest, dialect));
        if r0.terminator == Terminator::Absent {
            assert(rest.len() == 0);
            assert(records_text(rest, dialect) =~= Seq::<char>::empty());
        } else {
            assert(terminator_text(r0.terminator).len() > 0);
        }
        assert(rt0.len() > 0);
        let whole = t.subrange(p, t.len() as int);
        assert(t.subrange(p, n) =~= rt0) by {
            assert forall|k: int| 0 <= k < rt0.len() implies t.subrange(p, n)[k] == rt0[k] by {
                assert(whole[k] == t[p + k]);
            }
        }
        assert(t.subrange(n, t.len() as int) =~= records_text(rest, dialect)) by {
            assert forall|k: int| 0 <= k < records_text(rest, dialect).len() implies t.subrange(
                n,
                t.len() as int,
            )[k] == records_text(rest, dialect)[k] by {
                assert(whole[rt0.len() + k] == t[n + k]);
            }
        }
        assert forall|j: int| 0 <= j < r0.fields.len() implies stands_alone(
            #[trigger] r0.fields[j],
            follow_of(r0, j),
            dialect,
        ) by {
            assert(records[0].fields[j] == r0.fields[j]);
        }
        lemma_record_reads_back(t, p, r0, dialect);
        assert forall|i: int| 0 <= i < rest.len() implies {
            &&& (#[trigger] rest[i]).fields.len() >= 1
            &&& ends_in(rest[i].terminator, dialect)
            &&& rest[i].terminator == Terminator::Absent ==> i == rest.len() - 1 && record_text(
                rest[i],
                dialect,
            ).len() > 0
            &&& forall|j: int|
                0 <= j < rest[i].fields.len() ==> stands_alone(
                    #[trigger] rest[i].fields[j],
                    follow_of(rest[i], j),
                    dialect,
                )
        } by {
            assert(rest[i] == records[i + 1]);
        }
        lemma_records_read_back(t, n, rest, dialect);
        let (fields, terminator, next) = record_at(t, p, dialect);
        let record = RecordM { fields, terminator };
        assert(records_from(t, p, dialect) == seq![record] + records_from(t, next, dialect));
        assert(contents(records_from(t, p, dialect)) =~= seq![(values_of(record), terminator)]
            + contents(records_from(t, next, dialect)));
        assert(values_of(record) == values_of(r0));
        assert(contents(records) =~= seq![(values_of(r0), r0.terminator)] + contents(rest));
    }
}

/// What a read gives back of a write: records that can be written and read
/// back are read back, from the text they write, as the same values ending
/// the same way.
pub proof fn lemma_written_reads_back(records: Seq<RecordM>, dialect: Dialect)
    requires
        dialect.wf(),
        readable(records, dialect),
    ensures
        contents(parse_spec(records_text(records, dialect), dialect)) == contents(records),
{
    let t = records_text(records, dialect);
    assert(t.subrange(0, t.len() as int) =~= t);
    lemma_records_read_back(t, 0, records, dialect);
}

/// A plain part reads the same wherever its characters and the boundary that
/// stopped it stand.
proof fn lemma_plain_frame(t: Seq<char>, p: int, u: Seq<char>, q: int, dialect: Dialect)
    requires
        dialect.wf(),
        0 <= p <= t.len(),
        0 <= q,
        q + (plain_part(t, p, dialect).1 - p) <= u.len(),
        forall|k: int|
            0 <= k < plain_part(t, p, dialect).1 - p ==> u[q + k] == #[trigger] t[p + k],
        boundary_at(u, q + (plain_part(t, p, dialect).1 - p), plain_part(t, p, dialect).2, dialect),
    ensures
        plain_part(u, q, dialect) == (
            plain_part(t, p, dialect).0,
            q + (plain_part(t, p, dialect).1 - p),
            plain_part(t, p, dialect).2,
        ),
    decreases t.len() - p,
{
    lemma_plain_part_facts(t, p, dialect);
    let (v, stop, end) = plain_part(t, p, dialect);
    if stop == p {
        lemma_plain_at_boundary(u, q, end, dialect);
        assert(v =~= Seq::<char>::empty());
    } else {
        assert(u[q + 0] == t[p + 0]);
        if dialect.style() == RecordStyle::RecordSeparator {
            assert(!(t[p] == RECORD_SEPARATOR || t[p] == dialect.delimiter_char()));
        } else {
            assert(!(t[p] == '\n' || (t[p] == '\r' && p + 1 < t.len() && t[p + 1] == '\n') || t[p]
                == dialect.delimiter_char()));
            if t[p] == '\r' && q + 1 < u.len() && u[q + 1] == '\n' {
                if p + 1 < stop {
                    assert(u[q + 1] == t[p + 1]);
                } else {
                    assert(end == FieldEnd::Lf);
                    assert(t[stop] == '\n');
                }
            }
        }
        assert forall|k: int| 0 <= k < plain_part(t, p + 1, dialect).1 - (p + 1) implies u[q + 1 + k]
            == #[trigger] t[p + 1 + k] by {
            assert(u[q + (k + 1)] == t[p + (k + 1)]);
        }
        lemma_plain_frame(t, p + 1, u, q + 1, dialect);
    }
}

/// The inside of a quoted field reads the same wherever its characters stand,
/// so long as what follows the closing quote is not another quote, and a quote
/// left open runs to the end in both places.
proof fn lemma_quoted_frame(t: Seq<char>, p: int, u: Seq<char>, q: int, quote: char)
    requires
        0 <= p <= t.len(),
        0 <= q,
        q + (quoted_part(t, p, quote).1 - p) <= u.len(),
        forall|k: int|
            0 <= k < quoted_part(t, p, quote).1 - p ==> u[q + k] == #[trigger] t[p + k],
        quoted_part(t, p, quote).1 == t.len() ==> q + (quoted_part(t, p, quote).1 - p) == u.len(),
        quoted_part(t, p, quote).1 < t.len() ==> q + (quoted_part(t, p, quote).1 - p) == u.len()
            || u[q + (quoted_part(t, p, quote).1 - p)] != quote,
    ensures
        quoted_part(u, q, quote) == (
            quoted_part(t, p, quote).0,
            q + (quoted_part(t, p, quote).1 - p),
        ),
    decreases t.len() - p,
{
    lemma_quoted_part_bounds(t, p, quote);
    let (v, e) = quoted_part(t, p, quote);
    if p < t.len() {
        if t[p] == quote {
            if p + 1 < t.len() && t[p + 1] == quote {
                lemma_quoted_part_bounds(t, p + 2, quote);
                assert(u[q + 0] == t[p + 0]);
                assert(u[q + 1] == t[p + 1]);
                assert forall|k: int| 0 <= k < quoted_part(t, p + 2, quote).1 - (p + 2) implies u[q + 2 + k]
                    == #[trigger] t[p + 2 + k] by {
                    assert(u[q + (k + 2)] == t[p + (k + 2)]);
                }
                lemma_quoted_frame(t, p + 2, u, q + 2, quote);
            } else {
                assert(u[q + 0] == t[p + 0]);
            }
        } else {
            lemma_quoted_part_bounds(t, p + 1, quote);
            assert(u[q + 0] == t[p + 0]);
            assert forall|k: int| 0 <= k < quoted_part(t, p + 1, quote).1 - (p + 1) implies u[q + 1 + k]
                == #[trigger] t[p + 1 + k] by {
                assert(u[q + (k + 1)] == t[p + (k + 1)]);
            }
            lemma_quoted_frame(t, p + 1, u, q + 1, quote);
        }
    }
}

/// A field read from a text stands alone followed by the boundary that
/// stopped it.
proof fn lemma_read_field_stands_alone(t0: Seq<char>, s0: int, dialect: Dialect)
    requires
        dialect.wf(),
        0 <= s0 <= t0.len(),
    ensures
        stands_alone(field_at(t0, s0, dialect).0, field_at(t0, s0, dialect).2, dialect),
{
    lemma_field_at_facts(t0, s0, dialect);
    let (f0, stop0, end0) = field_at(t0, s0, dialect);
    let raw = field_text(f0, dialect);
    let q = dialect.quote_char();
    assert(raw == t0.subrange(s0, stop0));
    assert forall|u: Seq<char>, start: int|
        #![trigger field_at(u, start, dialect)]
        0 <= start && start + raw.len() <= u.len() && u.subrange(start, start + raw.len()) == raw
            && boundary_at(u, start + raw.len(), end0, dialect) implies {
        let (read, stop, end) = field_at(u, start, dialect);
        &&& read.value == f0.value
        &&& stop == start + raw.len()
        &&& end == end0
    } by {
        assert forall|k: int| 0 <= k < raw.len() implies u[start + k] == #[trigger] t0[s0 + k] by {
            assert(u.subrange(start, start + raw.len())[k] == raw[k]);
        }
        let quoted = s0 < t0.len() && t0[s0] == q;
        if quoted {
            lemma_quoted_part_bounds(t0, s0 + 1, q);
            let (hv, e0) = quoted_part(t0, s0 + 1, q);
            lemma_plain_part_facts(t0, e0, dialect);
            assert(e0 <= stop0);
            assert(s0 < stop0);
            assert(u[start + 0] == t0[s0 + 0]);
            assert forall|k: int| 0 <= k < e0 - (s0 + 1) implies u[start + 1 + k] == #[trigger] t0[s0 + 1 + k] by {
                assert(u[start + (k + 1)] == t0[s0 + (k + 1)]);
            }
            if e0 < t0.len() && start + 1 + (e0 - (s0 + 1)) < u.len() {
                if e0 < stop0 {
                    assert(u[start + (e0 - s0)] == t0[s0 + (e0 - s0)]);
                    assert(t0[e0] != q) by {
                        lemma_closing_quote(t0, s0 + 1, q);
                    }
                }
            }
            lemma_quoted_frame(t0, s0 + 1, u, start + 1, q);
            assert forall|k: int| 0 <= k < stop0 - e0 implies u[start + (e0 - s0) + k] == #[trigger] t0[e0 + k] by {
                assert(u[start + ((e0 - s0) + k)] == t0[s0 + ((e0 - s0) + k)]);
            }
            lemma_plain_frame(t0, e0, u, start + (e0 - s0), dialect);
        } else {
            if s0 < stop0 {
                assert(u[start + 0] == t0[s0 + 0]);
            } else {
                assert(boundary_at(u, start, end0, dialect));
            }
            lemma_plain_frame(t0, s0, u, start, dialect);
        }
    }
}

/// A quoted part that stops short of the end stops just past a quote that is
/// not followed by another.
proof fn lemma_closing_quote(t: Seq<char>, p: int, quote: char)
    requires
        0 <= p <= t.len(),
    ensures
        quoted_part(t, p, quote).1 < t.len() ==> t[quote_end_index(t, p, quote)] != quote,
    decreases t.len() - p,
{
    if p < t.len() {
        if t[p] == quote {
            if p + 1 < t.len() && t[p + 1] == quote {
                lemma_closing_quote(t, p + 2, quote);
            }
        } else {
            lemma_closing_quote(t, p + 1, quote);
        }
    }
}

/// Where a quoted part stops.
pub open spec fn quote_end_index(t: Seq<char>, p: int, quote: char) -> int {
    quoted_part(t, p, quote).1
}

/// The fields of a record read from a text each stand alone followed by what
/// follows them, and a record read without a terminator ends the text.
proof fn lemma_read_record_stands_alone(t: Seq<char>, start: int, dialect: Dialect)
    requires
        dialect.wf(),
        0 <= start <= t.len(),
    ensures
        ({
            let (fields, terminator, next) = record_at(t, start, dialect);
            let record = RecordM { fields, terminator };
            &&& fields.len() >= 1
            &&& ends_in(terminator, dialect)
            &&& terminator == Terminator::Absent ==> next == t.len()
            &&& forall|j: int|
                0 <= j < fields.len() ==> stands_alone(
                    #[trigger] fields[j],
                    follow_of(record, j),
                    dialect,
                )
        }),
    decreases t.len() - start,
{
    lemma_field_at_facts(t, start, dialect);
    lemma_read_field_stands_alone(t, start, dialect);
    let (field, stop, end) = field_at(t, start, dialect);
    if end == FieldEnd::Delimiter && start <= stop < t.len() {
        lemma_read_record_stands_alone(t, stop + 1, dialect);
        let rest = record_at(t, stop + 1, dialect);
        let fields = seq![field] + rest.0;
        let record = RecordM { fields, terminator: rest.1 };
        let tail = RecordM { fields: rest.0, terminator: rest.1 };
        assert forall|j: int| 0 <= j < fields.len() implies stands_alone(
            #[trigger] fields[j],
            follow_of(record, j),
            dialect,
        ) by {
            if j == 0 {
                assert(fields[0] == field);
            } else {
                assert(fields[j] == rest.0[j - 1]);
                assert(follow_of(record, j) == follow_of(tail, j - 1));
            }
        }
    } else {
        let record = RecordM { fields: seq![field], terminator: terminator_of_end(end) };
        assert(seq![field][0] == field);
    }
}

/// How a record ends when its last field ended this way.
pub open spec fn terminator_of_end(end: FieldEnd) -> Terminator {
    super::parse::terminator_of(end)
}

/// The records read from `p` on can be written and read back.
proof fn lemma_records_from_readable(t: Seq<char>, p: int, dialect: Dialect)
    requires
        dialect.wf(),
        0 <= p <= t.len(),
    ensures
        readable(records_from(t, p, dialect), dialect),
    decreases t.len() - p,
{
    if p < t.len() {
        lemma_record_at_text(t, p, dialect);
        lemma_read_record_stands_alone(t, p, dialect);
        let (fields, terminator, next) = record_at(t, p, dialect);
        let record = RecordM { fields, terminator };
        lemma_records_from_readable(t, next, dialect);
        let rest = records_from(t, next, dialect);
        let all = records_from(t, p, dialect);
        assert(all == seq![record] + rest);
        assert(record_text(record, dialect) == t.subrange(p, next));
        if terminator == Terminator::Absent {
            assert(rest.len() == 0);
        }
        assert forall|i: int| 0 <= i < all.len() implies {
            &&& (#[trigger] all[i]).fields.len() >= 1
            &&& ends_in(all[i].terminator, dialect)
            &&& all[i].terminator == Terminator::Absent ==> i == all.len() - 1 && record_text(
                all[i],
                dialect,
            ).len() > 0
            &&& forall|j: int|
                0 <= j < all[i].fields.len() ==> stands_alone(
                    #[trigger] all[i].fields[j],
                    follow_of(all[i], j),
                    dialect,
                )
        } by {
            if i == 0 {
                assert(all[0] == record);
            } else {
                assert(all[i] == rest[i - 1]);
            }
        }
    }
}

/// Whatever text a document was read from, its records can be written and
/// read back.
pub proof fn lemma_read_text_readable(t: Seq<char>, dialect: Dialect)
    requires
        dialect.wf(),
    ensures
        readable(parse_spec(t, dialect), dialect),
{
    lemma_records_from_readable(t, 0, dialect);
}

/// Setting a cell that a record already reaches keeps records that can be
/// written and read back so,
/// unless it empties the only field of a last record that ends the text
/// without a terminator, which would then write nothing at all.
pub proof fn lemma_set_cell_keeps_readable(
    records: Seq<RecordM>,
    row: int,
    column: int,
    value: Seq<char>,
    dialect: Dialect,
)
    requires
        dialect.wf(),
        readable(records, dialect),
        0 <= row < records.len(),
        0 <= column < records[row].fields.len(),
        records[row].terminator == Terminator::Absent && records[row].fields.len() == 1
            ==> value.len() > 0,
    ensures
        readable(
            records.update(
                row,
                with_fields(records[row], set_cell(records[row].fields, column, value)),
            ),
            dialect,
        ),
{
    let old_record = records[row];
    let field = FieldM { value, verbatim: None };
    let fields = set_cell(old_record.fields, column, value);
    assert(fields == old_record.fields.update(column, field));
    let record = with_fields(old_record, fields);
    let edited = records.update(row, record);
    assert forall|j: int| 0 <= j < fields.len() implies stands_alone(
        #[trigger] fields[j],
        follow_of(record, j),
        dialect,
    ) by {
        assert(follow_of(record, j) == follow_of(old_record, j));
        if j == column {
            lemma_written_stands_alone(value, follow_of(record, j), dialect);
        } else {
            assert(fields[j] == old_record.fields[j]);
            assert(stands_alone(records[row].fields[j], follow_of(records[row], j), dialect));
        }
    }
    if record.terminator == Terminator::Absent {
        assert(terminator_text(record.terminator) =~= Seq::<char>::empty());
        if fields.len() == 1 {
            assert(fields[0] == field);
            assert(fields_text(fields, dialect) == written(value, dialect));
            if !needs_quoting(value, dialect) {
                assert(written(value, dialect).len() == value.len());
            } else {
                assert(written(value, dialect).len() >= 2);
            }
        } else {
            assert(fields_text(fields, dialect) == field_text(fields[0], dialect) + seq![
                dialect.delimiter_char(),
            ] + fields_text(fields.drop_first(), dialect));
        }
    }
    assert forall|i: int| 0 <= i < edited.len() implies {
        &&& (#[trigger] edited[i]).fields.len() >= 1
        &&& ends_in(edited[i].terminator, dialect)
        &&& edited[i].terminator == Terminator::Absent ==> i == edited.len() - 1 && record_text(
            edited[i],
            dialect,
        ).len() > 0
        &&& forall|j: int|
            0 <= j < edited[i].fields.len() ==> stands_alone(
                #[trigger] edited[i].fields[j],
                follow_of(edited[i], j),
                dialect,
            )
    } by {
        if i != row {
            assert(edited[i] == records[i]);
        }
    }
}

/// A value set in place into a document read from a text survives being
/// written and read again: the text the edited records write reads back as
/// the same values, ending the same way. It holds in every dialect, for every
/// cell a record reaches, but for
/// emptying the only field of a last record that ends the text without a
/// terminator.
pub proof fn lemma_edit_survives_reload(
    text: Seq<char>,
    dialect: Dialect,
    row: int,
    column: int,
    value: Seq<char>,
)
    requires
        dialect.wf(),
        0 <= row < parse_spec(text, dialect).len(),
        0 <= column < parse_spec(text, dialect)[row].fields.len(),
        parse_spec(text, dialect)[row].terminator == Terminator::Absent && parse_spec(
            text,
            dialect,
        )[row].fields.len() == 1 ==> value.len() > 0,
    ensures
        ({
            let read = parse_spec(text, dialect);
            let edited = read.update(
                row,
                with_fields(read[row], set_cell(read[row].fields, column, value)),
            );
            contents(parse_spec(records_text(edited, dialect), dialect)) == contents(edited)
        }),
{
    let read = parse_spec(text, dialect);
    lemma_read_text_readable(text, dialect);
    lemma_set_cell_keeps_readable(read, row, column, value, dialect);
    let edited = read.update(row, with_fields(read[row], set_cell(read[row].fields, column, value)));
    lemma_written_reads_back(edited, dialect);
}

} // verus!
