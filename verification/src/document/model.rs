//! What a document is made of, and the text it stands for.
//!
//! A record is one entry in the file and a field is one value within it. A
//! field keeps the characters it occupied in the file only when writing its
//! value back out would produce different ones.

use vstd::prelude::*;

use super::dialect::{Dialect, RECORD_SEPARATOR};

verus! {

/// How a record ended. Kept per record, so a file with mixed line endings
/// comes back out with the same mixture.
#[derive(Debug, Clone, Copy, PartialEq, Eq, Structural)]
pub enum Terminator {
    Lf,
    CrLf,
    /// The ASCII record separator.
    RecordSeparator,
    /// The last record of a file that does not end with a terminator.
    Absent,
}

/// A field as the model sees it: its value, and the characters it occupied
/// in the file when those are not what writing the value would give.
pub struct FieldM {
    pub value: Seq<char>,
    pub verbatim: Option<Seq<char>>,
}

/// A record as the model sees it.
pub struct RecordM {
    pub fields: Seq<FieldM>,
    pub terminator: Terminator,
}

/// A field of a record held in memory.
pub struct Field {
    pub value: String,
    pub verbatim: Option<String>,
}

/// A record held in memory.
pub struct Record {
    pub fields: Vec<Field>,
    pub terminator: Terminator,
}

impl View for Field {
    type V = FieldM;

    open spec fn view(&self) -> FieldM {
        FieldM {
            value: self.value@,
            verbatim: match self.verbatim {
                Some(raw) => Some(raw@),
                None => None,
            },
        }
    }
}

impl View for Record {
    type V = RecordM;

    open spec fn view(&self) -> RecordM {
        RecordM { fields: self.fields@.map_values(|f: Field| f@), terminator: self.terminator }
    }
}

/// The models of a run of records.
pub open spec fn records_view(records: Seq<Record>) -> Seq<RecordM> {
    records.map_values(|r: Record| r@)
}

/// The models of a run of fields.
pub open spec fn fields_view(fields: Seq<Field>) -> Seq<FieldM> {
    fields.map_values(|f: Field| f@)
}

impl Field {
    /// A copy of this field.
    pub(crate) fn copy(&self) -> (r: Self)
        ensures
            r@ == self@,
    {
        let verbatim = match &self.verbatim {
            Some(raw) => Some(raw.clone()),
            None => None,
        };
        Field { value: self.value.clone(), verbatim }
    }
}

impl Record {
    /// A copy of this record.
    pub(crate) fn copy(&self) -> (r: Self)
        ensures
            r@ == self@,
    {
        Record { fields: clone_fields(&self.fields), terminator: self.terminator }
    }
}

/// A copy of a run of fields.
pub(crate) fn clone_fields(fields: &Vec<Field>) -> (r: Vec<Field>)
    ensures
        fields_view(r@) == fields_view(fields@),
{
    let mut out: Vec<Field> = Vec::new();
    let mut i: usize = 0;
    while i < fields.len()
        invariant
            i <= fields@.len(),
            out@.len() == i,
            fields_view(out@) == fields_view(fields@.subrange(0, i as int)),
        decreases fields@.len() - i,
    {
        let ghost before = out@;
        let f = fields[i].copy();
        out.push(f);
        i = i + 1;
        assert forall|j: int| 0 <= j < i implies #[trigger] fields_view(out@)[j] == fields_view(
            fields@.subrange(0, i as int),
        )[j] by {
            if j < i - 1 {
                assert(out@[j] == before[j]);
                assert(fields_view(before)[j] == fields_view(
                    fields@.subrange(0, i - 1 as int),
                )[j]);
            }
        }
        assert(fields_view(out@) =~= fields_view(fields@.subrange(0, i as int)));
    }
    assert(fields@.subrange(0, fields@.len() as int) =~= fields@);
    out
}

/// A field holding nothing.
pub open spec fn blank_field() -> FieldM {
    FieldM { value: Seq::empty(), verbatim: None }
}

impl Field {
    /// A field holding nothing, which is what a new one holds.
    pub(crate) fn blank() -> (r: Self)
        ensures
            r@ == blank_field(),
    {
        Field { value: String::new(), verbatim: None }
    }
}

/// Whether a value has to be quoted to be written: writing it plainly would
/// create a quote, a field boundary or a record boundary that is not there.
pub open spec fn needs_quoting(value: Seq<char>, dialect: Dialect) -> bool {
    exists|i: int|
        0 <= i < value.len() && (value[i] == dialect.quote_char() || dialect.spec_is_boundary(
            #[trigger] value[i],
        ))
}

/// A value with every quote doubled.
pub open spec fn escaped(value: Seq<char>, quote: char) -> Seq<char>
    decreases value.len(),
{
    if value.len() == 0 {
        Seq::empty()
    } else {
        (if value[0] == quote {
            seq![quote, quote]
        } else {
            seq![value[0]]
        }) + escaped(value.drop_first(), quote)
    }
}

/// The canonical characters for a value: the value itself when it needs no
/// quoting, and otherwise the value in quotes with its quotes doubled.
pub open spec fn written(value: Seq<char>, dialect: Dialect) -> Seq<char> {
    if !needs_quoting(value, dialect) {
        value
    } else {
        seq![dialect.quote_char()] + escaped(value, dialect.quote_char()) + seq![
            dialect.quote_char(),
        ]
    }
}

/// What a field writes: its original characters when it kept them, and its
/// canonical characters otherwise.
pub open spec fn field_text(field: FieldM, dialect: Dialect) -> Seq<char> {
    match field.verbatim {
        Some(raw) => raw,
        None => written(field.value, dialect),
    }
}

/// The fields of a record, delimited.
pub open spec fn fields_text(fields: Seq<FieldM>, dialect: Dialect) -> Seq<char>
    decreases fields.len(),
{
    if fields.len() == 0 {
        Seq::empty()
    } else if fields.len() == 1 {
        field_text(fields[0], dialect)
    } else {
        field_text(fields[0], dialect) + seq![dialect.delimiter_char()] + fields_text(
            fields.drop_first(),
            dialect,
        )
    }
}

/// The characters a record ends with.
pub open spec fn terminator_text(terminator: Terminator) -> Seq<char> {
    match terminator {
        Terminator::Lf => seq!['\n'],
        Terminator::CrLf => seq!['\r', '\n'],
        Terminator::RecordSeparator => seq![RECORD_SEPARATOR],
        Terminator::Absent => Seq::empty(),
    }
}

/// A whole record as written.
pub open spec fn record_text(record: RecordM, dialect: Dialect) -> Seq<char> {
    fields_text(record.fields, dialect) + terminator_text(record.terminator)
}

/// A run of records as written, one after another.
pub open spec fn records_text(records: Seq<RecordM>, dialect: Dialect) -> Seq<char>
    decreases records.len(),
{
    if records.len() == 0 {
        Seq::empty()
    } else {
        record_text(records[0], dialect) + records_text(records.drop_first(), dialect)
    }
}

/// Writing one more field onto the end of a record's fields.
pub proof fn lemma_fields_text_push(fields: Seq<FieldM>, field: FieldM, dialect: Dialect)
    ensures
        fields_text(fields.push(field), dialect) == if fields.len() == 0 {
            field_text(field, dialect)
        } else {
            fields_text(fields, dialect) + seq![dialect.delimiter_char()] + field_text(
                field,
                dialect,
            )
        },
    decreases fields.len(),
{
    if fields.len() == 0 {
        assert(fields.push(field)[0] == field);
    } else if fields.len() == 1 {
        assert(fields.push(field).drop_first() =~= seq![field]);
        assert(fields.push(field)[0] == fields[0]);
        assert(fields_text(seq![field], dialect) == field_text(field, dialect));
    } else {
        assert(fields.push(field)[0] == fields[0]);
        assert(fields.push(field).drop_first() =~= fields.drop_first().push(field));
        lemma_fields_text_push(fields.drop_first(), field, dialect);
        assert(fields_text(fields.push(field), dialect) =~= fields_text(fields, dialect) + seq![
            dialect.delimiter_char(),
        ] + field_text(field, dialect));
    }
}

/// Writing one more record onto the end of a run of records.
pub proof fn lemma_records_text_push(records: Seq<RecordM>, record: RecordM, dialect: Dialect)
    ensures
        records_text(records.push(record), dialect) == records_text(records, dialect)
            + record_text(record, dialect),
    decreases records.len(),
{
    if records.len() == 0 {
        assert(records.push(record).drop_first() =~= Seq::<RecordM>::empty());
        assert(records.push(record)[0] == record);
        assert(records_text(records.push(record).drop_first(), dialect) =~= Seq::<char>::empty());
        assert(records_text(records.push(record), dialect) =~= record_text(record, dialect));
    } else {
        assert(records.push(record).drop_first() =~= records.drop_first().push(record));
        assert(records.push(record)[0] == records[0]);
        lemma_records_text_push(records.drop_first(), record, dialect);
        assert(records_text(records.push(record), dialect) =~= records_text(records, dialect)
            + record_text(record, dialect));
    }
}

/// Writing two runs of records one after the other.
pub proof fn lemma_records_text_append(a: Seq<RecordM>, b: Seq<RecordM>, dialect: Dialect)
    ensures
        records_text(a + b, dialect) == records_text(a, dialect) + records_text(b, dialect),
    decreases a.len(),
{
    if a.len() == 0 {
        assert(a + b =~= b);
        assert(records_text(a, dialect) + records_text(b, dialect) =~= records_text(b, dialect));
    } else {
        assert((a + b).drop_first() =~= a.drop_first() + b);
        lemma_records_text_append(a.drop_first(), b, dialect);
        assert(records_text(a + b, dialect) =~= records_text(a, dialect) + records_text(
            b,
            dialect,
        ));
    }
}

} // verus!
