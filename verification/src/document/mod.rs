//! The document model.
//!
//! The file on disk is the document. Reading it produces a grid of text and
//! nothing else: no type inference, no reformatting, no normalising. Writing
//! it reproduces every field the user did not edit character for character.
//!
//! As each field is read it is measured against what writing its value back
//! out would produce. When the two disagree the field keeps its original
//! characters and writes those instead; editing a cell drops them, because
//! they no longer describe it.

pub mod dialect;
pub mod model;
pub mod serialize;
pub mod parse;
pub mod history;
pub mod sniff;
pub mod reading;

pub use dialect::{Dialect, DialectError, RecordStyle};
pub use history::Extent;
pub use model::{FieldM, RecordM, Terminator};
pub use sniff::{sniff, sniff_header};

use vstd::prelude::*;
use vstd::slice::slice_subrange;
use vstd::utf8::{decode_utf8, encode_scalar, encode_utf8, valid_utf8};

use crate::text::{bytes_of, chars_of, string_of, utf8, valid_up_to};
use history::{
    apply_spec, extent_of, invertible, lemma_column_invertible, lemma_edits_invertible,
    lemma_order_invertible, lemma_rows_invertible, with_fields, Change, ChangeM, Edit, EditM,
    History,
};
use model::{
    blank_field, clone_fields, field_text, fields_text, fields_view, record_text, records_text,
    records_view, terminator_text, Field, Record,
};
use parse::{lemma_parse_writes_back, parse, parse_spec};
use serialize::write_field;

verus! {

/// The byte order mark some files start with.
pub open spec fn byte_order_mark() -> Seq<u8> {
    seq![0xEFu8, 0xBBu8, 0xBFu8]
}

/// The character the byte order mark encodes.
pub const BYTE_ORDER_MARK_CHAR: char = '\u{FEFF}';

/// Whether bytes start with the byte order mark.
pub open spec fn starts_with_mark(bytes: Seq<u8>) -> bool {
    bytes.len() >= 3 && bytes.subrange(0, 3) == byte_order_mark()
}

/// The bytes after the byte order mark, when there is one.
pub open spec fn after_mark(bytes: Seq<u8>) -> Seq<u8> {
    if starts_with_mark(bytes) {
        bytes.subrange(3, bytes.len() as int)
    } else {
        bytes
    }
}

/// A delimited file held in memory.
///
/// A *record* is one entry in the file and a *field* is one value within
/// it; a *row* and a *column* are what the same things are called on screen.
pub struct Document {
    dialect: Dialect,
    byte_order_mark: bool,
    records: Vec<Record>,
    history: History,
}

/// Why a file could not be read.
#[derive(Debug, Clone, PartialEq, Eq, Structural)]
pub enum LoadError {
    /// The file is not valid UTF-8; `valid_up_to` is how far it is.
    NotUtf8 { valid_up_to: usize },
}

/// The start of what a refused file is told.
pub const NOT_UTF8: &'static str = "This file is not valid UTF-8 text. The first byte Comma could not read is at offset ";

impl LoadError {
    /// What the refusal says, to be shown to a person: that the file is not
    /// UTF-8, and at which byte.
    pub fn message(&self) -> (r: String)
        ensures
            match self {
                LoadError::NotUtf8 { valid_up_to } => r@ == NOT_UTF8@ + crate::text::decimal_digits(
                    *valid_up_to as nat,
                ) + seq!['.'],
            },
    {
        match self {
            LoadError::NotUtf8 { valid_up_to } => {
                let mut out = chars_of(NOT_UTF8);
                let number = chars_of(crate::text::decimal(*valid_up_to).as_str());
                append(&mut out, number.as_slice());
                out.push('.');
                string_of(out.as_slice())
            },
        }
    }
}

/// A record of `width` empty fields that ends with `terminator`.
pub open spec fn blank_record(width: int, terminator: Terminator) -> RecordM {
    RecordM { fields: Seq::new(width as nat, |i: int| blank_field()), terminator }
}

/// A field with every match of `find` replaced; untouched when nothing
/// matched, so it keeps whatever spelling the file gave it.
pub open spec fn replaced_field(field: FieldM, find: Seq<char>, with: Seq<char>) -> FieldM {
    match crate::search::replace_spec(field.value, find, with) {
        Some(value) => FieldM { value, verbatim: None },
        None => field,
    }
}

/// A record's fields with every match replaced.
pub open spec fn replaced_fields(fields: Seq<FieldM>, find: Seq<char>, with: Seq<char>) -> Seq<FieldM> {
    fields.map_values(|f: FieldM| replaced_field(f, find, with))
}

/// How many of the fields something matched in.
pub open spec fn touched(fields: Seq<FieldM>, find: Seq<char>, with: Seq<char>) -> int
    decreases fields.len(),
{
    if fields.len() == 0 {
        0
    } else {
        touched(fields.drop_last(), find, with) + if crate::search::replace_spec(
            fields.last().value,
            find,
            with,
        ) is Some {
            1int
        } else {
            0int
        }
    }
}

/// How many cells of the listed rows something matched in, counting a row
/// as often as it is listed.
pub open spec fn touched_in(records: Seq<RecordM>, rows: Seq<usize>, find: Seq<char>, with: Seq<char>) -> int
    decreases rows.len(),
{
    if rows.len() == 0 {
        0
    } else {
        touched_in(records, rows.drop_last(), find, with) + touched(
            records[rows.last() as int].fields,
            find,
            with,
        )
    }
}

/// The listed rows something matches in, in the order they are listed, each
/// once for every time it is listed.
pub open spec fn rows_touched(records: Seq<RecordM>, rows: Seq<usize>, find: Seq<char>, with: Seq<char>) -> Seq<usize>
    decreases rows.len(),
{
    if rows.len() == 0 {
        Seq::empty()
    } else {
        let rest = rows_touched(records, rows.drop_last(), find, with);
        if touched(records[rows.last() as int].fields, find, with) > 0 {
            rest.push(rows.last())
        } else {
            rest
        }
    }
}

/// What a replacement reports, made or taken back: the one record it changed,
/// or, where it changed more than one, the whole shape.
pub open spec fn replace_report(records: Seq<RecordM>, rows: Seq<usize>, find: Seq<char>, with: Seq<char>) -> Extent {
    let t = rows_touched(records, rows, find, with);
    if t.len() == 1 {
        Extent::Record(t[0])
    } else {
        Extent::Shape
    }
}

/// The records with every match replaced in the listed rows.
pub open spec fn rows_replaced(records: Seq<RecordM>, rows: Seq<usize>, find: Seq<char>, with: Seq<char>) -> Seq<RecordM> {
    Seq::new(
        records.len(),
        |i: int|
            if rows.contains(i as usize) {
                with_fields(records[i], replaced_fields(records[i].fields, find, with))
            } else {
                records[i]
            },
    )
}

/// The widest record.
pub open spec fn widest(records: Seq<RecordM>) -> int
    decreases records.len(),
{
    if records.len() == 0 {
        0
    } else {
        let rest = widest(records.drop_last());
        let last = records.last().fields.len() as int;
        if last > rest {
            last
        } else {
            rest
        }
    }
}

/// The first terminator in the records that is not an absent one.
pub open spec fn first_terminator(records: Seq<RecordM>) -> Option<Terminator>
    decreases records.len(),
{
    if records.len() == 0 {
        None
    } else if records[0].terminator != Terminator::Absent {
        Some(records[0].terminator)
    } else {
        first_terminator(records.drop_first())
    }
}

/// A record's fields with one cell set, widened with empty fields to reach
/// it. The new value has no original spelling to keep.
pub open spec fn set_cell(fields: Seq<FieldM>, column: int, value: Seq<char>) -> Seq<FieldM> {
    let widened = if fields.len() <= column {
        fields + Seq::new((column + 1 - fields.len()) as nat, |i: int| blank_field())
    } else {
        fields
    };
    widened.update(column, FieldM { value, verbatim: None })
}

impl Document {
    /// The records, as the model sees them.
    pub closed spec fn rows(&self) -> Seq<RecordM> {
        records_view(self.records@)
    }

    /// The dialect the document is read and written with.
    pub closed spec fn reading(&self) -> Dialect {
        self.dialect
    }

    /// Whether the file started with a byte order mark.
    pub closed spec fn marked(&self) -> bool {
        self.byte_order_mark
    }

    /// The records at every point of the history, oldest first.
    pub closed spec fn timeline(&self) -> Seq<Seq<RecordM>> {
        self.history.timeline()
    }

    /// How many changes of the timeline are in force.
    pub closed spec fn step(&self) -> int {
        self.history.at()
    }

    /// Where in the timeline the file on disk was written, if anywhere.
    pub closed spec fn saved_at(&self) -> Option<int> {
        self.history.saved_at()
    }

    /// What each change of the timeline reports, in order: what it moved when
    /// it was made or put back, and what it moves when it is taken back.
    pub closed spec fn reports(&self) -> Seq<(Extent, Extent)> {
        self.history.reports()
    }

    /// The document agrees with its history.
    pub closed spec fn wf(&self) -> bool {
        self.history.wf(records_view(self.records@))
    }

    /// The text the document stands for.
    pub open spec fn text(&self) -> Seq<char> {
        (if self.marked() {
            seq![BYTE_ORDER_MARK_CHAR]
        } else {
            Seq::empty()
        }) + records_text(self.rows(), self.reading())
    }

    /// The value of one cell: empty for a column the record does not reach.
    pub open spec fn cell(&self, row: int, column: int) -> Seq<char> {
        let fields = self.rows()[row].fields;
        if 0 <= column < fields.len() {
            fields[column].value
        } else {
            Seq::empty()
        }
    }

    /// What every well-formed document knows about its history.
    pub proof fn lemma_wf(&self)
        requires
            self.wf(),
        ensures
            0 <= self.step() < self.timeline().len(),
            self.timeline()[self.step()] == self.rows(),
            self.saved_at() matches Some(k) ==> 0 <= k < self.timeline().len(),
            self.reports().len() + 1 == self.timeline().len(),
    {
        self.history.lemma_wf(records_view(self.records@));
    }

    /// Reads a file. A file that starts with a byte order mark keeps it, and
    /// a file that is not UTF-8 is refused with how far it was.
    pub fn from_bytes(bytes: &[u8], dialect: Dialect) -> (r: Result<Self, LoadError>)
        ensures
            valid_utf8(after_mark(bytes@)) <==> r is Ok,
            r matches Ok(doc) ==> {
                &&& doc.wf()
                &&& doc.reading() == dialect
                &&& doc.marked() == starts_with_mark(bytes@)
                &&& doc.rows() == parse_spec(decode_utf8(after_mark(bytes@)), dialect)
                &&& doc.timeline() == seq![doc.rows()]
                &&& doc.step() == 0
                &&& doc.saved_at() == Some(0int)
                &&& doc.reports() == Seq::<(Extent, Extent)>::empty()
                &&& encode_utf8(doc.text()) == bytes@
            },
            r matches Err(LoadError::NotUtf8 { valid_up_to: n }) ==> valid_up_to(
                after_mark(bytes@),
                n as int,
            ),
    {
        let marked = bytes.len() >= 3 && bytes[0] == 0xEF && bytes[1] == 0xBB && bytes[2] == 0xBF;
        proof {
            if bytes@.len() >= 3 {
                assert(marked == (bytes@.subrange(0, 3) =~= byte_order_mark()));
            }
        }
        let rest = if marked {
            slice_subrange(bytes, 3, bytes.len())
        } else {
            bytes
        };
        match utf8(rest) {
            Err(n) => Err(LoadError::NotUtf8 { valid_up_to: n }),
            Ok(text) => {
                let chars = chars_of(text);
                let records = parse(&chars, dialect);
                let history = History::new(Ghost(records_view(records@)));
                let doc = Document { dialect, byte_order_mark: marked, records, history };
                proof {
                    lemma_parse_writes_back(chars@, dialect);
                    vstd::utf8::decode_utf8_encode_utf8(rest@);
                    if marked {
                        lemma_mark_encoding(chars@);
                        assert(bytes@ =~= byte_order_mark() + rest@);
                    }
                    assert(doc.text() =~= (if marked {
                        seq![BYTE_ORDER_MARK_CHAR]
                    } else {
                        Seq::empty()
                    }) + chars@);
                }
                Ok(doc)
            },
        }
    }

    /// Writes the document out: every field that was not edited exactly as
    /// the file had it, and the rest in their canonical form.
    pub fn to_bytes(&self) -> (r: Vec<u8>)
        ensures
            r@ == encode_utf8(self.text()),
    {
        let mut out: Vec<char> = Vec::new();
        if self.byte_order_mark {
            out.push(BYTE_ORDER_MARK_CHAR);
        }
        let ghost start = out@;
        let ghost rows = records_view(self.records@);
        let mut k: usize = 0;
        while k < self.records.len()
            invariant
                k <= self.records@.len(),
                rows == records_view(self.records@),
                out@ == start + records_text(rows.subrange(0, k as int), self.dialect),
            decreases self.records@.len() - k,
        {
            let record = &self.records[k];
            let ghost before_record = out@;
            let mut j: usize = 0;
            while j < record.fields.len()
                invariant
                    j <= record.fields@.len(),
                    out@ == before_record + fields_text(
                        fields_view(record.fields@).subrange(0, j as int),
                        self.dialect,
                    ),
                decreases record.fields@.len() - j,
            {
                let field = &record.fields[j];
                let ghost before_field = out@;
                proof {
                    let fs = fields_view(record.fields@);
                    assert(fs.subrange(0, j + 1 as int) =~= fs.subrange(0, j as int).push(
                        field@,
                    ));
                    model::lemma_fields_text_push(fs.subrange(0, j as int), field@, self.dialect);
                }
                if j > 0 {
                    out.push(self.dialect.delimiter());
                }
                let ghost after_delimiter = out@;
                match &field.verbatim {
                    Some(raw) => {
                        let raw_chars = chars_of(raw.as_str());
                        append(&mut out, raw_chars.as_slice());
                    },
                    None => {
                        let value = chars_of(field.value.as_str());
                        write_field(&mut out, value.as_slice(), self.dialect);
                    },
                }
                assert(out@ == after_delimiter + field_text(field@, self.dialect));
                j = j + 1;
                assert(out@ =~= before_record + fields_text(
                    fields_view(record.fields@).subrange(0, j as int),
                    self.dialect,
                ));
            }
            let ghost after_fields = out@;
            match record.terminator {
                Terminator::Lf => out.push('\n'),
                Terminator::CrLf => {
                    out.push('\r');
                    out.push('\n');
                },
                Terminator::RecordSeparator => out.push(dialect::RECORD_SEPARATOR),
                Terminator::Absent => {},
            }
            proof {
                let fs = fields_view(record.fields@);
                assert(fs.subrange(0, fs.len() as int) =~= fs);
                assert(out@ =~= after_fields + terminator_text(record.terminator));
                assert(out@ =~= before_record + record_text(record@, self.dialect));
                assert(rows.subrange(0, k + 1 as int) =~= rows.subrange(0, k as int).push(
                    rows[k as int],
                ));
                model::lemma_records_text_push(
                    rows.subrange(0, k as int),
                    rows[k as int],
                    self.dialect,
                );
            }
            k = k + 1;
        }
        assert(rows.subrange(0, rows.len() as int) =~= rows);
        assert(out@ =~= self.text());
        let text = string_of(out.as_slice());
        bytes_of(text)
    }

    /// The dialect the document is read and written with.
    pub fn dialect(&self) -> (r: Dialect)
        ensures
            r == self.reading(),
    {
        self.dialect
    }

    /// How many records the file holds.
    pub fn row_count(&self) -> (r: usize)
        ensures
            r == self.rows().len(),
    {
        self.records.len()
    }

    /// The widest record in the file: how many columns the grid needs, not
    /// a claim that every row has that many.
    pub fn column_count(&self) -> (r: usize)
        ensures
            r == widest(self.rows()),
    {
        let ghost rows = records_view(self.records@);
        let mut widest_so_far: usize = 0;
        let mut k: usize = 0;
        while k < self.records.len()
            invariant
                k <= self.records@.len(),
                rows == records_view(self.records@),
                widest_so_far == widest(rows.subrange(0, k as int)),
            decreases self.records@.len() - k,
        {
            let width = self.records[k].fields.len();
            proof {
                let next = rows.subrange(0, k + 1 as int);
                assert(next.drop_last() =~= rows.subrange(0, k as int));
                assert(next.last() == rows[k as int]);
            }
            if width > widest_so_far {
                widest_so_far = width;
            }
            k = k + 1;
        }
        assert(rows.subrange(0, rows.len() as int) =~= rows);
        widest_so_far
    }

    /// How many fields this record actually has.
    pub fn field_count(&self, row: usize) -> (r: usize)
        requires
            row < self.rows().len(),
        ensures
            r == self.rows()[row as int].fields.len(),
    {
        self.records[row].fields.len()
    }

    /// The value of one cell, or the empty string for a column this record
    /// does not reach.
    pub fn value(&self, row: usize, column: usize) -> (r: &str)
        requires
            row < self.rows().len(),
        ensures
            r@ == self.cell(row as int, column as int),
    {
        let fields = &self.records[row].fields;
        if column < fields.len() {
            fields[column].value.as_str()
        } else {
            proof {
                reveal_strlit("");
            }
            ""
        }
    }

    /// Puts the last change back the way it was, and says how much of the
    /// file moved. `None` when there is nothing to undo.
    pub fn undo(&mut self) -> (r: Option<Extent>)
        requires
            old(self).wf(),
        ensures
            final(self).wf(),
            final(self).timeline() == old(self).timeline(),
            final(self).saved_at() == old(self).saved_at(),
            final(self).reading() == old(self).reading(),
            final(self).marked() == old(self).marked(),
            old(self).step() == 0 ==> r is None && final(self).step() == 0 && final(self).rows()
                == old(self).rows(),
            old(self).step() > 0 ==> r is Some && final(self).step() == old(self).step() - 1
                && final(self).rows() == old(self).timeline()[old(self).step() - 1],
            old(self).step() > 0 ==> final(self).undid(old(self)),
            old(self).step() > 0 ==> r == Some(old(self).reports()[old(self).step() - 1].1),
            final(self).reports() == old(self).reports(),
    {
        self.history.undo(&mut self.records)
    }

    /// Puts back the change undone last. `None` when there is nothing to redo.
    pub fn redo(&mut self) -> (r: Option<Extent>)
        requires
            old(self).wf(),
        ensures
            final(self).wf(),
            final(self).timeline() == old(self).timeline(),
            final(self).saved_at() == old(self).saved_at(),
            final(self).reading() == old(self).reading(),
            final(self).marked() == old(self).marked(),
            old(self).step() + 1 >= old(self).timeline().len() ==> r is None && final(self).step()
                == old(self).step() && final(self).rows() == old(self).rows(),
            old(self).step() + 1 < old(self).timeline().len() ==> r is Some && final(self).step()
                == old(self).step() + 1 && final(self).rows() == old(self).timeline()[old(
                self,
            ).step() + 1],
            old(self).step() + 1 < old(self).timeline().len() ==> final(self).redid(old(self)),
            old(self).step() + 1 < old(self).timeline().len() ==> r == Some(
                old(self).reports()[old(self).step()].0,
            ),
            final(self).reports() == old(self).reports(),
    {
        self.history.redo(&mut self.records)
    }

    pub fn can_undo(&self) -> (r: bool)
        ensures
            r == (self.step() > 0),
    {
        self.history.can_undo()
    }

    pub fn can_redo(&self) -> (r: bool)
        requires
            self.wf(),
        ensures
            r == (self.step() + 1 < self.timeline().len()),
    {
        self.history.can_redo()
    }

    /// Whether the file on disk still matches this document: what makes a
    /// document modified is differing from the file, not having been touched.
    pub fn is_modified(&self) -> (r: bool)
        ensures
            r == (self.saved_at() != Some(self.step())),
    {
        self.history.is_modified()
    }

    /// Says that the file on disk now holds this document.
    pub fn mark_saved(&mut self)
        requires
            old(self).wf(),
        ensures
            final(self).wf(),
            final(self).saved_at() == Some(old(self).step()),
            final(self).step() == old(self).step(),
            final(self).timeline() == old(self).timeline(),
            final(self).reports() == old(self).reports(),
            final(self).rows() == old(self).rows(),
            final(self).reading() == old(self).reading(),
            final(self).marked() == old(self).marked(),
    {
        self.history.mark_saved();
    }

    /// Says that this document no longer matches the file it came from, for
    /// changes that are not edits and so cannot be undone.
    pub fn mark_modified(&mut self)
        requires
            old(self).wf(),
        ensures
            final(self).wf(),
            final(self).saved_at() == None::<int>,
            final(self).step() == old(self).step(),
            final(self).timeline() == old(self).timeline(),
            final(self).reports() == old(self).reports(),
            final(self).rows() == old(self).rows(),
            final(self).reading() == old(self).reading(),
            final(self).marked() == old(self).marked(),
    {
        self.history.mark_unsaved();
    }
}

/// How a file ends its records, taken from the records it has: the first
/// terminator that is there, or what the dialect implies for a file with none.
pub open spec fn terminator_style(records: Seq<RecordM>, dialect: Dialect) -> Terminator {
    match first_terminator(records) {
        Some(t) => t,
        None => if dialect.style() == RecordStyle::RecordSeparator {
            Terminator::RecordSeparator
        } else {
            Terminator::Lf
        },
    }
}

/// Whether the last record ends without a terminator.
pub open spec fn ends_open(records: Seq<RecordM>) -> bool {
    records.len() > 0 && records.last().terminator == Terminator::Absent
}

/// A record with the same fields and another ending.
pub open spec fn with_terminator(record: RecordM, terminator: Terminator) -> RecordM {
    RecordM { fields: record.fields, terminator }
}

/// The records with an empty one put in at `at`. Appending to a file that
/// ends without a terminator moves that over: the record that was last gains
/// the file's terminator and the new one ends the file.
pub open spec fn rows_with_inserted(records: Seq<RecordM>, at: int, dialect: Dialect) -> Seq<RecordM> {
    let width = if widest(records) > 1 {
        widest(records)
    } else {
        1
    };
    let style = terminator_style(records, dialect);
    if at == records.len() && ends_open(records) {
        records.subrange(0, at - 1) + seq![
            with_terminator(records[at - 1], style),
            blank_record(width, Terminator::Absent),
        ]
    } else {
        records.insert(
            at,
            blank_record(
                width,
                if at < records.len() && records[at].terminator != Terminator::Absent {
                    records[at].terminator
                } else {
                    style
                },
            ),
        )
    }
}

/// The records with the one at `at` taken out. When the last record of a
/// file that ends without a terminator goes, the one that becomes last takes
/// that over.
pub open spec fn rows_with_deleted(records: Seq<RecordM>, at: int) -> Seq<RecordM> {
    if at + 1 == records.len() && ends_open(records) && at > 0 {
        records.subrange(0, at - 1) + seq![with_terminator(records[at - 1], Terminator::Absent)]
    } else {
        records.remove(at)
    }
}

/// The records with an empty field at `at` in every record that has a field
/// there or ends exactly at it. Shorter records are left alone.
pub open spec fn rows_with_column(records: Seq<RecordM>, at: int) -> Seq<RecordM> {
    Seq::new(
        records.len(),
        |i: int|
            if records[i].fields.len() >= at {
                with_fields(records[i], records[i].fields.insert(at, blank_field()))
            } else {
                records[i]
            },
    )
}

/// The records with the field at `at` taken out of every record that has one.
pub open spec fn rows_without_column(records: Seq<RecordM>, at: int) -> Seq<RecordM> {
    Seq::new(
        records.len(),
        |i: int|
            if records[i].fields.len() > at {
                with_fields(records[i], records[i].fields.remove(at))
            } else {
                records[i]
            },
    )
}

impl Document {
    /// `self` is `before` with its last change undone.
    pub open spec fn undid(&self, before: &Document) -> bool {
        &&& self.wf()
        &&& before.step() > 0
        &&& self.timeline() == before.timeline()
        &&& self.saved_at() == before.saved_at()
        &&& self.reading() == before.reading()
        &&& self.marked() == before.marked()
        &&& self.step() == before.step() - 1
        &&& self.rows() == before.timeline()[before.step() - 1]
    }

    /// `self` is `before` with the change undone last put back.
    pub open spec fn redid(&self, before: &Document) -> bool {
        &&& self.wf()
        &&& before.step() + 1 < before.timeline().len()
        &&& self.timeline() == before.timeline()
        &&& self.saved_at() == before.saved_at()
        &&& self.reading() == before.reading()
        &&& self.marked() == before.marked()
        &&& self.step() == before.step() + 1
        &&& self.rows() == before.timeline()[before.step() + 1]
    }

    /// Whether the document differs from the file on disk, as far as it
    /// knows.
    pub open spec fn modified(&self) -> bool {
        self.saved_at() != Some(self.step())
    }
}

impl Document {
    /// `self` is `before` with one more change recorded: everything that had
    /// been undone is gone, and a saved state that was among it cannot be
    /// reached again.
    pub open spec fn recorded(&self, before: &Document) -> bool {
        &&& self.wf()
        &&& self.timeline() == before.timeline().subrange(0, before.step() + 1).push(self.rows())
        &&& self.step() == before.step() + 1
        &&& self.reports().len() == self.step()
        &&& self.reports().subrange(0, before.step()) == before.reports().subrange(0, before.step())
        &&& self.saved_at() == match before.saved_at() {
            Some(k) => if k > before.step() {
                None
            } else {
                Some(k)
            },
            None => None,
        }
        &&& self.reading() == before.reading()
        &&& self.marked() == before.marked()
    }

    fn commit(&mut self, change: Change) -> (r: Extent)
        requires
            old(self).wf(),
            invertible(change@, old(self).rows()),
        ensures
            final(self).recorded(old(self)),
            final(self).rows() == apply_spec(change@, old(self).rows(), true),
            r == extent_of(&change, true),
            final(self).reports()[old(self).step()] == (extent_of(&change, true), extent_of(&change, false)),
    {
        proof {
            self.lemma_wf();
        }
        let r = self.history.commit(change, &mut self.records);
        proof {
            assert(self.reports().subrange(0, old(self).step()) =~= old(self).reports().subrange(0, old(self).step()));
        }
        r
    }

    /// Sets one cell, widening the record with empty fields if the column is
    /// past its end. Setting a cell to what it already holds does nothing at
    /// all: no change to the file, and nothing to undo.
    pub fn set_value(&mut self, row: usize, column: usize, value: &str)
        requires
            old(self).wf(),
            row < old(self).rows().len(),
        ensures
            old(self).cell(row as int, column as int) == value@ ==> *final(self) == *old(self),
            old(self).cell(row as int, column as int) != value@ ==> {
                &&& final(self).recorded(old(self))
                &&& final(self).rows() == old(self).rows().update(
                    row as int,
                    with_fields(
                        old(self).rows()[row as int],
                        set_cell(old(self).rows()[row as int].fields, column as int, value@),
                    ),
                )
                &&& final(self).reports()[old(self).step()] == (Extent::Record(row), Extent::Record(row))
            },
    {
        let current = chars_of(self.value(row, column));
        let wanted = chars_of(value);
        if serialize::same_chars(current.as_slice(), wanted.as_slice()) {
            return ;
        }
        let edit = self.edit(row, column, value);
        let ghost s = self.rows();
        let ghost em = edit@;
        let edits = vec![edit];
        let ghost ems = edits@.map_values(|e: Edit| e@);
        proof {
            assert(ems[0] == em);
            lemma_edits_invertible(s, ems);
            assert(ems.drop_last() =~= Seq::<EditM>::empty());
            assert(ems.last() == em);
            assert(history::apply_edits(s, ems.drop_last(), true) == s);
            assert(history::apply_edits(s, ems, true) == s.update(
                row as int,
                with_fields(s[row as int], em.after),
            ));
        }
        self.commit(Change::Fields { edits });
    }

    /// One record's fields as they are, and as they would be with one cell
    /// set to `value`. Nothing is changed here.
    fn edit(&self, row: usize, column: usize, value: &str) -> (r: Edit)
        requires
            row < self.rows().len(),
        ensures
            r.row == row,
            r@.before == self.rows()[row as int].fields,
            r@.after == set_cell(self.rows()[row as int].fields, column as int, value@),
    {
        let before = clone_fields(&self.records[row].fields);
        let mut after = clone_fields(&self.records[row].fields);
        let ghost original = fields_view(before@);
        while after.len() <= column
            invariant
                original.len() <= fields_view(after@).len(),
                after@.len() <= original.len() || after@.len() <= column + 1,
                fields_view(after@).subrange(0, original.len() as int) == original,
                forall|i: int|
                    original.len() <= i < after@.len() ==> #[trigger] fields_view(after@)[i]
                        == blank_field(),
            decreases column + 1 - after@.len(),
        {
            let ghost previous = after@;
            after.push(Field::blank());
            assert(fields_view(after@) =~= fields_view(previous).push(blank_field()));
            assert(fields_view(after@).subrange(0, original.len() as int) =~= fields_view(
                previous,
            ).subrange(0, original.len() as int));
        }
        let replacement = Field { value: value.to_owned(), verbatim: None };
        let ghost widened = after@;
        after.set(column, replacement);
        proof {
            let target = set_cell(original, column as int, value@);
            let w = if original.len() <= column {
                original + Seq::new((column + 1 - original.len()) as nat, |i: int| blank_field())
            } else {
                original
            };
            assert(fields_view(widened).len() == w.len()) by {
                if original.len() <= column {
                    assert(fields_view(widened).len() == column + 1);
                }
            }
            assert forall|i: int| 0 <= i < w.len() implies fields_view(widened)[i] == w[i] by {
                if i < original.len() {
                    assert(fields_view(widened).subrange(0, original.len() as int)[i]
                        == fields_view(widened)[i]);
                }
            }
            assert(fields_view(widened) =~= w);
            assert(fields_view(after@) =~= target);
        }
        Edit { row, before, after }
    }

    /// Puts an empty record at `at`, which may be the end of the file.
    pub fn insert_row(&mut self, at: usize) -> (r: Extent)
        requires
            old(self).wf(),
            at <= old(self).rows().len(),
        ensures
            final(self).recorded(old(self)),
            final(self).rows() == rows_with_inserted(old(self).rows(), at as int, old(self).reading()),
            r == (if at == old(self).rows().len() && ends_open(old(self).rows()) {
                Extent::Rows { at: (at - 1) as usize, gone: 1, come: 2 }
            } else {
                Extent::Rows { at, gone: 0, come: 1 }
            }),
            final(self).reports()[old(self).step()] == (r, match r {
                Extent::Rows { at, gone, come } => Extent::Rows { at, gone: come, come: gone },
                other => other,
            }),
    {
        let ghost s = self.rows();
        let count = self.column_count();
        let width = if count > 1 {
            count
        } else {
            1
        };
        let style = self.terminator_style();
        let displaces = at == self.records.len() && self.ends_without_terminator();
        if displaces {
            let last = self.records[at - 1].copy();
            let terminated = Record { fields: clone_fields(&last.fields), terminator: style };
            let blank = blank_record_exec(width, Terminator::Absent);
            let ghost last_m = last@;
            let ghost terminated_m = terminated@;
            let ghost blank_m = blank@;
            let before = vec![last];
            let after = vec![terminated, blank];
            proof {
                assert(records_view(before@) =~= seq![last_m]);
                assert(records_view(after@) =~= seq![terminated_m, blank_m]);
                assert(s.subrange(at - 1, at - 1 + 1) =~= seq![last_m]);
                lemma_rows_invertible(s, at - 1, records_view(before@), records_view(after@));
                assert(history::apply_rows(s, at - 1, records_view(before@), records_view(after@))
                    =~= rows_with_inserted(s, at as int, self.dialect));
            }
            self.commit(Change::Rows { at: at - 1, before, after })
        } else {
            let terminator = self.terminator_at(at);
            let blank = blank_record_exec(width, terminator);
            let ghost blank_m = blank@;
            let before: Vec<Record> = Vec::new();
            let after = vec![blank];
            proof {
                assert(records_view(before@) =~= Seq::<RecordM>::empty());
                assert(records_view(after@) =~= seq![blank_m]);
                assert(s.subrange(at as int, at as int) =~= Seq::<RecordM>::empty());
                lemma_rows_invertible(s, at as int, records_view(before@), records_view(after@));
                assert(history::apply_rows(s, at as int, records_view(before@), records_view(after@))
                    =~= rows_with_inserted(s, at as int, self.dialect));
            }
            self.commit(Change::Rows { at, before, after })
        }
    }

    /// Takes one record out of the file.
    pub fn delete_row(&mut self, at: usize) -> (r: Extent)
        requires
            old(self).wf(),
            at < old(self).rows().len(),
        ensures
            final(self).recorded(old(self)),
            final(self).rows() == rows_with_deleted(old(self).rows(), at as int),
            r == (if at + 1 == old(self).rows().len() && ends_open(old(self).rows()) && at > 0 {
                Extent::Rows { at: (at - 1) as usize, gone: 2, come: 1 }
            } else {
                Extent::Rows { at, gone: 1, come: 0 }
            }),
            final(self).reports()[old(self).step()] == (r, match r {
                Extent::Rows { at, gone, come } => Extent::Rows { at, gone: come, come: gone },
                other => other,
            }),
    {
        let ghost s = self.rows();
        let count = self.records.len();
        let displaces = at + 1 == count && self.ends_without_terminator() && at > 0;
        if displaces {
            let previous = self.records[at - 1].copy();
            let unterminated = Record {
                fields: clone_fields(&previous.fields),
                terminator: Terminator::Absent,
            };
            let gone = self.records[at].copy();
            let ghost p_m = previous@;
            let ghost g_m = gone@;
            let ghost u_m = unterminated@;
            let before = vec![previous, gone];
            let after = vec![unterminated];
            proof {
                assert(records_view(before@) =~= seq![p_m, g_m]);
                assert(records_view(after@) =~= seq![u_m]);
                assert(s.subrange(at - 1, at - 1 + 2) =~= seq![p_m, g_m]);
                lemma_rows_invertible(s, at - 1, records_view(before@), records_view(after@));
                assert(history::apply_rows(s, at - 1, records_view(before@), records_view(after@))
                    =~= rows_with_deleted(s, at as int));
            }
            self.commit(Change::Rows { at: at - 1, before, after })
        } else {
            let gone = self.records[at].copy();
            let ghost g_m = gone@;
            let before = vec![gone];
            let after: Vec<Record> = Vec::new();
            proof {
                assert(records_view(before@) =~= seq![g_m]);
                assert(records_view(after@) =~= Seq::<RecordM>::empty());
                assert(s.subrange(at as int, at + 1) =~= seq![g_m]);
                lemma_rows_invertible(s, at as int, records_view(before@), records_view(after@));
                assert(history::apply_rows(s, at as int, records_view(before@), records_view(after@))
                    =~= rows_with_deleted(s, at as int));
            }
            self.commit(Change::Rows { at, before, after })
        }
    }

    /// Replaces every occurrence of `find` with `with`, in the given rows
    /// only, and says how many cells changed. One thing to undo, because it
    /// was one thing to ask for. A cell nothing matched in is not written to.
    pub fn replace_in(&mut self, rows: &[usize], find: &str, with: &str) -> (r: usize)
        requires
            old(self).wf(),
            forall|k: int| 0 <= k < rows@.len() ==> #[trigger] rows@[k] < old(self).rows().len(),
            touched_in(old(self).rows(), rows@, find@, with@) <= usize::MAX,
        ensures
            r == touched_in(old(self).rows(), rows@, find@, with@),
            r == 0 ==> *final(self) == *old(self),
            r > 0 ==> final(self).recorded(old(self)) && final(self).rows() == rows_replaced(
                old(self).rows(),
                rows@,
                find@,
                with@,
            ),
            r > 0 ==> final(self).reports()[old(self).step()] == (
                replace_report(old(self).rows(), rows@, find@, with@),
                replace_report(old(self).rows(), rows@, find@, with@),
            ),
    {
        let ghost s = self.rows();
        let held: usize = self.records.len();
        assert(s.len() == held);
        let mut edits: Vec<Edit> = Vec::new();
        let mut changed: usize = 0;
        let mut k: usize = 0;
        while k < rows.len()
            invariant
                k <= rows@.len(),
                s == self.rows(),
                s.len() <= usize::MAX,
                forall|j: int| 0 <= j < rows@.len() ==> #[trigger] rows@[j] < s.len(),
                touched_in(s, rows@, find@, with@) <= usize::MAX,
                changed == touched_in(s, rows@.subrange(0, k as int), find@, with@),
                edits@.len() == rows_touched(s, rows@.subrange(0, k as int), find@, with@).len(),
                forall|j: int|
                    0 <= j < edits@.len() ==> #[trigger] edits@[j].row == rows_touched(
                        s,
                        rows@.subrange(0, k as int),
                        find@,
                        with@,
                    )[j],
                forall|j: int|
                    0 <= j < edits@.len() ==> {
                        let e = #[trigger] edits@[j]@;
                        &&& 0 <= e.row < s.len()
                        &&& rows@.subrange(0, k as int).contains(e.row as usize)
                        &&& e.before == s[e.row].fields
                        &&& e.after == replaced_fields(s[e.row].fields, find@, with@)
                    },
                forall|i: int|
                    0 <= i < s.len() && rows@.subrange(0, k as int).contains(i as usize) && touched(
                        s[i].fields,
                        find@,
                        with@,
                    ) > 0 ==> exists|j: int| 0 <= j < edits@.len() && #[trigger] edits@[j].row == i,
            decreases rows@.len() - k,
        {
            let row = rows[k];
            let (after, count) = self.replaced(row, find, with);
            let before = clone_fields(&self.records[row].fields);
            proof {
                lemma_touched_in_push(s, rows@, k as int, find@, with@);
                lemma_touched_in_bound(s, rows@, (k + 1) as int, find@, with@);
            }
            let ghost previous = edits@;
            if count > 0 {
                edits.push(Edit { row, before, after });
            }
            changed = changed + count;
            proof {
                let pre = rows@.subrange(0, k as int);
                let next = rows@.subrange(0, k + 1 as int);
                assert(next =~= pre.push(row));
                assert(next.drop_last() =~= pre);
                assert(next.last() == row);
                assert(count == touched(s[row as int].fields, find@, with@));
                assert forall|j: int| 0 <= j < edits@.len() implies #[trigger] edits@[j].row
                    == rows_touched(s, next, find@, with@)[j] by {
                    if j < previous.len() {
                        assert(edits@[j] == previous[j]);
                    }
                }
                assert forall|j: int| 0 <= j < edits@.len() implies ({
                    let e = #[trigger] edits@[j]@;
                    &&& 0 <= e.row < s.len()
                    &&& next.contains(e.row as usize)
                    &&& e.before == s[e.row].fields
                    &&& e.after == replaced_fields(s[e.row].fields, find@, with@)
                }) by {
                    if j < previous.len() {
                        assert(edits@[j] == previous[j]);
                        let e = previous[j]@;
                        let w = choose|w: int| 0 <= w < pre.len() && pre[w] == e.row as usize;
                        assert(next[w] == pre[w]);
                    } else {
                        assert(next[k as int] == row);
                    }
                }
                assert forall|i: int|
                    0 <= i < s.len() && next.contains(i as usize) && touched(s[i].fields, find@, with@)
                        > 0 implies exists|j: int| 0 <= j < edits@.len() && #[trigger] edits@[j].row
                    == i by {
                    let w = choose|w: int| 0 <= w < next.len() && next[w] == i as usize;
                    if w < k {
                        assert(pre[w] == next[w]);
                        assert(pre.contains(i as usize));
                        let j = choose|j: int| 0 <= j < previous.len() && #[trigger] previous[j].row == i;
                        assert(edits@[j] == previous[j]);
                    } else {
                        assert(next[w] == row);
                        assert(i == row as int);
                        assert(count == touched(s[row as int].fields, find@, with@));
                        assert(count > 0);
                        assert(edits@.len() == previous.len() + 1);
                        assert(edits@[edits@.len() - 1].row == row);
                    }
                }
            }
            k = k + 1;
        }
        assert(rows@.subrange(0, rows@.len() as int) =~= rows@);
        if changed > 0 {
            let ghost ems = edits@.map_values(|e: Edit| e@);
            proof {
                assert forall|j: int| 0 <= j < ems.len() implies 0 <= #[trigger] ems[j].row < s.len()
                    && ems[j].before == s[ems[j].row].fields by {
                    assert(ems[j] == edits@[j]@);
                }
                lemma_edits_invertible(s, ems);
                history::lemma_edits_applied(s, ems, true);
                let target = rows_replaced(s, rows@, find@, with@);
                let result = history::apply_edits(s, ems, true);
                assert forall|i: int| 0 <= i < s.len() implies result[i] == target[i] by {
                    let k = history::last_at(history::edit_rows(ems), i);
                    if k >= 0 {
                        history::lemma_last_at_bounds(history::edit_rows(ems), i);
                        assert(ems[k] == edits@[k]@);
                        assert(history::edit_rows(ems)[k] == ems[k].row);
                    } else {
                        if rows@.contains(i as usize) {
                            if touched(s[i].fields, find@, with@) > 0 {
                                let j = choose|j: int| 0 <= j < edits@.len() && #[trigger] edits@[j].row == i;
                                assert(history::edit_rows(ems)[j] == i);
                                history::lemma_last_at_found(history::edit_rows(ems), j);
                            } else {
                                lemma_untouched(s[i].fields, find@, with@);
                                assert(with_fields(s[i], s[i].fields) == s[i]);
                            }
                        }
                    }
                }
                assert(result =~= target);
            }
            self.commit(Change::Fields { edits });
        }
        changed
    }

    /// One record's fields with every match replaced, and how many of them
    /// something matched in.
    fn replaced(&self, row: usize, find: &str, with: &str) -> (r: (Vec<Field>, usize))
        requires
            row < self.rows().len(),
        ensures
            fields_view(r.0@) == replaced_fields(self.rows()[row as int].fields, find@, with@),
            r.1 == touched(self.rows()[row as int].fields, find@, with@),
    {
        let fields = &self.records[row].fields;
        let ghost fs = fields_view(fields@);
        let mut out: Vec<Field> = Vec::new();
        let mut count: usize = 0;
        let mut j: usize = 0;
        while j < fields.len()
            invariant
                j <= fields@.len(),
                fs == fields_view(fields@),
                fields_view(out@) == replaced_fields(fs.subrange(0, j as int), find@, with@),
                count == touched(fs.subrange(0, j as int), find@, with@),
                count <= j,
            decreases fields@.len() - j,
        {
            let field = &fields[j];
            let ghost previous = out@;
            let next = match crate::search::replace(field.value.as_str(), find, with) {
                Some(value) => {
                    count = count + 1;
                    Field { value, verbatim: None }
                },
                None => field.copy(),
            };
            out.push(next);
            proof {
                let pre = fs.subrange(0, j as int);
                let nxt = fs.subrange(0, j + 1 as int);
                assert(nxt.drop_last() =~= pre);
                assert(nxt.last() == field@);
                assert(fields_view(out@) =~= fields_view(previous).push(next@));
                assert(replaced_fields(nxt, find@, with@) =~= replaced_fields(pre, find@, with@).push(
                    replaced_field(field@, find@, with@),
                ));
            }
            j = j + 1;
        }
        assert(fs.subrange(0, fs.len() as int) =~= fs);
        (out, count)
    }

    /// What a record inserted at `at` should end with: the same as the
    /// record it displaces, or the way the rest of the file ends when that
    /// record has no terminator or there is none. Only the last record of a
    /// file may end without one.
    fn terminator_at(&self, at: usize) -> (r: Terminator)
        ensures
            r == (if at < self.rows().len() && self.rows()[at as int].terminator != Terminator::Absent {
                self.rows()[at as int].terminator
            } else {
                terminator_style(self.rows(), self.reading())
            }),
    {
        if at < self.records.len() && self.records[at].terminator != Terminator::Absent {
            self.records[at].terminator
        } else {
            self.terminator_style()
        }
    }

    /// How this file ends its records, taken from the records it has.
    fn terminator_style(&self) -> (r: Terminator)
        ensures
            r == terminator_style(self.rows(), self.reading()),
    {
        let ghost rows = self.rows();
        assert(rows.subrange(0, rows.len() as int) =~= rows);
        let mut k: usize = 0;
        while k < self.records.len()
            invariant
                k <= self.records@.len(),
                rows == records_view(self.records@),
                first_terminator(rows) == first_terminator(rows.subrange(k as int, rows.len() as int)),
            decreases self.records@.len() - k,
        {
            let t = self.records[k].terminator;
            let ghost tail = rows.subrange(k as int, rows.len() as int);
            assert(tail[0] == rows[k as int]);
            assert(tail.drop_first() =~= rows.subrange(k + 1, rows.len() as int));
            match t {
                Terminator::Absent => {},
                _ => {
                    return t;
                },
            }
            k = k + 1;
        }
        assert(rows.subrange(k as int, rows.len() as int) =~= Seq::<RecordM>::empty());
        if self.dialect.uses_record_separator() {
            Terminator::RecordSeparator
        } else {
            Terminator::Lf
        }
    }

    fn ends_without_terminator(&self) -> (r: bool)
        ensures
            r == ends_open(self.rows()),
    {
        if self.records.len() == 0 {
            return false;
        }
        match self.records[self.records.len() - 1].terminator {
            Terminator::Absent => true,
            _ => false,
        }
    }

    /// The rows that reach column `at`: that have a field there or, when
    /// `ending` holds, end exactly at it. Each with the field that goes with
    /// it: an empty one to put in, or the one that is there to take out.
    fn rows_reaching(&self, at: usize, ending: bool) -> (r: Vec<(usize, Field)>)
        ensures
            history::distinct(r@.map_values(|p: (usize, Field)| p.0 as int)),
            forall|k: int|
                0 <= k < r@.len() ==> {
                    let row = #[trigger] r@[k].0 as int;
                    &&& 0 <= row < self.rows().len()
                    &&& if ending {
                        at <= self.rows()[row].fields.len() && r@[k].1@ == blank_field()
                    } else {
                        at < self.rows()[row].fields.len() && r@[k].1@
                            == self.rows()[row].fields[at as int]
                    }
                },
            forall|row: int|
                0 <= row < self.rows().len() ==> (if ending {
                    at <= self.rows()[row].fields.len()
                } else {
                    at < self.rows()[row].fields.len()
                }) ==> exists|k: int| 0 <= k < r@.len() && #[trigger] r@[k].0 == row,
    {
        let mut out: Vec<(usize, Field)> = Vec::new();
        let mut row: usize = 0;
        while row < self.records.len()
            invariant
                row <= self.records@.len(),
                forall|k: int| 0 <= k < out@.len() ==> #[trigger] out@[k].0 < row,
                forall|j: int, k: int| 0 <= j < k < out@.len() ==> out@[j].0 < out@[k].0,
                forall|k: int|
                    0 <= k < out@.len() ==> {
                        let r = #[trigger] out@[k].0 as int;
                        &&& 0 <= r < self.rows().len()
                        &&& if ending {
                            at <= self.rows()[r].fields.len() && out@[k].1@ == blank_field()
                        } else {
                            at < self.rows()[r].fields.len() && out@[k].1@
                                == self.rows()[r].fields[at as int]
                        }
                    },
                forall|r: int|
                    0 <= r < row ==> (if ending {
                        at <= self.rows()[r].fields.len()
                    } else {
                        at < self.rows()[r].fields.len()
                    }) ==> exists|k: int| 0 <= k < out@.len() && #[trigger] out@[k].0 == r,
            decreases self.records@.len() - row,
        {
            let length = self.records[row].fields.len();
            assert(self.rows()[row as int].fields.len() == length);
            let ghost previous = out@;
            if ending && at <= length {
                out.push((row, Field::blank()));
            } else if !ending && at < length {
                let field = self.records[row].fields[at].copy();
                assert(fields_view(self.records@[row as int].fields@)[at as int] == field@);
                out.push((row, field));
            }
            proof {
                assert forall|r: int|
                    0 <= r < row + 1 && (if ending {
                        at <= self.rows()[r].fields.len()
                    } else {
                        at < self.rows()[r].fields.len()
                    }) implies exists|k: int| 0 <= k < out@.len() && #[trigger] out@[k].0 == r by {
                    if r < row {
                        let k = choose|k: int| 0 <= k < previous.len() && #[trigger] previous[k].0 == r;
                        assert(out@[k] == previous[k]);
                    } else {
                        assert(out@[out@.len() - 1].0 == row);
                    }
                }
            }
            row = row + 1;
        }
        proof {
            let rows = out@.map_values(|p: (usize, Field)| p.0 as int);
            assert forall|j: int, k: int| 0 <= j < k < rows.len() implies rows[j] != rows[k] by {
                assert(out@[j].0 < out@[k].0);
            }
        }
        out
    }

    /// Puts an empty field at `at` in every record that has a field there or
    /// ends exactly at it. A record that stops short of the column is left
    /// alone: ragged files stay ragged.
    pub fn insert_column(&mut self, at: usize) -> (r: Extent)
        requires
            old(self).wf(),
        ensures
            final(self).recorded(old(self)),
            final(self).rows() == rows_with_column(old(self).rows(), at as int),
            r == (Extent::Columns { at, inserted: true }),
            final(self).reports()[old(self).step()] == (r, Extent::Shape),
    {
        let fields = self.rows_reaching(at, true);
        let ghost s = self.rows();
        let ghost rows = fields@.map_values(|p: (usize, Field)| p.0 as int);
        let ghost fs = fields@.map_values(|p: (usize, Field)| p.1@);
        proof {
            assert(history::ready(
                ChangeM::Column { at: at as int, rows, fields: fs, inserted: true },
                s,
                true,
            )) by {
                assert forall|k: int| 0 <= k < rows.len() implies 0 <= #[trigger] rows[k] < s.len()
                    && at <= s[rows[k]].fields.len() by {
                    assert(rows[k] == fields@[k].0 as int);
                }
            }
            lemma_column_invertible(s, at as int, rows, fs, true);
            lemma_column_result(s, at as int, rows, fs, true);
            assert forall|i: int| 0 <= i < s.len() implies #[trigger] apply_spec(
                ChangeM::Column { at: at as int, rows, fields: fs, inserted: true },
                s,
                true,
            )[i] == rows_with_column(s, at as int)[i] by {
                let k = history::last_at(rows, i);
                if s[i].fields.len() >= at {
                    let j = choose|j: int| 0 <= j < fields@.len() && #[trigger] fields@[j].0 == i;
                    assert(rows[j] == i);
                    lemma_last_at_distinct(rows, j);
                    assert(fs[history::last_at(rows, i)] == blank_field());
                } else {
                    lemma_last_at_missing(rows, i);
                }
            }
            assert(apply_spec(ChangeM::Column { at: at as int, rows, fields: fs, inserted: true }, s, true)
                =~= rows_with_column(s, at as int));
        }
        self.commit(Change::Column { at, fields, inserted: true })
    }

    /// Takes the field at `at` out of every record that has one.
    pub fn delete_column(&mut self, at: usize) -> (r: Extent)
        requires
            old(self).wf(),
        ensures
            final(self).recorded(old(self)),
            final(self).rows() == rows_without_column(old(self).rows(), at as int),
            r == (Extent::Columns { at, inserted: false }),
            final(self).reports()[old(self).step()] == (r, Extent::Shape),
    {
        let fields = self.rows_reaching(at, false);
        let ghost s = self.rows();
        let ghost rows = fields@.map_values(|p: (usize, Field)| p.0 as int);
        let ghost fs = fields@.map_values(|p: (usize, Field)| p.1@);
        proof {
            assert(history::ready(
                ChangeM::Column { at: at as int, rows, fields: fs, inserted: false },
                s,
                true,
            )) by {
                assert forall|k: int| 0 <= k < rows.len() implies 0 <= #[trigger] rows[k] < s.len()
                    && at < s[rows[k]].fields.len() by {
                    assert(rows[k] == fields@[k].0 as int);
                }
            }
            assert forall|k: int| 0 <= k < rows.len() implies #[trigger] fs[k] == s[rows[k]].fields[at as int] by {
                assert(rows[k] == fields@[k].0 as int);
                assert(fs[k] == fields@[k].1@);
            }
            lemma_column_invertible(s, at as int, rows, fs, false);
            lemma_column_result(s, at as int, rows, fs, false);
            assert forall|i: int| 0 <= i < s.len() implies #[trigger] apply_spec(
                ChangeM::Column { at: at as int, rows, fields: fs, inserted: false },
                s,
                true,
            )[i] == rows_without_column(s, at as int)[i] by {
                if s[i].fields.len() > at {
                    let j = choose|j: int| 0 <= j < fields@.len() && #[trigger] fields@[j].0 == i;
                    assert(rows[j] == i);
                    lemma_last_at_distinct(rows, j);
                } else {
                    lemma_last_at_missing(rows, i);
                }
            }
            assert(apply_spec(ChangeM::Column { at: at as int, rows, fields: fs, inserted: false }, s, true)
                =~= rows_without_column(s, at as int));
        }
        self.commit(Change::Column { at, fields, inserted: false })
    }

    /// Puts the records in a new order, which names for each position the
    /// record that goes there. Only the fields move: a record's terminator
    /// belongs to its place in the file.
    pub fn reorder_rows(&mut self, order: Vec<usize>)
        requires
            old(self).wf(),
            history::is_permutation(
                order@.map_values(|p: usize| p as int),
                old(self).rows().len() as int,
            ),
        ensures
            final(self).recorded(old(self)),
            final(self).rows() == history::apply_order(
                old(self).rows(),
                order@.map_values(|p: usize| p as int),
            ),
            final(self).reports()[old(self).step()] == (Extent::Shape, Extent::Shape),
    {
        proof {
            lemma_order_invertible(self.rows(), order@.map_values(|p: usize| p as int));
        }
        self.commit(Change::Order { order });
    }
}

proof fn lemma_touched_in_push(s: Seq<RecordM>, rows: Seq<usize>, k: int, find: Seq<char>, with: Seq<char>)
    requires
        0 <= k < rows.len(),
    ensures
        touched_in(s, rows.subrange(0, k + 1), find, with) == touched_in(s, rows.subrange(0, k), find, with)
            + touched(s[rows[k] as int].fields, find, with),
{
    let next = rows.subrange(0, k + 1);
    assert(next.drop_last() =~= rows.subrange(0, k));
    assert(next.last() == rows[k]);
}

proof fn lemma_touched_nonneg(fields: Seq<FieldM>, find: Seq<char>, with: Seq<char>)
    ensures
        touched(fields, find, with) >= 0,
    decreases fields.len(),
{
    if fields.len() > 0 {
        lemma_touched_nonneg(fields.drop_last(), find, with);
    }
}

proof fn lemma_touched_in_bound(s: Seq<RecordM>, rows: Seq<usize>, k: int, find: Seq<char>, with: Seq<char>)
    requires
        0 <= k <= rows.len(),
    ensures
        0 <= touched_in(s, rows.subrange(0, k), find, with) <= touched_in(s, rows, find, with),
    decreases rows.len() - k,
{
    if k < rows.len() {
        lemma_touched_in_bound(s, rows, k + 1, find, with);
        lemma_touched_in_push(s, rows, k, find, with);
        lemma_touched_nonneg(s[rows[k] as int].fields, find, with);
        lemma_touched_in_nonneg(s, rows.subrange(0, k), find, with);
    } else {
        assert(rows.subrange(0, k) =~= rows);
        lemma_touched_in_nonneg(s, rows, find, with);
    }
}

proof fn lemma_touched_in_nonneg(s: Seq<RecordM>, rows: Seq<usize>, find: Seq<char>, with: Seq<char>)
    ensures
        touched_in(s, rows, find, with) >= 0,
    decreases rows.len(),
{
    if rows.len() > 0 {
        lemma_touched_in_nonneg(s, rows.drop_last(), find, with);
        lemma_touched_nonneg(s[rows.last() as int].fields, find, with);
    }
}

/// Fields nothing matched in come out of a replacement as they went in.
proof fn lemma_untouched(fields: Seq<FieldM>, find: Seq<char>, with: Seq<char>)
    requires
        touched(fields, find, with) <= 0,
    ensures
        replaced_fields(fields, find, with) == fields,
    decreases fields.len(),
{
    if fields.len() > 0 {
        lemma_touched_nonneg(fields.drop_last(), find, with);
        lemma_untouched(fields.drop_last(), find, with);
        assert(replaced_fields(fields, find, with) =~= replaced_fields(fields.drop_last(), find, with).push(
            replaced_field(fields.last(), find, with),
        ));
        assert(fields =~= fields.drop_last().push(fields.last()));
    }
}

/// A record of `width` empty fields.
fn blank_record_exec(width: usize, terminator: Terminator) -> (r: Record)
    ensures
        r@ == blank_record(width as int, terminator),
{
    let mut fields: Vec<Field> = Vec::new();
    let mut i: usize = 0;
    while i < width
        invariant
            i <= width,
            fields_view(fields@) == Seq::new(i as nat, |j: int| blank_field()),
        decreases width - i,
    {
        let ghost previous = fields@;
        fields.push(Field::blank());
        i = i + 1;
        assert(fields_view(fields@) =~= fields_view(previous).push(blank_field()));
        assert(fields_view(fields@) =~= Seq::new(i as nat, |j: int| blank_field()));
    }
    Record { fields, terminator }
}

proof fn lemma_last_at_distinct(rows: Seq<int>, j: int)
    requires
        history::distinct(rows),
        0 <= j < rows.len(),
    ensures
        history::last_at(rows, rows[j]) == j,
    decreases rows.len(),
{
    if j < rows.len() - 1 {
        assert(rows.last() == rows[rows.len() - 1]);
        assert(rows.drop_last()[j] == rows[j]);
        lemma_last_at_distinct(rows.drop_last(), j);
    }
}

proof fn lemma_last_at_missing(rows: Seq<int>, row: int)
    requires
        forall|k: int| 0 <= k < rows.len() ==> rows[k] != row,
    ensures
        history::last_at(rows, row) == -1,
    decreases rows.len(),
{
    if rows.len() > 0 {
        assert(rows.last() == rows[rows.len() - 1]);
        lemma_last_at_missing(rows.drop_last(), row);
    }
}

proof fn lemma_column_result(
    s: Seq<RecordM>,
    at: int,
    rows: Seq<int>,
    fields: Seq<FieldM>,
    insert: bool,
)
    requires
        history::ready(ChangeM::Column { at, rows, fields, inserted: insert }, s, true),
    ensures
        history::apply_column(s, at, rows, fields, insert).len() == s.len(),
        forall|i: int|
            0 <= i < s.len() ==> #[trigger] history::apply_column(s, at, rows, fields, insert)[i]
                == history::column_result(s, at, rows, fields, insert, i),
{
    history::lemma_column_applied(s, at, rows, fields, insert);
}

/// Characters `from` to `to` of a run of characters.
pub fn slice_of(v: &Vec<char>, from: usize, to: usize) -> (r: &[char])
    requires
        from <= to <= v@.len(),
    ensures
        r@ == v@.subrange(from as int, to as int),
{
    slice_subrange(v.as_slice(), from, to)
}

/// Appends characters to `out`.
pub fn append(out: &mut Vec<char>, chars: &[char])
    ensures
        final(out)@ == old(out)@ + chars@,
{
    let mut i: usize = 0;
    while i < chars.len()
        invariant
            i <= chars@.len(),
            out@ == old(out)@ + chars@.subrange(0, i as int),
        decreases chars@.len() - i,
    {
        out.push(chars[i]);
        i = i + 1;
        assert(out@ =~= old(out)@ + chars@.subrange(0, i as int));
    }
    assert(chars@.subrange(0, chars@.len() as int) =~= chars@);
}

/// The byte order mark's character encodes as the byte order mark.
proof fn lemma_mark_encoding(rest: Seq<char>)
    ensures
        encode_utf8(seq![BYTE_ORDER_MARK_CHAR] + rest) == byte_order_mark() + encode_utf8(rest),
{
    let s = seq![BYTE_ORDER_MARK_CHAR] + rest;
    assert(s.drop_first() =~= rest);
    assert(s[0] == BYTE_ORDER_MARK_CHAR);
    assert(BYTE_ORDER_MARK_CHAR as u32 == 0xFEFFu32);
    let u: u32 = 0xFEFF;
    assert((0xE0u8 | ((u >> 12u32) & 0x0Fu32) as u8) == 0xEFu8) by (bit_vector)
        requires
            u == 0xFEFFu32,
    ;
    assert((0x80u8 | ((u >> 6u32) & 0x3Fu32) as u8) == 0xBBu8) by (bit_vector)
        requires
            u == 0xFEFFu32,
    ;
    assert((0x80u8 | (u & 0x3Fu32) as u8) == 0xBFu8) by (bit_vector)
        requires
            u == 0xFEFFu32,
    ;
    assert(vstd::utf8::leading_byte_width_3(u) == 0xEFu8);
    assert(vstd::utf8::second_last_continuation_byte(u) == 0xBBu8);
    assert(vstd::utf8::last_continuation_byte(u) == 0xBFu8);
    assert(encode_scalar(u) =~= byte_order_mark());
}


/// Undoing a change puts back the document as it was before the change: the
/// same records and the same text, and, where it was saved just then, a
/// document that is not modified.
pub proof fn lemma_undo_restores(before: Document, changed: Document, undone: Document)
    requires
        before.wf(),
        changed.recorded(&before),
        undone.undid(&changed),
    ensures
        undone.rows() == before.rows(),
        undone.text() == before.text(),
        !before.modified() ==> !undone.modified(),
{
    before.lemma_wf();
}

/// Redoing what was undone puts the change back, text and all.
pub proof fn lemma_redo_restores(changed: Document, undone: Document, redone: Document)
    requires
        changed.wf(),
        undone.undid(&changed),
        redone.redid(&undone),
    ensures
        redone.rows() == changed.rows(),
        redone.text() == changed.text(),
        redone.modified() == changed.modified(),
{
    changed.lemma_wf();
}

/// A new change discards whatever had been undone: nothing is left to redo.
pub proof fn lemma_change_ends_redo(before: Document, changed: Document)
    requires
        before.wf(),
        changed.recorded(&before),
    ensures
        !(changed.step() + 1 < changed.timeline().len()),
{
    before.lemma_wf();
}

/// A saved state that a new change has cut off can never be reached again:
/// the document reads as modified after the change, and still after undoing
/// or redoing from there.
pub proof fn lemma_lost_save_stays_lost(before: Document, changed: Document, later: Document)
    requires
        before.saved_at() matches Some(k) && k > before.step(),
        changed.recorded(&before),
        later.undid(&changed) || later.redid(&changed),
    ensures
        changed.saved_at() is None,
        changed.modified(),
        later.saved_at() is None,
        later.modified(),
{
}

/// Changing one record leaves the text of every other record as it was:
/// the file is the text of the records before it, then the changed record's
/// own text, then the text of the records after it, byte for byte the same
/// on either side.
pub proof fn lemma_one_record_one_line(
    rows: Seq<RecordM>,
    row: int,
    record: RecordM,
    dialect: Dialect,
)
    requires
        0 <= row < rows.len(),
    ensures
        records_text(rows, dialect) == records_text(rows.subrange(0, row), dialect) + record_text(
            rows[row],
            dialect,
        ) + records_text(rows.subrange(row + 1, rows.len() as int), dialect),
        records_text(rows.update(row, record), dialect) == records_text(rows.subrange(0, row), dialect)
            + record_text(record, dialect) + records_text(
            rows.subrange(row + 1, rows.len() as int),
            dialect,
        ),
{
    let before = rows.subrange(0, row);
    let after = rows.subrange(row + 1, rows.len() as int);
    let changed = rows.update(row, record);
    assert(rows =~= before + (seq![rows[row]] + after));
    assert(changed =~= before + (seq![record] + after));
    model::lemma_records_text_append(before, seq![rows[row]] + after, dialect);
    model::lemma_records_text_append(seq![rows[row]], after, dialect);
    model::lemma_records_text_append(before, seq![record] + after, dialect);
    model::lemma_records_text_append(seq![record], after, dialect);
    assert(seq![rows[row]] =~= Seq::<RecordM>::empty().push(rows[row]));
    assert(seq![record] =~= Seq::<RecordM>::empty().push(record));
    model::lemma_records_text_push(Seq::<RecordM>::empty(), rows[row], dialect);
    model::lemma_records_text_push(Seq::<RecordM>::empty(), record, dialect);
    assert(records_text(Seq::<RecordM>::empty(), dialect) =~= Seq::<char>::empty());
}

} // verus!
