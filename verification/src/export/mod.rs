//! What Comma writes and will not read back.
//!
//! An export is output: it never becomes the document, and exporting leaves
//! the document exactly as it was. It is a picture of the grid rather than of
//! the file: the rows in the order they are shown, without the ones a search
//! or a filter is hiding. Every value is written as text.

pub mod html;
pub mod ods;

pub use html::write as html;
pub use ods::write as ods;

use vstd::prelude::*;
use crate::document::Document;
use crate::text::{chars_of, string_of};

verus! {

/// A picture of the grid, as an export needs it.
pub struct Sheet<'a> {
    pub document: &'a Document,
    /// What heads each column: the file's own titles, or the spreadsheet
    /// letters when it has none.
    pub columns: &'a [String],
    /// Whether `columns` are the file's own titles.
    pub titled: bool,
    /// The records to write, in the order they are to appear.
    pub rows: &'a [usize],
    /// What to call the table.
    pub name: &'a str,
}

impl<'a> Sheet<'a> {
    /// Whether every row the sheet names is a record of the document.
    pub open spec fn valid(&self) -> bool {
        forall|i: int| 0 <= i < self.rows@.len() ==> self.rows@[i] < self.document.rows().len()
    }

    /// The value at a place in the sheet.
    pub open spec fn cell(&self, row: int, column: int) -> Seq<char> {
        self.document.cell(self.rows@[row] as int, column)
    }

    /// The column titles as text.
    pub open spec fn titles(&self) -> Seq<Seq<char>> {
        self.columns@.map_values(|title: String| title@)
    }

    /// How many columns the sheet has.
    pub fn width(&self) -> (r: usize)
        ensures
            r == self.columns@.len(),
    {
        self.columns.len()
    }

    /// How many rows the sheet has.
    pub fn height(&self) -> (r: usize)
        ensures
            r == self.rows@.len(),
    {
        self.rows.len()
    }

    /// One value, addressed by where it is in this sheet rather than where it
    /// is in the file. A record too short to reach a column reads as empty.
    pub fn value(&self, row: usize, column: usize) -> (r: &str)
        requires
            self.valid(),
            row < self.rows@.len(),
        ensures
            r@ == self.cell(row as int, column as int),
    {
        self.document.value(self.rows[row], column)
    }
}

/// What one character becomes in markup: the four that mean something there
/// are written as entities, the control codes below a space that neither
/// XML nor HTML can hold are dropped, and tab and the line breaks stay.
pub open spec fn escaped_char(c: char) -> Seq<char> {
    if c == '&' {
        seq!['&', 'a', 'm', 'p', ';']
    } else if c == '<' {
        seq!['&', 'l', 't', ';']
    } else if c == '>' {
        seq!['&', 'g', 't', ';']
    } else if c == '"' {
        seq!['&', 'q', 'u', 'o', 't', ';']
    } else if c == '\t' || c == '\n' || c == '\r' {
        seq![c]
    } else if (c as u32) < 0x20 {
        Seq::empty()
    } else {
        seq![c]
    }
}

/// Text as a markup document can carry it.
pub open spec fn escaped(s: Seq<char>) -> Seq<char>
    decreases s.len(),
{
    if s.len() == 0 {
        Seq::empty()
    } else {
        escaped(s.drop_last()) + escaped_char(s.last())
    }
}

/// Adds the characters of `s` to `out`.
pub fn put(out: &mut Vec<char>, s: &str)
    ensures
        final(out)@ == old(out)@ + s@,
{
    let chars = chars_of(s);
    crate::document::append(out, chars.as_slice());
}

/// Adds `value`, escaped, to `out`.
pub fn put_escaped(out: &mut Vec<char>, value: &str)
    ensures
        final(out)@ == old(out)@ + escaped(value@),
{
    let chars = chars_of(value);
    let mut k: usize = 0;
    while k < chars.len()
        invariant
            k <= chars@.len(),
            chars@ == value@,
            out@ == old(out)@ + escaped(chars@.subrange(0, k as int)),
        decreases chars@.len() - k,
    {
        let c = chars[k];
        let ghost before = out@;
        if c == '&' {
            out.push('&');
            out.push('a');
            out.push('m');
            out.push('p');
            out.push(';');
        } else if c == '<' {
            out.push('&');
            out.push('l');
            out.push('t');
            out.push(';');
        } else if c == '>' {
            out.push('&');
            out.push('g');
            out.push('t');
            out.push(';');
        } else if c == '"' {
            out.push('&');
            out.push('q');
            out.push('u');
            out.push('o');
            out.push('t');
            out.push(';');
        } else if c == '\t' || c == '\n' || c == '\r' {
            out.push(c);
        } else if (c as u32) < 0x20 {
        } else {
            out.push(c);
        }
        assert(out@ =~= before + escaped_char(c));
        assert(chars@.subrange(0, k + 1).drop_last() =~= chars@.subrange(0, k as int));
        k = k + 1;
    }
    assert(chars@.subrange(0, chars@.len() as int) =~= chars@);
}

/// Text as a markup document can carry it.
pub fn escape(value: &str) -> (r: String)
    ensures
        r@ == escaped(value@),
{
    let mut out: Vec<char> = Vec::new();
    put_escaped(&mut out, value);
    assert(out@ =~= escaped(value@));
    string_of(out.as_slice())
}

} // verus!
