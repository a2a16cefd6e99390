//! The grid's own questions: what to call a column, what order its values go
//! in, and how wide the row numbers beside it need to be.

pub mod letters;
pub mod order;

use vstd::prelude::*;
use crate::document::Document;
use self::letters::letters_of;

verus! {

/// `xaddr::col_to_letter`, which names a column by the spreadsheet scheme:
/// its answer is claimed to be `letters_of` the column.
#[verifier::external_body]
fn spreadsheet_name(column: usize) -> (r: String)
    ensures
        r@ == letters_of(column as nat),
{
    xaddr::col_to_letter(column)
}

/// What heads each column: the value in the first record when that record is
/// a header and the value is not empty, and the column's letters otherwise.
pub open spec fn titles_of(document: Document, header: bool) -> Seq<Seq<char>> {
    let titled = header && document.rows().len() > 0;
    Seq::new(
        crate::document::widest(document.rows()) as nat,
        |column: int|
            if titled && document.cell(0, column).len() > 0 {
                document.cell(0, column)
            } else {
                letters_of(column as nat)
            },
    )
}

/// The title of every column of the document, given whether its first
/// record is a header.
pub fn column_titles(document: &Document, header: bool) -> (r: Vec<String>)
    ensures
        r@.len() == titles_of(*document, header).len(),
        forall|c: int| 0 <= c < r@.len() ==> (#[trigger] r@[c])@ == titles_of(*document, header)[c],
{
    let titled = header && document.row_count() > 0;
    let count = document.column_count();
    let mut titles: Vec<String> = Vec::new();
    let mut column: usize = 0;
    while column < count
        invariant
            column <= count,
            count == crate::document::widest(document.rows()),
            titled == (header && document.rows().len() > 0),
            titles@.len() == column,
            forall|c: int| 0 <= c < column ==> (#[trigger] titles@[c])@ == titles_of(*document, header)[c],
        decreases count - column,
    {
        let title: &str = if titled {
            document.value(0, column)
        } else {
            ""
        };
        proof {
            reveal_strlit("");
        }
        if title.unicode_len() == 0 {
            titles.push(spreadsheet_name(column));
        } else {
            titles.push(title.to_owned());
        }
        assert(titles@[column as int]@ == titles_of(*document, header)[column as int]);
        column = column + 1;
    }
    titles
}

/// How many decimal digits `n` is written with.
pub open spec fn digit_count(n: nat) -> nat
    decreases n,
{
    if n < 10 {
        1
    } else {
        1 + digit_count(n / 10)
    }
}

/// Ten to the `k`.
pub open spec fn pow10(k: nat) -> nat
    decreases k,
{
    if k == 0 {
        1
    } else {
        10 * pow10((k - 1) as nat)
    }
}

proof fn lemma_digit_count_below(n: nat, k: nat)
    requires
        k >= 1,
        n < pow10(k),
    ensures
        digit_count(n) <= k,
    decreases k,
{
    if n >= 10 {
        assert(pow10(k) == 10 * pow10((k - 1) as nat));
        assert(pow10(0) == 1);
        lemma_digit_count_below(n / 10, (k - 1) as nat);
    }
}

/// How many digits wide the row-number gutter has to be for a file of this
/// many rows: as wide as the widest number the file can show.
pub fn gutter_digits(rows: usize) -> (r: i32)
    ensures
        r as nat == digit_count(rows as nat),
{
    proof {
        reveal_with_fuel(pow10, 21);
        assert(pow10(20) == 100000000000000000000);
        lemma_digit_count_below(rows as nat, 20);
    }
    let mut digits: i32 = 1;
    let mut rest: usize = rows;
    while rest >= 10
        invariant
            digits + digit_count(rest as nat) == digit_count(rows as nat) + 1,
            digit_count(rows as nat) <= 20,
            digits >= 1,
        decreases rest,
    {
        rest = rest / 10;
        digits = digits + 1;
    }
    digits
}

/// How many lines a value takes: one more than the line breaks it holds.
pub open spec fn line_count(v: Seq<char>) -> int
    decreases v.len(),
{
    if v.len() == 0 {
        1
    } else {
        line_count(v.drop_last()) + if v.last() == '\n' {
            1int
        } else {
            0int
        }
    }
}

/// The most lines any of the first `n` values of a row takes, and one line
/// when there are none.
pub open spec fn tallest(document: Document, row: int, n: int) -> int
    decreases n,
{
    if n <= 0 {
        1
    } else {
        let before = tallest(document, row, n - 1);
        let here = line_count(document.cell(row, n - 1));
        if here > before {
            here
        } else {
            before
        }
    }
}

proof fn lemma_line_count_bounds(v: Seq<char>)
    ensures
        1 <= line_count(v) <= v.len() + 1,
    decreases v.len(),
{
    if v.len() > 0 {
        lemma_line_count_bounds(v.drop_last());
    }
}

/// How many lines a value takes.
pub fn lines_in(value: &str) -> (r: usize)
    requires
        value@.len() < usize::MAX,
    ensures
        r == line_count(value@),
{
    let chars = crate::text::chars_of(value);
    let mut lines: usize = 1;
    let mut k: usize = 0;
    while k < chars.len()
        invariant
            k <= chars@.len(),
            chars@ == value@,
            chars@.len() < usize::MAX,
            lines == line_count(chars@.subrange(0, k as int)),
        decreases chars@.len() - k,
    {
        proof {
            lemma_line_count_bounds(chars@.subrange(0, k as int));
        }
        assert(chars@.subrange(0, k + 1).drop_last() =~= chars@.subrange(0, k as int));
        if chars[k] == '\n' {
            lines = lines + 1;
        }
        k = k + 1;
    }
    assert(chars@.subrange(0, chars@.len() as int) =~= chars@);
    lines
}

/// How many lines tall a row is drawn: as many as the tallest value in it
/// takes. Only the record's own fields are asked; the columns past its end
/// hold nothing and are one line tall.
pub fn row_lines(document: &Document, row: usize) -> (r: usize)
    requires
        row < document.rows().len(),
        forall|c: int| #[trigger] document.cell(row as int, c).len() < usize::MAX,
    ensures
        r == tallest(*document, row as int, document.rows()[row as int].fields.len() as int),
{
    let count = document.field_count(row);
    let mut most: usize = 1;
    let mut column: usize = 0;
    while column < count
        invariant
            row < document.rows().len(),
            forall|c: int| #[trigger] document.cell(row as int, c).len() < usize::MAX,
            count == document.rows()[row as int].fields.len(),
            column <= count,
            most == tallest(*document, row as int, column as int),
        decreases count - column,
    {
        let lines = lines_in(document.value(row, column));
        if lines > most {
            most = lines;
        }
        column = column + 1;
    }
    most
}

} // verus!
