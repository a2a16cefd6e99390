//! Guessing the two things a delimited file does not say about itself: which
//! delimiter separates its fields, and whether its first record names the
//! columns or is one of them.
//!
//! Each candidate delimiter is run through the real parser and scored on how
//! many records come out the same width, so the guess agrees with the reader
//! by construction.

use vstd::prelude::*;
use vstd::slice::slice_subrange;
use vstd::utf8::{decode_utf8, valid_utf8};

use super::dialect::{Dialect, RECORD_SEPARATOR};
use super::model::{records_view, FieldM, Record, RecordM};
use super::parse::{parse, parse_spec};
use super::{after_mark, starts_with_mark};
use crate::text::{
    alphabetic, blank, chars_of, is_alphabetic, is_digit, trim, trim_bounds, utf8, valid_up_to,
};

verus! {

/// How many bytes of a file are looked at.
pub const SAMPLE_BYTES: usize = 65536;

/// How far bytes are valid UTF-8.
pub open spec fn valid_len(b: Seq<u8>) -> int {
    choose|n: int| valid_up_to(b, n)
}

/// Whatever of the bytes is valid text, from the start.
pub open spec fn readable(b: Seq<u8>) -> Seq<char> {
    if valid_utf8(b) {
        decode_utf8(b)
    } else {
        decode_utf8(b.subrange(0, valid_len(b)))
    }
}

/// Where the last line feed or record separator is, or -1.
pub open spec fn last_break(t: Seq<char>) -> int
    decreases t.len(),
{
    if t.len() == 0 {
        -1
    } else if t.last() == '\n' || t.last() == RECORD_SEPARATOR {
        t.len() - 1
    } else {
        last_break(t.drop_last())
    }
}

/// The leading part of a file to judge it by, as text: no byte order mark,
/// at most `SAMPLE_BYTES` bytes, only what is valid UTF-8, and when the file
/// was cut short, no partial record on the end.
pub open spec fn sample_spec(bytes: Seq<u8>) -> Seq<char> {
    let b = after_mark(bytes);
    let truncated = b.len() > SAMPLE_BYTES;
    let text = readable(b.subrange(0, if truncated { SAMPLE_BYTES as int } else { b.len() as int }));
    if truncated && last_break(text) >= 0 {
        text.subrange(0, last_break(text) + 1)
    } else {
        text
    }
}

/// How well one dialect explains the sample.
pub struct Fit {
    /// Records whose width is the most common one.
    pub agreeing: usize,
    /// Records in total; never zero.
    pub records: usize,
    /// That most common width.
    pub width: usize,
}

pub struct FitM {
    pub agreeing: int,
    pub records: int,
    pub width: int,
}

impl View for Fit {
    type V = FitM;

    open spec fn view(&self) -> FitM {
        FitM { agreeing: self.agreeing as int, records: self.records as int, width: self.width as int }
    }
}

/// The fit of a sample that holds no records.
pub open spec fn no_fit() -> FitM {
    FitM { agreeing: 0, records: 1, width: 0 }
}

/// How many of `ws` are `w`.
pub open spec fn count_of(ws: Seq<int>, w: int) -> int
    decreases ws.len(),
{
    if ws.len() == 0 {
        0
    } else {
        count_of(ws.drop_last(), w) + if ws.last() == w {
            1int
        } else {
            0int
        }
    }
}

/// `width` is the most common of `ws`, the smallest of them on a tie, and
/// `agreeing` is how often it occurs.
pub open spec fn is_mode(ws: Seq<int>, agreeing: int, width: int) -> bool {
    &&& count_of(ws, width) == agreeing
    &&& agreeing >= 1
    &&& forall|i: int| 0 <= i < ws.len() ==> count_of(ws, #[trigger] ws[i]) <= agreeing
    &&& forall|i: int|
        0 <= i < ws.len() && count_of(ws, #[trigger] ws[i]) == agreeing ==> width <= ws[i]
}

/// The widths of a run of records.
pub open spec fn widths(rs: Seq<RecordM>) -> Seq<int> {
    rs.map_values(|r: RecordM| r.fields.len() as int)
}

/// How well a dialect explains a sample.
pub open spec fn fit_spec(sample: Seq<char>, dialect: Dialect) -> FitM {
    let rs = parse_spec(sample, dialect);
    if rs.len() == 0 {
        no_fit()
    } else {
        let (a, w) = choose|a: int, w: int| is_mode(widths(rs), a, w);
        FitM { agreeing: a, records: rs.len() as int, width: w }
    }
}

/// A dialect that finds no delimiter reads every record as a single field,
/// which explains nothing.
pub open spec fn fits(f: FitM) -> bool {
    f.width >= 2
}

/// Compared as ratios, cross-multiplied; a wider table wins a tie.
pub open spec fn better(f: FitM, other: FitM) -> bool {
    let mine = f.agreeing * other.records;
    let theirs = other.agreeing * f.records;
    mine > theirs || (mine == theirs && f.width > other.width)
}

/// One candidate considered: it takes over when it fits and fits better.
pub open spec fn consider(sample: Seq<char>, best: (FitM, Dialect), candidate: Dialect) -> (
    FitM,
    Dialect,
) {
    let f = fit_spec(sample, candidate);
    if fits(f) && better(f, best.0) {
        (f, candidate)
    } else {
        best
    }
}

/// The dialect that best explains these bytes: comma, tab, semicolon, pipe
/// and the ASCII separators considered in that order, and a comma when none
/// of them fits.
pub open spec fn sniff_spec(bytes: Seq<u8>) -> Dialect {
    let s = sample_spec(bytes);
    let start = (no_fit(), Dialect::spec_comma());
    let a = consider(s, start, Dialect::spec_comma());
    let b = consider(s, a, Dialect::spec_tab());
    let c = consider(s, b, Dialect::spec_semicolon());
    let d = consider(s, c, Dialect::spec_pipe());
    let e = consider(s, d, Dialect::spec_unit_separator());
    e.1
}

proof fn lemma_valid_len(b: Seq<u8>, n: int)
    requires
        valid_up_to(b, n),
    ensures
        valid_len(b) == n,
{
    let m = valid_len(b);
    assert(valid_up_to(b, m));
    if m < n {
        assert(!valid_utf8(b.subrange(0, n)));
    } else if n < m {
        assert(!valid_utf8(b.subrange(0, m)));
    }
}

/// The leading part of the file to judge by.
fn sample(bytes: &[u8]) -> (r: Vec<char>)
    ensures
        r@ == sample_spec(bytes@),
{
    let marked = bytes.len() >= 3 && bytes[0] == 0xEF && bytes[1] == 0xBB && bytes[2] == 0xBF;
    proof {
        if bytes@.len() >= 3 {
            assert(marked == (bytes@.subrange(0, 3) =~= super::byte_order_mark()));
        }
    }
    let rest = if marked {
        slice_subrange(bytes, 3, bytes.len())
    } else {
        bytes
    };
    assert(rest@ == after_mark(bytes@));
    let truncated = rest.len() > SAMPLE_BYTES;
    let end = if truncated {
        SAMPLE_BYTES
    } else {
        rest.len()
    };
    let window = slice_subrange(rest, 0, end);
    let text = match utf8(window) {
        Ok(text) => chars_of(text),
        Err(n) => {
            proof {
                lemma_valid_len(window@, n as int);
            }
            let valid = slice_subrange(window, 0, n);
            match utf8(valid) {
                Ok(text) => chars_of(text),
                Err(_) => {
                    assert(false);
                    Vec::new()
                },
            }
        },
    };
    assert(text@ == readable(window@));
    if !truncated {
        return text;
    }
    let ghost goal = sample_spec(bytes@);
    assert(goal == if last_break(text@) >= 0 {
        text@.subrange(0, last_break(text@) + 1)
    } else {
        text@
    });
    assert(text@.subrange(0, text@.len() as int) =~= text@);
    let mut i: usize = text.len();
    while i > 0
        invariant
            i <= text@.len(),
            goal == sample_spec(bytes@),
            goal == if last_break(text@) >= 0 {
                text@.subrange(0, last_break(text@) + 1)
            } else {
                text@
            },
            last_break(text@) == last_break(text@.subrange(0, i as int)),
        decreases i,
    {
        let c = text[i - 1];
        proof {
            let pre = text@.subrange(0, i as int);
            assert(pre.last() == c);
            assert(pre.drop_last() =~= text@.subrange(0, i - 1));
        }
        if c == '\n' || c == RECORD_SEPARATOR {
            let mut cut: Vec<char> = Vec::new();
            let mut j: usize = 0;
            while j < i
                invariant
                    j <= i <= text@.len(),
                    cut@ == text@.subrange(0, j as int),
                decreases i - j,
            {
                cut.push(text[j]);
                j = j + 1;
                assert(cut@ =~= text@.subrange(0, j as int));
            }
            return cut;
        }
        i = i - 1;
    }
    proof {
        assert(text@.subrange(0, 0) =~= Seq::<char>::empty());
    }
    text
}

proof fn lemma_count_found(ws: Seq<int>, w: int)
    requires
        count_of(ws, w) > 0,
    ensures
        exists|i: int| 0 <= i < ws.len() && ws[i] == w,
    decreases ws.len(),
{
    if ws.last() == w {
        assert(ws[ws.len() - 1] == w);
    } else {
        lemma_count_found(ws.drop_last(), w);
        let i = choose|i: int| 0 <= i < ws.drop_last().len() && ws.drop_last()[i] == w;
        assert(ws[i] == w);
    }
}

proof fn lemma_mode_unique(ws: Seq<int>, a1: int, w1: int, a2: int, w2: int)
    requires
        is_mode(ws, a1, w1),
        is_mode(ws, a2, w2),
    ensures
        a1 == a2,
        w1 == w2,
{
    lemma_count_found(ws, w1);
    lemma_count_found(ws, w2);
    let i1 = choose|i: int| 0 <= i < ws.len() && ws[i] == w1;
    let i2 = choose|i: int| 0 <= i < ws.len() && ws[i] == w2;
    assert(count_of(ws, ws[i1]) <= a2);
    assert(count_of(ws, ws[i2]) <= a1);
}

proof fn lemma_count_push(ws: Seq<int>, x: int, w: int)
    ensures
        count_of(ws.push(x), w) == count_of(ws, w) + if x == w {
            1int
        } else {
            0int
        },
{
    assert(ws.push(x).drop_last() =~= ws);
}

proof fn lemma_count_bound(ws: Seq<int>, w: int)
    ensures
        0 <= count_of(ws, w) <= ws.len(),
    decreases ws.len(),
{
    if ws.len() > 0 {
        lemma_count_bound(ws.drop_last(), w);
    }
}

/// How well one dialect explains the sample.
fn measure(sample: &Vec<char>, dialect: Dialect) -> (r: Fit)
    ensures
        r@ == fit_spec(sample@, dialect),
{
    let records = parse(sample, dialect);
    let ghost rs = records_view(records@);
    if records.len() == 0 {
        return Fit { agreeing: 0, records: 1, width: 0 };
    }
    let ghost ws = widths(rs);
    let mut widest: usize = 0;
    let mut k: usize = 0;
    while k < records.len()
        invariant
            k <= records@.len(),
            rs == records_view(records@),
            ws == widths(rs),
            forall|j: int| 0 <= j < k ==> ws[j] <= widest,
        decreases records@.len() - k,
    {
        let w = records[k].fields.len();
        assert(ws[k as int] == w);
        if w > widest {
            widest = w;
        }
        k = k + 1;
    }
    let mut counts: Vec<usize> = Vec::new();
    while counts.len() <= widest
        invariant
            counts@.len() <= widest + 1,
            forall|y: int| 0 <= y < counts@.len() ==> counts@[y] == 0,
        decreases widest + 1 - counts@.len(),
    {
        counts.push(0);
    }
    assert(counts@.len() == widest + 1);
    let mut k: usize = 0;
    while k < records.len()
        invariant
            k <= records@.len(),
            rs == records_view(records@),
            ws == widths(rs),
            counts@.len() == widest + 1,
            forall|j: int| 0 <= j < ws.len() ==> ws[j] <= widest,
            forall|y: int| 0 <= y <= widest ==> counts@[y] == count_of(ws.subrange(0, k as int), y),
        decreases records@.len() - k,
    {
        let w = records[k].fields.len();
        assert(ws[k as int] == w);
        proof {
            lemma_count_bound(ws.subrange(0, k as int), w as int);
        }
        counts.set(w, counts[w] + 1);
        proof {
            assert(ws.subrange(0, k + 1 as int) =~= ws.subrange(0, k as int).push(w as int));
            assert forall|y: int| 0 <= y <= widest implies counts@[y] == count_of(
                ws.subrange(0, k + 1 as int),
                y,
            ) by {
                lemma_count_push(ws.subrange(0, k as int), w as int, y);
            }
        }
        k = k + 1;
    }
    assert(ws.subrange(0, ws.len() as int) =~= ws);
    let mut best: usize = 0;
    let mut width: usize = 0;
    let mut y: usize = 0;
    while y < counts.len()
        invariant
            y <= widest + 1,
            counts@.len() == widest + 1,
            forall|z: int| 0 <= z <= widest ==> counts@[z] == count_of(ws, z),
            forall|z: int| 0 <= z < y ==> counts@[z] <= best,
            forall|z: int| 0 <= z < y && counts@[z] == best ==> width <= z,
            best > 0 ==> width < y && counts@[width as int] == best,
            best == 0 ==> width == 0,
        decreases widest + 1 - y,
    {
        if counts[y] > best {
            best = counts[y];
            width = y;
        }
        y = y + 1;
    }
    proof {
        assert(ws[0] <= widest);
        lemma_count_push(ws.drop_last(), ws.last(), ws[0]);
        assert(ws.drop_last().push(ws.last()) =~= ws);
        lemma_count_at_least_one(ws, 0);
        assert(counts@[ws[0]] >= 1);
        assert(best >= 1);
        assert forall|i: int| 0 <= i < ws.len() implies count_of(ws, #[trigger] ws[i]) <= best by {
            assert(0 <= ws[i] <= widest);
            assert(counts@[ws[i]] == count_of(ws, ws[i]));
        }
        assert forall|i: int| 0 <= i < ws.len() && count_of(ws, #[trigger] ws[i]) == best implies width <= ws[i] by {
            assert(0 <= ws[i] <= widest);
            assert(counts@[ws[i]] == count_of(ws, ws[i]));
        }
        assert(is_mode(ws, best as int, width as int));
        let (a, w) = choose|a: int, w: int| is_mode(ws, a, w);
        lemma_mode_unique(ws, a, w, best as int, width as int);
    }
    Fit { agreeing: best, records: records.len(), width }
}

proof fn lemma_count_at_least_one(ws: Seq<int>, i: int)
    requires
        0 <= i < ws.len(),
    ensures
        count_of(ws, ws[i]) >= 1,
    decreases ws.len(),
{
    lemma_count_bound(ws.drop_last(), ws[i]);
    if i < ws.len() - 1 {
        assert(ws.drop_last()[i] == ws[i]);
        lemma_count_at_least_one(ws.drop_last(), i);
    }
}

impl Fit {
    fn fits(&self) -> (r: bool)
        ensures
            r == fits(self@),
    {
        self.width >= 2
    }

    fn better_than(&self, other: &Fit) -> (r: bool)
        ensures
            r == better(self@, other@),
    {
        let a: u128 = self.agreeing as u128;
        let b: u128 = other.records as u128;
        let c: u128 = other.agreeing as u128;
        let d: u128 = self.records as u128;
        assert(a * b <= 0xFFFF_FFFF_FFFF_FFFF * 0xFFFF_FFFF_FFFF_FFFF) by (nonlinear_arith)
            requires
                a <= 0xFFFF_FFFF_FFFF_FFFF,
                b <= 0xFFFF_FFFF_FFFF_FFFF,
        ;
        assert(c * d <= 0xFFFF_FFFF_FFFF_FFFF * 0xFFFF_FFFF_FFFF_FFFF) by (nonlinear_arith)
            requires
                c <= 0xFFFF_FFFF_FFFF_FFFF,
                d <= 0xFFFF_FFFF_FFFF_FFFF,
        ;
        let mine = a * b;
        let theirs = c * d;
        mine > theirs || (mine == theirs && self.width > other.width)
    }
}

/// The dialect that best explains these bytes, or a comma when none of them
/// do. A single-column file and an empty one both come back as comma.
pub fn sniff(bytes: &[u8]) -> (r: Dialect)
    ensures
        r == sniff_spec(bytes@),
{
    let text = sample(bytes);
    let ghost s = text@;
    let mut best = Fit { agreeing: 0, records: 1, width: 0 };
    let mut chosen = Dialect::comma();
    let candidates = [
        Dialect::comma(),
        Dialect::tab(),
        Dialect::semicolon(),
        Dialect::pipe(),
        Dialect::unit_separator(),
    ];
    let ghost start = (no_fit(), Dialect::spec_comma());
    let ghost a = consider(s, start, Dialect::spec_comma());
    let ghost b = consider(s, a, Dialect::spec_tab());
    let ghost c = consider(s, b, Dialect::spec_semicolon());
    let ghost d = consider(s, c, Dialect::spec_pipe());
    let ghost e = consider(s, d, Dialect::spec_unit_separator());
    let ghost steps = seq![start, a, b, c, d, e];
    let mut k: usize = 0;
    while k < 5
        invariant
            k <= 5,
            s == text@,
            steps == seq![start, a, b, c, d, e],
            candidates@ == seq![
                Dialect::spec_comma(),
                Dialect::spec_tab(),
                Dialect::spec_semicolon(),
                Dialect::spec_pipe(),
                Dialect::spec_unit_separator(),
            ],
            forall|j: int| 0 <= j < 5 ==> steps[j + 1] == consider(s, steps[j], #[trigger] candidates@[j]),
            best@ == steps[k as int].0,
            chosen == steps[k as int].1,
        decreases 5 - k,
    {
        let candidate = candidates[k];
        let fit = measure(&text, candidate);
        if fit.fits() && fit.better_than(&best) {
            best = fit;
            chosen = candidate;
        }
        k = k + 1;
    }
    chosen
}

/// What a field looks like, coarsely enough to be right about files rather
/// than about values.
#[derive(PartialEq, Eq, Structural)]
pub enum Kind {
    Blank,
    Number,
    Text,
}

/// Anything holding digits and no letters counts as a number: dates, money,
/// part numbers, a zip code with a leading zero.
pub open spec fn kind_spec(value: Seq<char>) -> Kind {
    let t = trim(value);
    if t.len() == 0 {
        Kind::Blank
    } else if (exists|i: int| 0 <= i < t.len() && alphabetic(#[trigger] t[i])) || !(exists|i: int|
        0 <= i < t.len() && is_digit(#[trigger] t[i])) {
        Kind::Text
    } else {
        Kind::Number
    }
}

fn kind(value: &str) -> (r: Kind)
    ensures
        r == kind_spec(value@),
{
    let chars = chars_of(value);
    let (start, end) = trim_bounds(chars.as_slice());
    let ghost t = trim(value@);
    if start == end {
        return Kind::Blank;
    }
    let mut letter = false;
    let mut digit = false;
    let mut i: usize = start;
    while i < end
        invariant
            start <= i <= end <= chars@.len(),
            t == chars@.subrange(start as int, end as int),
            letter == exists|j: int| 0 <= j < i - start && alphabetic(#[trigger] t[j]),
            digit == exists|j: int| 0 <= j < i - start && is_digit(#[trigger] t[j]),
        decreases end - i,
    {
        let c = chars[i];
        assert(t[i - start] == c);
        if is_alphabetic(c) {
            letter = true;
        }
        if '0' <= c && c <= '9' {
            digit = true;
        }
        i = i + 1;
    }
    if letter || !digit {
        Kind::Text
    } else {
        Kind::Number
    }
}

/// The value of a record's field in a column, empty where it does not reach.
pub open spec fn field_of(record: RecordM, column: int) -> Seq<char> {
    if 0 <= column < record.fields.len() {
        record.fields[column].value
    } else {
        Seq::empty()
    }
}

/// What one column says about the record above it: `Some(true)` for titles,
/// `Some(false)` for data, and nothing when it says nothing. A column only
/// speaks when its body is figures throughout, blanks passed over; then the
/// record on top is one more figure, or a title.
pub open spec fn reading_spec(first: RecordM, body: Seq<RecordM>, column: int) -> Option<bool> {
    if exists|i: int| 0 <= i < body.len() && kind_spec(field_of(#[trigger] body[i], column)) == Kind::Text {
        None
    } else if !(exists|i: int| 0 <= i < body.len() && kind_spec(field_of(#[trigger] body[i], column)) == Kind::Number) {
        None
    } else {
        Some(kind_spec(field_of(first, column)) != Kind::Number)
    }
}

/// How many of the first `n` columns read as `titles`.
pub open spec fn columns_reading(first: RecordM, body: Seq<RecordM>, n: int, titles: bool) -> int
    decreases n,
{
    if n <= 0 {
        0
    } else {
        columns_reading(first, body, n - 1, titles) + if reading_spec(first, body, n - 1) == Some(
            titles,
        ) {
            1int
        } else {
            0int
        }
    }
}

/// Whether a record would make a decent set of titles: it names every
/// column, and names them apart.
pub open spec fn names_columns(record: RecordM) -> bool {
    &&& forall|i: int| 0 <= i < record.fields.len() ==> trim(#[trigger] record.fields[i].value).len() > 0
    &&& forall|i: int, j: int|
        0 <= i < j < record.fields.len() ==> trim(#[trigger] record.fields[i].value) != trim(
            #[trigger] record.fields[j].value,
        )
}

/// Whether the first record of these bytes is column titles rather than
/// data. With no record under it there is nothing named; otherwise the
/// columns vote, and when they are silent or tied the record decides by
/// whether it names its columns.
pub open spec fn sniff_header_spec(bytes: Seq<u8>, dialect: Dialect) -> bool {
    let rs = parse_spec(sample_spec(bytes), dialect);
    if rs.len() < 2 {
        false
    } else {
        let first = rs[0];
        let body = rs.subrange(1, rs.len() as int);
        let n = first.fields.len() as int;
        let titles = columns_reading(first, body, n, true);
        let data = columns_reading(first, body, n, false);
        if titles != data {
            titles > data
        } else {
            names_columns(first)
        }
    }
}

fn field(record: &Record, column: usize) -> (r: &str)
    ensures
        r@ == field_of(record@, column as int),
{
    if column < record.fields.len() {
        record.fields[column].value.as_str()
    } else {
        proof {
            reveal_strlit("");
        }
        ""
    }
}

fn reading(records: &Vec<Record>, column: usize) -> (r: Option<bool>)
    requires
        records@.len() >= 2,
    ensures
        r == reading_spec(
            records_view(records@)[0],
            records_view(records@).subrange(1, records@.len() as int),
            column as int,
        ),
{
    let ghost rs = records_view(records@);
    let ghost body = rs.subrange(1, rs.len() as int);
    let mut figures: usize = 0;
    let mut k: usize = 1;
    while k < records.len()
        invariant
            1 <= k <= records@.len(),
            rs == records_view(records@),
            body == rs.subrange(1, rs.len() as int),
            forall|i: int| 0 <= i < k - 1 ==> kind_spec(field_of(#[trigger] body[i], column as int)) != Kind::Text,
            (figures > 0) == exists|i: int| 0 <= i < k - 1 && kind_spec(field_of(#[trigger] body[i], column as int)) == Kind::Number,
            figures <= k,
        decreases records@.len() - k,
    {
        assert(body[k - 1] == records@[k as int]@);
        match kind(field(&records[k], column)) {
            Kind::Number => {
                figures = figures + 1;
            },
            Kind::Blank => {},
            Kind::Text => {
                return None;
            },
        }
        k = k + 1;
    }
    if figures == 0 {
        return None;
    }
    match kind(field(&records[0], column)) {
        Kind::Number => Some(false),
        _ => Some(true),
    }
}

/// Whether a record names every column, and names them apart.
fn names_its_columns(record: &Record) -> (r: bool)
    ensures
        r == names_columns(record@),
{
    let ghost fs = record@.fields;
    let mut named: Vec<Vec<char>> = Vec::new();
    let mut i: usize = 0;
    while i < record.fields.len()
        invariant
            i <= record.fields@.len(),
            fs == record@.fields,
            named@.len() == i,
            forall|j: int| 0 <= j < i ==> named@[j]@ == trim(#[trigger] fs[j].value),
            forall|j: int| 0 <= j < i ==> trim(#[trigger] fs[j].value).len() > 0,
            forall|j: int, k: int| 0 <= j < k < i ==> trim(#[trigger] fs[j].value) != trim(#[trigger] fs[k].value),
        decreases record.fields@.len() - i,
    {
        let chars = chars_of(record.fields[i].value.as_str());
        assert(chars@ == fs[i as int].value);
        let (start, end) = trim_bounds(chars.as_slice());
        if start == end {
            assert(trim(fs[i as int].value).len() == 0);
            return false;
        }
        let mut value: Vec<char> = Vec::new();
        let mut p: usize = start;
        while p < end
            invariant
                start <= p <= end <= chars@.len(),
                value@ == chars@.subrange(start as int, p as int),
            decreases end - p,
        {
            value.push(chars[p]);
            p = p + 1;
            assert(value@ =~= chars@.subrange(start as int, p as int));
        }
        let mut j: usize = 0;
        while j < named.len()
            invariant
                j <= named@.len(),
                named@.len() == i,
                i < fs.len(),
                fs == record@.fields,
                forall|q: int| 0 <= q < i ==> named@[q]@ == trim(#[trigger] fs[q].value),
                value@ == trim(fs[i as int].value),
                forall|q: int| 0 <= q < j ==> trim(#[trigger] fs[q].value) != value@,
            decreases named@.len() - j,
        {
            if super::serialize::same_chars(named[j].as_slice(), value.as_slice()) {
                assert(trim(fs[j as int].value) == trim(fs[i as int].value));
                return false;
            }
            j = j + 1;
        }
        named.push(value);
        i = i + 1;
    }
    true
}

/// Whether the first record of these bytes is column titles rather than data.
///
/// When no column has anything to say, the answer is yes: a header mistaken
/// for data costs more than data mistaken for a header.
pub fn sniff_header(bytes: &[u8], dialect: Dialect) -> (r: bool)
    ensures
        r == sniff_header_spec(bytes@, dialect),
{
    let text = sample(bytes);
    let records = parse(&text, dialect);
    let ghost rs = records_view(records@);
    if records.len() < 2 {
        return false;
    }
    let ghost first = rs[0];
    let ghost body = rs.subrange(1, rs.len() as int);
    let width = records[0].fields.len();
    let mut titles: usize = 0;
    let mut data: usize = 0;
    let mut column: usize = 0;
    while column < width
        invariant
            column <= width,
            records@.len() >= 2,
            rs == records_view(records@),
            first == rs[0],
            body == rs.subrange(1, rs.len() as int),
            titles == columns_reading(first, body, column as int, true),
            data == columns_reading(first, body, column as int, false),
            titles + data <= column,
        decreases width - column,
    {
        match reading(&records, column) {
            Some(true) => titles = titles + 1,
            Some(false) => data = data + 1,
            None => {},
        }
        column = column + 1;
    }
    if titles != data {
        return titles > data;
    }
    names_its_columns(&records[0])
}

/// Blanks in the body are passed over: taking out a record that is blank in a
/// column leaves what that column says about the first record unchanged.
pub proof fn lemma_blank_rows_pass_over(first: RecordM, body: Seq<RecordM>, column: int, i: int)
    requires
        0 <= i < body.len(),
        kind_spec(field_of(body[i], column)) == Kind::Blank,
    ensures
        reading_spec(first, body, column) == reading_spec(first, body.remove(i), column),
{
    let rest = body.remove(i);
    assert forall|j: int| 0 <= j < rest.len() implies #[trigger] rest[j] == body[if j < i { j } else { j + 1 }] by {}
    if exists|j: int| 0 <= j < body.len() && kind_spec(field_of(#[trigger] body[j], column)) == Kind::Text {
        let j = choose|j: int| 0 <= j < body.len() && kind_spec(field_of(#[trigger] body[j], column)) == Kind::Text;
        let k = if j < i { j } else { j - 1 };
        assert(rest[k] == body[j]);
    }
    if exists|j: int| 0 <= j < body.len() && kind_spec(field_of(#[trigger] body[j], column)) == Kind::Number {
        let j = choose|j: int| 0 <= j < body.len() && kind_spec(field_of(#[trigger] body[j], column)) == Kind::Number;
        let k = if j < i { j } else { j - 1 };
        assert(rest[k] == body[j]);
    }
}

/// A column of figures with gaps in it is still a column of figures: when
/// no record of the body has text in the column and one has a figure, the
/// column says the first record is titles exactly when its own value there
/// is not a figure.
pub proof fn lemma_figures_with_gaps_speak(first: RecordM, body: Seq<RecordM>, column: int, j: int)
    requires
        forall|i: int| 0 <= i < body.len() ==> kind_spec(field_of(#[trigger] body[i], column)) != Kind::Text,
        0 <= j < body.len(),
        kind_spec(field_of(body[j], column)) == Kind::Number,
    ensures
        reading_spec(first, body, column) == Some(kind_spec(field_of(first, column)) != Kind::Number),
{
}

} // verus!
