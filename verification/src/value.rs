//! What kind of thing a value is, and what order values go in.
//!
//! Sorting and filtering both read a value to decide where it belongs, and
//! they agree about what they are reading because both ask here. A value's
//! kind decides where it sits among the others and nothing else: the file is
//! never rewritten by it.
//!
//! Text is put in the order of the reader's language, which only the platform
//! knows. Every comparison here that may fall to text order is therefore
//! handed that order, `collated`, as the platform gave it for the same two
//! values, and uses it exactly where text meets text.

use std::cmp::Ordering;
use vstd::prelude::*;
use crate::decimal::{Decimal, Scalar, scalar_of, order, order_of, read, widened, lemma_order_total};
use crate::text::{is_blank, trim, chars_of, trim_bounds, lemma_trim_empty_iff_blank};

verus! {

/// What a value is, as far as anything here is concerned.
///
/// A value holding only white space is blank rather than text. A number is
/// always a finite one: `NaN` and `inf` are words that turned up in a column.
#[derive(Debug, Clone, PartialEq)]
pub enum Kind<'a> {
    Number(Decimal),
    Text(&'a str),
    Blank,
}

/// What `kind` says of a value.
pub enum KindM {
    Number(Scalar),
    Text,
    Blank,
}

/// Whether a reading is a finite number.
pub open spec fn reads_finite(o: Option<Scalar>) -> bool {
    o matches Some(s) && (s is Zero || s is Finite)
}

/// The kind of a value: blank when it is all white space, a number when,
/// trimmed, it reads as a finite one, and text otherwise.
pub open spec fn kind_of(v: Seq<char>) -> KindM {
    if is_blank(v) {
        KindM::Blank
    } else if reads_finite(scalar_of(trim(v))) {
        KindM::Number(scalar_of(trim(v)).unwrap())
    } else {
        KindM::Text
    }
}

/// Which group a value sorts in: numbers, then text, then blanks.
pub open spec fn rank_of(v: Seq<char>) -> int {
    match kind_of(v) {
        KindM::Number(_) => 0,
        KindM::Text => 1,
        KindM::Blank => 2,
    }
}

/// An order as `decimal::order` gives one, with nothing read as level.
pub open spec fn ordering_of(o: Option<int>) -> Ordering {
    match o {
        Some(k) => if k < 0 {
            Ordering::Less
        } else if k > 0 {
            Ordering::Greater
        } else {
            Ordering::Equal
        },
        None => Ordering::Equal,
    }
}

/// The order a column goes in when it is sorted: numbers before text, text
/// before blanks, numbers by value, and the rest as `collated` says.
pub open spec fn sort_order(left: Seq<char>, right: Seq<char>, collated: Ordering) -> Ordering {
    if rank_of(left) < rank_of(right) {
        Ordering::Less
    } else if rank_of(left) > rank_of(right) {
        Ordering::Greater
    } else {
        match (kind_of(left), kind_of(right)) {
            (KindM::Number(x), KindM::Number(y)) => ordering_of(order(x, y)),
            _ => collated,
        }
    }
}

/// Where a value sits against another of the same kind: numbers by value,
/// text as `collated` says, and nothing across kinds or for a blank.
pub open spec fn alike_order(value: Seq<char>, against: Seq<char>, collated: Ordering) -> Option<
    Ordering,
> {
    match (kind_of(value), kind_of(against)) {
        (KindM::Number(x), KindM::Number(y)) => Some(ordering_of(order(x, y))),
        (KindM::Text, KindM::Text) => Some(collated),
        _ => None,
    }
}

/// `Ordering::reverse`.
pub open spec fn reversed(o: Ordering) -> Ordering {
    match o {
        Ordering::Less => Ordering::Greater,
        Ordering::Equal => Ordering::Equal,
        Ordering::Greater => Ordering::Less,
    }
}

/// The characters of `value` with white space taken off both ends.
pub fn trimmed(value: &str) -> (t: Vec<char>)
    ensures
        t@ == trim(value@),
{
    let chars = chars_of(value);
    let (start, end) = trim_bounds(chars.as_slice());
    let mut t: Vec<char> = Vec::new();
    let mut k: usize = start;
    while k < end
        invariant
            start <= k <= end <= chars@.len(),
            t@ == chars@.subrange(start as int, k as int),
        decreases end - k,
    {
        t.push(chars[k]);
        k = k + 1;
        assert(t@ =~= chars@.subrange(start as int, k as int));
    }
    t
}

fn is_finite(d: &Decimal) -> (r: bool)
    ensures
        r == (d@ is Zero || d@ is Finite),
{
    match d {
        Decimal::Zero => true,
        Decimal::Finite { .. } => true,
        _ => false,
    }
}

/// What kind of thing a value is.
pub fn kind(value: &str) -> (k: Kind<'_>)
    ensures
        match k {
            Kind::Number(d) => kind_of(value@) == KindM::Number(d@),
            Kind::Text(t) => kind_of(value@) == KindM::Text && t@ == value@,
            Kind::Blank => kind_of(value@) == KindM::Blank,
        },
{
    proof {
        lemma_trim_empty_iff_blank(value@);
    }
    let t = trimmed(value);
    if t.len() == 0 {
        return Kind::Blank;
    }
    match read(t.as_slice()) {
        Some(d) => {
            if is_finite(&d) {
                Kind::Number(d)
            } else {
                Kind::Text(value)
            }
        },
        None => Kind::Text(value),
    }
}

fn rank(value: &str) -> (r: u8)
    ensures
        r as int == rank_of(value@),
{
    match kind(value) {
        Kind::Number(_) => 0,
        Kind::Text(_) => 1,
        Kind::Blank => 2,
    }
}

/// The `Ordering` that `decimal::order_of` means.
pub fn ordering(o: Option<i8>) -> (r: Ordering)
    ensures
        r == ordering_of(widened(o)),
{
    match o {
        Some(k) => if k < 0 {
            Ordering::Less
        } else if k > 0 {
            Ordering::Greater
        } else {
            Ordering::Equal
        },
        None => Ordering::Equal,
    }
}

/// The order a column goes in when it is sorted: numbers before text, text
/// before blanks, and like with like within each group. `collated` is how the
/// reader's language orders `left` against `right` as text.
pub fn compare(left: &str, right: &str, collated: Ordering) -> (r: Ordering)
    ensures
        r == sort_order(left@, right@, collated),
{
    let a = rank(left);
    let b = rank(right);
    if a < b {
        return Ordering::Less;
    }
    if a > b {
        return Ordering::Greater;
    }
    match (kind(left), kind(right)) {
        (Kind::Number(x), Kind::Number(y)) => ordering(order_of(&x, &y)),
        _ => collated,
    }
}

/// Where a value sits relative to another when the two are the same kind of
/// thing, and nothing when they are not. `collated` is how the reader's
/// language orders `value` against `against` as text.
pub fn compare_alike(value: &str, against: &str, collated: Ordering) -> (r: Option<Ordering>)
    ensures
        r == alike_order(value@, against@, collated),
{
    match (kind(value), kind(against)) {
        (Kind::Number(x), Kind::Number(y)) => Some(ordering(order_of(&x, &y))),
        (Kind::Text(_), Kind::Text(_)) => Some(collated),
        _ => None,
    }
}

/// Sorting and filtering agree: wherever a value can be compared with another
/// of its kind, that comparison is the order the two would be sorted in.
pub proof fn lemma_filtering_agrees_with_sorting(
    value: Seq<char>,
    against: Seq<char>,
    collated: Ordering,
)
    requires
        alike_order(value, against, collated) is Some,
    ensures
        alike_order(value, against, collated) == Some(sort_order(value, against, collated)),
{
}

/// Sorting is the same whichever way round two values are asked about:
/// swapping them, and the text order between them, reverses the answer.
pub proof fn lemma_sort_order_reverses(left: Seq<char>, right: Seq<char>, collated: Ordering)
    ensures
        sort_order(right, left, reversed(collated)) == reversed(sort_order(left, right, collated)),
{
    if let (KindM::Number(x), KindM::Number(y)) = (kind_of(left), kind_of(right)) {
        lemma_order_total(x, y, y);
    }
}

/// Two numbers sort level only when they are the same number.
pub proof fn lemma_numbers_level_only_when_equal(
    left: Seq<char>,
    right: Seq<char>,
    collated: Ordering,
)
    requires
        kind_of(left) is Number,
        kind_of(right) is Number,
    ensures
        sort_order(left, right, collated) == Ordering::Equal <==> kind_of(left) == kind_of(right),
{
    if let (KindM::Number(x), KindM::Number(y)) = (kind_of(left), kind_of(right)) {
        lemma_order_total(x, y, y);
    }
}

/// With a text order that carries through from one value to the next, the
/// sort order does too: a value at or before a second, which is at or before
/// a third, is at or before the third.
pub proof fn lemma_sort_order_transitive(
    a: Seq<char>,
    b: Seq<char>,
    c: Seq<char>,
    collate: spec_fn(Seq<char>, Seq<char>) -> Ordering,
)
    requires
        forall|x: Seq<char>, y: Seq<char>, z: Seq<char>|
            #[trigger] collate(x, y) != Ordering::Greater && #[trigger] collate(y, z)
                != Ordering::Greater ==> collate(x, z) != Ordering::Greater,
        sort_order(a, b, collate(a, b)) != Ordering::Greater,
        sort_order(b, c, collate(b, c)) != Ordering::Greater,
    ensures
        sort_order(a, c, collate(a, c)) != Ordering::Greater,
{
    if rank_of(a) == rank_of(b) && rank_of(b) == rank_of(c) {
        if let (KindM::Number(x), KindM::Number(y), KindM::Number(z)) = (
            kind_of(a),
            kind_of(b),
            kind_of(c),
        ) {
            lemma_order_total(x, y, z);
        }
    }
}

} // verus!
