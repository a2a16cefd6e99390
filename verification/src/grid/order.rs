//! What order the grid puts values in when a column is sorted.
//!
//! A value's kind decides its group and only then its place: numbers before
//! text, text before nothing at all, so a column of mixed contents has one
//! settled order. Here a number is anything written the way a floating-point
//! number is read, infinities among them; `NaN` is not a number anything can
//! be put in order with, and sorts as the word it is.

use std::cmp::Ordering;
use vstd::prelude::*;
use crate::decimal::{Decimal, Scalar, scalar_of, order, order_of, read};
use crate::text::{is_blank, trim, lemma_trim_empty_iff_blank};
use crate::value::{ordering, ordering_of, reversed, trimmed};

verus! {

/// The number a value is read as in a sorted column: what it reads as,
/// trimmed, unless that is `NaN`.
pub open spec fn grid_number(v: Seq<char>) -> Option<Scalar> {
    match scalar_of(trim(v)) {
        Some(Scalar::NotANumber) => None,
        other => other,
    }
}

/// Which group a value sorts in: numbers, then text, then blanks.
pub open spec fn rank_of(v: Seq<char>) -> int {
    if is_blank(v) {
        2
    } else if grid_number(v) is Some {
        0
    } else {
        1
    }
}

/// The order of two values in a sorted column, `collated` being how the
/// reader's language orders them as text.
pub open spec fn grid_order(left: Seq<char>, right: Seq<char>, collated: Ordering) -> Ordering {
    if rank_of(left) < rank_of(right) {
        Ordering::Less
    } else if rank_of(left) > rank_of(right) {
        Ordering::Greater
    } else {
        match (grid_number(left), grid_number(right)) {
            (Some(x), Some(y)) => ordering_of(order(x, y)),
            _ => collated,
        }
    }
}

fn number(value: &str) -> (r: Option<Decimal>)
    ensures
        r is Some <==> grid_number(value@) is Some,
        r matches Some(d) ==> grid_number(value@) == Some(d@),
{
    let t = trimmed(value);
    match read(t.as_slice()) {
        Some(Decimal::NotANumber) => None,
        other => other,
    }
}

fn rank(value: &str) -> (r: u8)
    ensures
        r as int == rank_of(value@),
{
    proof {
        lemma_trim_empty_iff_blank(value@);
    }
    if trimmed(value).len() == 0 {
        2
    } else if number(value).is_some() {
        0
    } else {
        1
    }
}

/// The order of two values in a sorted column. `collated` is how the reader's
/// language orders `left` against `right` as text.
pub fn compare(left: &str, right: &str, collated: Ordering) -> (r: Ordering)
    ensures
        r == grid_order(left@, right@, collated),
{
    let a = rank(left);
    let b = rank(right);
    if a < b {
        return Ordering::Less;
    }
    if a > b {
        return Ordering::Greater;
    }
    match (number(left), number(right)) {
        (Some(x), Some(y)) => ordering(order_of(&x, &y)),
        _ => collated,
    }
}

/// Sorting is the same whichever way round two values are asked about.
pub proof fn lemma_grid_order_reverses(left: Seq<char>, right: Seq<char>, collated: Ordering)
    ensures
        grid_order(right, left, reversed(collated)) == reversed(grid_order(left, right, collated)),
{
    if let (Some(x), Some(y)) = (grid_number(left), grid_number(right)) {
        crate::decimal::lemma_order_total(x, y, y);
    }
}

/// With a text order that carries through, the grid's order carries through
/// too: a value at or before a second, which is at or before a third, is at
/// or before the third.
pub proof fn lemma_grid_order_transitive(
    a: Seq<char>,
    b: Seq<char>,
    c: Seq<char>,
    collate: spec_fn(Seq<char>, Seq<char>) -> Ordering,
)
    requires
        forall|x: Seq<char>, y: Seq<char>, z: Seq<char>|
            #[trigger] collate(x, y) != Ordering::Greater && #[trigger] collate(y, z)
                != Ordering::Greater ==> collate(x, z) != Ordering::Greater,
        grid_order(a, b, collate(a, b)) != Ordering::Greater,
        grid_order(b, c, collate(b, c)) != Ordering::Greater,
    ensures
        grid_order(a, c, collate(a, c)) != Ordering::Greater,
{
    if rank_of(a) == rank_of(b) && rank_of(b) == rank_of(c) {
        if rank_of(a) == 0 {
            let (x, y, z) = (
                grid_number(a).unwrap(),
                grid_number(b).unwrap(),
                grid_number(c).unwrap(),
            );
            crate::decimal::lemma_order_total(x, y, z);
        } else if rank_of(a) == 2 {
            lemma_trim_empty_iff_blank(a);
            lemma_trim_empty_iff_blank(b);
            lemma_trim_empty_iff_blank(c);
            assert(trim(a) =~= trim(b));
            assert(trim(b) =~= trim(c));
        }
    }
}

} // verus!
