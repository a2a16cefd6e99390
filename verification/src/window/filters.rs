//! The words a filter in force reads as.

use vstd::prelude::*;
use crate::filter::{Condition, Operator, values_of};
use crate::text::{chars_of, string_of};

verus! {

/// A sentence with its placeholders filled in, in one pass: `%c` takes the
/// column's name, `%v` the value and `%w` the far end of a range. Any other
/// `%` and the character after it are left as they stand, and so is a `%`
/// that ends the sentence.
pub open spec fn filled(sentence: Seq<char>, column: Seq<char>, first: Seq<char>, second: Seq<char>) -> Seq<char>
    decreases sentence.len(),
{
    if sentence.len() == 0 {
        Seq::empty()
    } else if sentence[0] != '%' {
        seq![sentence[0]] + filled(sentence.drop_first(), column, first, second)
    } else if sentence.len() == 1 {
        seq!['%']
    } else {
        let rest = sentence.subrange(2, sentence.len() as int);
        (if sentence[1] == 'c' {
            column
        } else if sentence[1] == 'v' {
            first
        } else if sentence[1] == 'w' {
            second
        } else {
            seq!['%', sentence[1]]
        }) + filled(rest, column, first, second)
    }
}

/// Puts the parts of a description into their places, in one pass, so that a
/// column named `%v` goes in as a name rather than being read as somewhere to
/// put something else.
pub fn fill(sentence: &str, column: &str, first: &str, second: &str) -> (r: String)
    ensures
        r@ == filled(sentence@, column@, first@, second@),
{
    let s = chars_of(sentence);
    let c = chars_of(column);
    let v = chars_of(first);
    let w = chars_of(second);
    let mut out: Vec<char> = Vec::new();
    let mut i: usize = 0;
    assert(s@.subrange(0, s@.len() as int) =~= s@);
    while i < s.len()
        invariant
            i <= s@.len(),
            s@ == sentence@,
            c@ == column@,
            v@ == first@,
            w@ == second@,
            filled(s@, c@, v@, w@) == out@ + filled(s@.subrange(i as int, s@.len() as int), c@, v@, w@),
        decreases s@.len() - i,
    {
        let ghost rest = s@.subrange(i as int, s@.len() as int);
        assert(rest[0] == s@[i as int]);
        if s[i] != '%' {
            out.push(s[i]);
            assert(rest.drop_first() =~= s@.subrange(i + 1, s@.len() as int));
            i = i + 1;
        } else if i + 1 == s.len() {
            out.push('%');
            i = i + 1;
            assert(s@.subrange(i as int, s@.len() as int) =~= Seq::<char>::empty());
        } else {
            assert(rest[1] == s@[i + 1]);
            assert(rest.subrange(2, rest.len() as int) =~= s@.subrange(i + 2, s@.len() as int));
            let next = s[i + 1];
            if next == 'c' {
                crate::document::append(&mut out, c.as_slice());
            } else if next == 'v' {
                crate::document::append(&mut out, v.as_slice());
            } else if next == 'w' {
                crate::document::append(&mut out, w.as_slice());
            } else {
                out.push('%');
                out.push(next);
            }
            i = i + 2;
        }
    }
    string_of(out.as_slice())
}

/// The sentence a condition with this operator is described with, before
/// translation: `%c` stands for the column, `%v` and `%w` for the values.
pub open spec fn sentence_of(operator: Operator) -> Seq<char> {
    match operator {
        Operator::Contains => "%c contains %v"@,
        Operator::DoesNotContain => "%c does not contain %v"@,
        Operator::Is => "%c is %v"@,
        Operator::IsNot => "%c is not %v"@,
        Operator::IsEmpty => "%c is empty"@,
        Operator::IsNotEmpty => "%c is not empty"@,
        Operator::GreaterThan => "%c is greater than %v"@,
        Operator::LessThan => "%c is less than %v"@,
        Operator::Between => "%c is between %v and %w"@,
    }
}

/// The sentence a condition is described with, before translation: the
/// message the window asks the user's language for.
pub fn sentence_for(operator: Operator) -> (r: &'static str)
    ensures
        r@ == sentence_of(operator),
{
    match operator {
        Operator::Contains => "%c contains %v",
        Operator::DoesNotContain => "%c does not contain %v",
        Operator::Is => "%c is %v",
        Operator::IsNot => "%c is not %v",
        Operator::IsEmpty => "%c is empty",
        Operator::IsNotEmpty => "%c is not empty",
        Operator::GreaterThan => "%c is greater than %v",
        Operator::LessThan => "%c is less than %v",
        Operator::Between => "%c is between %v and %w",
    }
}

/// What a condition reads as on its chip: `sentence`, the condition's
/// sentence in the user's language, with the column's title and the
/// condition's values put where it asks for them.
pub fn describe(title: &str, condition: &Condition, sentence: &str) -> (r: String)
    ensures
        r@ == filled(sentence@, title@, values_of(condition@).0, values_of(condition@).1),
{
    let (first, second) = condition.values();
    fill(sentence, title, first, second)
}

} // verus!
