//! The conditions a column can be held to, and which rows they leave showing.
//!
//! A filter is a view of the file and never a change to it: nothing here
//! writes. At most one condition holds per column, and the conditions in force
//! are joined by AND.
//!
//! Text is matched with case folded on both sides, as the search bar does, and
//! nothing is trimmed. The conditions that put a value in order against a
//! bound are handed how the reader's language orders the two as text, since
//! only the platform knows that.

use std::cmp::Ordering;
use vstd::prelude::*;
use crate::search::{contains, equals, contains_spec, equals_spec};
use crate::text::{is_blank, blank, chars_of, same_text};
use crate::value::{alike_order, compare_alike};

verus! {

/// What a condition asks, apart from what it asks it against, in the order
/// the picker offers them.
#[derive(Debug, Clone, Copy, PartialEq, Eq, Structural)]
pub enum Operator {
    Contains,
    DoesNotContain,
    Is,
    IsNot,
    IsEmpty,
    IsNotEmpty,
    GreaterThan,
    LessThan,
    Between,
}

/// The name an operator is written down under.
pub open spec fn id_of(operator: Operator) -> Seq<char> {
    match operator {
        Operator::Contains => "contains"@,
        Operator::DoesNotContain => "does-not-contain"@,
        Operator::Is => "is"@,
        Operator::IsNot => "is-not"@,
        Operator::IsEmpty => "is-empty"@,
        Operator::IsNotEmpty => "is-not-empty"@,
        Operator::GreaterThan => "greater-than"@,
        Operator::LessThan => "less-than"@,
        Operator::Between => "between"@,
    }
}

/// Every operator in the picker's order.
pub open spec fn all_operators() -> Seq<Operator> {
    seq![
        Operator::Contains,
        Operator::DoesNotContain,
        Operator::Is,
        Operator::IsNot,
        Operator::IsEmpty,
        Operator::IsNotEmpty,
        Operator::GreaterThan,
        Operator::LessThan,
        Operator::Between,
    ]
}

/// The first of `operators` written down as `id`.
pub open spec fn first_named(operators: Seq<Operator>, id: Seq<char>) -> Option<Operator>
    decreases operators.len(),
{
    if operators.len() == 0 {
        None
    } else if id_of(operators[0]) == id {
        Some(operators[0])
    } else {
        first_named(operators.drop_first(), id)
    }
}

/// The operator written down as `id`, looked for in the picker's order.
pub open spec fn operator_named(id: Seq<char>) -> Option<Operator> {
    first_named(all_operators(), id)
}

/// How many values an operator takes.
pub open spec fn arity(operator: Operator) -> int {
    match operator {
        Operator::IsEmpty | Operator::IsNotEmpty => 0,
        Operator::Between => 2,
        _ => 1,
    }
}

/// Where one text stands against another in the reader's language, as the
/// platform collates them.
#[derive(Debug, Clone, Copy, PartialEq, Eq, Structural)]
pub enum Collated {
    Less,
    Equal,
    Greater,
}

/// The `Ordering` a collation stands for.
pub open spec fn ordering_for(c: Collated) -> Ordering {
    match c {
        Collated::Less => Ordering::Less,
        Collated::Equal => Ordering::Equal,
        Collated::Greater => Ordering::Greater,
    }
}

/// The collation an `Ordering` reports.
pub fn collated_from(o: Ordering) -> (r: Collated)
    ensures
        ordering_for(r) == o,
{
    match o {
        Ordering::Less => Collated::Less,
        Ordering::Equal => Collated::Equal,
        Ordering::Greater => Collated::Greater,
    }
}

fn ordering_of_collated(c: Collated) -> (r: Ordering)
    ensures
        r == ordering_for(c),
{
    match c {
        Collated::Less => Ordering::Less,
        Collated::Equal => Ordering::Equal,
        Collated::Greater => Ordering::Greater,
    }
}

/// One operator and what it asks against.
#[derive(Debug, Clone, PartialEq, Eq)]
pub enum Condition {
    Contains(String),
    DoesNotContain(String),
    Is(String),
    IsNot(String),
    IsEmpty,
    IsNotEmpty,
    GreaterThan(String),
    LessThan(String),
    Between(String, String),
}

/// A condition as its text.
pub enum ConditionM {
    Contains(Seq<char>),
    DoesNotContain(Seq<char>),
    Is(Seq<char>),
    IsNot(Seq<char>),
    IsEmpty,
    IsNotEmpty,
    GreaterThan(Seq<char>),
    LessThan(Seq<char>),
    Between(Seq<char>, Seq<char>),
}

impl View for Condition {
    type V = ConditionM;

    open spec fn view(&self) -> ConditionM {
        match self {
            Condition::Contains(t) => ConditionM::Contains(t@),
            Condition::DoesNotContain(t) => ConditionM::DoesNotContain(t@),
            Condition::Is(t) => ConditionM::Is(t@),
            Condition::IsNot(t) => ConditionM::IsNot(t@),
            Condition::IsEmpty => ConditionM::IsEmpty,
            Condition::IsNotEmpty => ConditionM::IsNotEmpty,
            Condition::GreaterThan(t) => ConditionM::GreaterThan(t@),
            Condition::LessThan(t) => ConditionM::LessThan(t@),
            Condition::Between(f, t) => ConditionM::Between(f@, t@),
        }
    }
}

/// The operator a condition was made with.
pub open spec fn operator_of(c: ConditionM) -> Operator {
    match c {
        ConditionM::Contains(_) => Operator::Contains,
        ConditionM::DoesNotContain(_) => Operator::DoesNotContain,
        ConditionM::Is(_) => Operator::Is,
        ConditionM::IsNot(_) => Operator::IsNot,
        ConditionM::IsEmpty => Operator::IsEmpty,
        ConditionM::IsNotEmpty => Operator::IsNotEmpty,
        ConditionM::GreaterThan(_) => Operator::GreaterThan,
        ConditionM::LessThan(_) => Operator::LessThan,
        ConditionM::Between(_, _) => Operator::Between,
    }
}

/// What a condition was asked against, as the picker's two entries: an
/// operator taking fewer values leaves the rest empty.
pub open spec fn values_of(c: ConditionM) -> (Seq<char>, Seq<char>) {
    match c {
        ConditionM::IsEmpty | ConditionM::IsNotEmpty => (Seq::empty(), Seq::empty()),
        ConditionM::Contains(v) | ConditionM::DoesNotContain(v) | ConditionM::Is(v)
        | ConditionM::IsNot(v) | ConditionM::GreaterThan(v) | ConditionM::LessThan(v) => (
            v,
            Seq::empty(),
        ),
        ConditionM::Between(f, t) => (f, t),
    }
}

/// The condition an operator makes of two entries, or nothing when an entry
/// it needs is blank.
pub open spec fn built(operator: Operator, first: Seq<char>, second: Seq<char>) -> Option<
    ConditionM,
> {
    match operator {
        Operator::IsEmpty => Some(ConditionM::IsEmpty),
        Operator::IsNotEmpty => Some(ConditionM::IsNotEmpty),
        Operator::Between => if is_blank(first) || is_blank(second) {
            None
        } else {
            Some(ConditionM::Between(first, second))
        },
        _ => if is_blank(first) {
            None
        } else {
            Some(
                match operator {
                    Operator::Contains => ConditionM::Contains(first),
                    Operator::DoesNotContain => ConditionM::DoesNotContain(first),
                    Operator::Is => ConditionM::Is(first),
                    Operator::IsNot => ConditionM::IsNot(first),
                    Operator::GreaterThan => ConditionM::GreaterThan(first),
                    _ => ConditionM::LessThan(first),
                },
            )
        },
    }
}

/// Whether a value falls one of the `ways` against a bound. A value of
/// another kind falls no way at all.
pub open spec fn falls(value: Seq<char>, bound: Seq<char>, collated: Ordering, ways: Seq<Ordering>) -> bool {
    alike_order(value, bound, collated) matches Some(o) && ways.contains(o)
}

/// Whether one cell meets a condition. `collated` is how the reader's
/// language orders the cell against the condition's first and second values.
pub open spec fn meets(c: ConditionM, value: Seq<char>, collated: (Collated, Collated)) -> bool {
    let first = ordering_for(collated.0);
    let second = ordering_for(collated.1);
    match c {
        ConditionM::Contains(t) => contains_spec(value, t),
        ConditionM::DoesNotContain(t) => !contains_spec(value, t),
        ConditionM::Is(t) => equals_spec(value, t),
        ConditionM::IsNot(t) => !equals_spec(value, t),
        ConditionM::IsEmpty => is_blank(value),
        ConditionM::IsNotEmpty => !is_blank(value),
        ConditionM::GreaterThan(b) => falls(value, b, first, seq![Ordering::Greater]),
        ConditionM::LessThan(b) => falls(value, b, first, seq![Ordering::Less]),
        ConditionM::Between(f, t) => falls(value, f, first, seq![Ordering::Greater, Ordering::Equal])
            && falls(value, t, second, seq![Ordering::Less, Ordering::Equal]),
    }
}

/// A copy of a string.
fn copy_string(s: &String) -> (r: String)
    ensures
        r@ == s@,
{
    s.as_str().to_owned()
}

impl Operator {
    /// What the operator is called where its name has to survive being
    /// written down.
    pub fn id(self) -> (r: &'static str)
        ensures
            r@ == id_of(self),
    {
        match self {
            Operator::Contains => "contains",
            Operator::DoesNotContain => "does-not-contain",
            Operator::Is => "is",
            Operator::IsNot => "is-not",
            Operator::IsEmpty => "is-empty",
            Operator::IsNotEmpty => "is-not-empty",
            Operator::GreaterThan => "greater-than",
            Operator::LessThan => "less-than",
            Operator::Between => "between",
        }
    }

    /// The operator written down as `id`, if any is.
    pub fn from_id(id: &str) -> (r: Option<Operator>)
        ensures
            r == operator_named(id@),
    {
        let all = Self::all();
        let ghost looked = all_operators();
        let mut i: usize = 0;
        assert(looked.subrange(0, looked.len() as int) =~= looked);
        while i < all.len()
            invariant
                all@ == looked,
                looked == all_operators(),
                i <= looked.len(),
                first_named(looked, id@) == first_named(looked.subrange(i as int, looked.len() as int), id@),
            decreases looked.len() - i,
        {
            let ghost rest = looked.subrange(i as int, looked.len() as int);
            assert(rest[0] == all@[i as int]);
            if same_text(all[i].id(), id) {
                return Some(all[i]);
            }
            assert(rest.drop_first() =~= looked.subrange(i + 1, looked.len() as int));
            i = i + 1;
        }
        None
    }

    /// Every operator, in the order the picker lists them.
    pub fn all() -> (r: Vec<Operator>)
        ensures
            r@ == all_operators(),
    {
        let r = vec![
            Operator::Contains,
            Operator::DoesNotContain,
            Operator::Is,
            Operator::IsNot,
            Operator::IsEmpty,
            Operator::IsNotEmpty,
            Operator::GreaterThan,
            Operator::LessThan,
            Operator::Between,
        ];
        assert(r@ =~= all_operators());
        r
    }

    /// How many values the operator needs before it means anything.
    pub fn values(self) -> (r: usize)
        ensures
            r == arity(self),
    {
        match self {
            Operator::IsEmpty | Operator::IsNotEmpty => 0,
            Operator::Between => 2,
            _ => 1,
        }
    }

    /// The condition this operator makes of these values, or nothing when a
    /// value it needs is blank.
    pub fn build(self, first: &str, second: &str) -> (r: Option<Condition>)
        ensures
            r is Some <==> built(self, first@, second@) is Some,
            r matches Some(c) ==> built(self, first@, second@) == Some(c@),
    {
        let first_given = !blank(chars_of(first).as_slice());
        match self {
            Operator::IsEmpty => Some(Condition::IsEmpty),
            Operator::IsNotEmpty => Some(Condition::IsNotEmpty),
            Operator::Between => {
                let second_given = !blank(chars_of(second).as_slice());
                if first_given && second_given {
                    Some(Condition::Between(first.to_owned(), second.to_owned()))
                } else {
                    None
                }
            },
            _ => {
                if !first_given {
                    return None;
                }
                let value = first.to_owned();
                Some(
                    match self {
                        Operator::Contains => Condition::Contains(value),
                        Operator::DoesNotContain => Condition::DoesNotContain(value),
                        Operator::Is => Condition::Is(value),
                        Operator::IsNot => Condition::IsNot(value),
                        Operator::GreaterThan => Condition::GreaterThan(value),
                        _ => Condition::LessThan(value),
                    },
                )
            },
        }
    }
}

/// Whether two orders are the same.
fn same_order(a: Ordering, b: Ordering) -> (r: bool)
    ensures
        r == (a == b),
{
    match (a, b) {
        (Ordering::Less, Ordering::Less) => true,
        (Ordering::Equal, Ordering::Equal) => true,
        (Ordering::Greater, Ordering::Greater) => true,
        _ => false,
    }
}

/// Whether a value falls one of these ways against a bound.
fn places(value: &str, bound: &str, collated: Ordering, ways: &[Ordering]) -> (r: bool)
    ensures
        r == falls(value@, bound@, collated, ways@),
{
    match compare_alike(value, bound, collated) {
        None => false,
        Some(order) => {
            let mut i: usize = 0;
            let ghost mut at: int = 0;
            while i < ways.len()
                invariant
                    i <= ways@.len(),
                    at == i,
                    alike_order(value@, bound@, collated) == Some(order),
                    forall|k: int| 0 <= k < i ==> ways@[k] != order,
                decreases ways@.len() - i,
            {
                if same_order(ways[i], order) {
                    assert(ways@[at] == order);
                    assert(ways@.contains(order));
                    return true;
                }
                i = i + 1;
                proof {
                    at = at + 1;
                }
            }
            false
        },
    }
}

impl Condition {
    /// The operator the condition was made with.
    pub fn operator(&self) -> (r: Operator)
        ensures
            r == operator_of(self@),
    {
        match self {
            Condition::Contains(_) => Operator::Contains,
            Condition::DoesNotContain(_) => Operator::DoesNotContain,
            Condition::Is(_) => Operator::Is,
            Condition::IsNot(_) => Operator::IsNot,
            Condition::IsEmpty => Operator::IsEmpty,
            Condition::IsNotEmpty => Operator::IsNotEmpty,
            Condition::GreaterThan(_) => Operator::GreaterThan,
            Condition::LessThan(_) => Operator::LessThan,
            Condition::Between(_, _) => Operator::Between,
        }
    }

    /// What it was asked against, as the two entries the picker holds.
    pub fn values(&self) -> (r: (&str, &str))
        ensures
            (r.0@, r.1@) == values_of(self@),
    {
        proof {
            reveal_strlit("");
        }
        match self {
            Condition::IsEmpty | Condition::IsNotEmpty => ("", ""),
            Condition::Contains(value)
            | Condition::DoesNotContain(value)
            | Condition::Is(value)
            | Condition::IsNot(value)
            | Condition::GreaterThan(value)
            | Condition::LessThan(value) => (value.as_str(), ""),
            Condition::Between(from, to) => (from.as_str(), to.as_str()),
        }
    }

    /// Whether one cell meets the condition. `collated` is how the reader's
    /// language orders `value` against the condition's first and second
    /// values as text; only the conditions that put values in order ask it.
    pub fn matches(&self, value: &str, collated: (Collated, Collated)) -> (r: bool)
        ensures
            r == meets(self@, value@, collated),
    {
        let first = ordering_of_collated(collated.0);
        let second = ordering_of_collated(collated.1);
        match self {
            Condition::Contains(text) => contains(value, text.as_str()),
            Condition::DoesNotContain(text) => !contains(value, text.as_str()),
            Condition::Is(text) => equals(value, text.as_str()),
            Condition::IsNot(text) => !equals(value, text.as_str()),
            Condition::IsEmpty => blank(chars_of(value).as_slice()),
            Condition::IsNotEmpty => !blank(chars_of(value).as_slice()),
            Condition::GreaterThan(bound) => {
                let ways = [Ordering::Greater];
                assert(ways@ =~= seq![Ordering::Greater]);
                places(value, bound.as_str(), first, ways.as_slice())
            },
            Condition::LessThan(bound) => {
                let ways = [Ordering::Less];
                assert(ways@ =~= seq![Ordering::Less]);
                places(value, bound.as_str(), first, ways.as_slice())
            },
            Condition::Between(from, to) => {
                let above = [Ordering::Greater, Ordering::Equal];
                let below = [Ordering::Less, Ordering::Equal];
                assert(above@ =~= seq![Ordering::Greater, Ordering::Equal]);
                assert(below@ =~= seq![Ordering::Less, Ordering::Equal]);
                places(value, from.as_str(), first, above.as_slice()) && places(
                    value,
                    to.as_str(),
                    second,
                    below.as_slice(),
                )
            },
        }
    }

    /// A copy of the condition.
    pub fn copy(&self) -> (r: Condition)
        ensures
            r@ == self@,
    {
        match self {
            Condition::Contains(t) => Condition::Contains(copy_string(t)),
            Condition::DoesNotContain(t) => Condition::DoesNotContain(copy_string(t)),
            Condition::Is(t) => Condition::Is(copy_string(t)),
            Condition::IsNot(t) => Condition::IsNot(copy_string(t)),
            Condition::IsEmpty => Condition::IsEmpty,
            Condition::IsNotEmpty => Condition::IsNotEmpty,
            Condition::GreaterThan(t) => Condition::GreaterThan(copy_string(t)),
            Condition::LessThan(t) => Condition::LessThan(copy_string(t)),
            Condition::Between(f, t) => Condition::Between(copy_string(f), copy_string(t)),
        }
    }
}

/// Conditions in column order, as the `Filters` hold them.
pub type Entries = Seq<(usize, ConditionM)>;

/// Whether entries are in strictly increasing column order, which also makes
/// each column's condition the only one.
pub open spec fn sorted(s: Entries) -> bool {
    forall|i: int, j: int| 0 <= i < j < s.len() ==> s[i].0 < s[j].0
}

/// How many entries are for columns before `column`: where its entry is, or
/// would go.
pub open spec fn slot(s: Entries, column: usize) -> int
    decreases s.len(),
{
    if s.len() == 0 {
        0
    } else {
        slot(s.drop_last(), column) + if s.last().0 < column {
            1int
        } else {
            0int
        }
    }
}

/// Whether a column has a condition.
pub open spec fn found_at(s: Entries, column: usize) -> bool {
    slot(s, column) < s.len() && s[slot(s, column)].0 == column
}

/// The condition on a column, if it has one.
pub open spec fn condition_on(s: Entries, column: usize) -> Option<ConditionM> {
    if found_at(s, column) {
        Some(s[slot(s, column)].1)
    } else {
        None
    }
}

/// The entries with `c` put on `column`, replacing whatever it had.
pub open spec fn with_condition(s: Entries, column: usize, c: ConditionM) -> Entries {
    if found_at(s, column) {
        s.update(slot(s, column), (column, c))
    } else {
        s.insert(slot(s, column), (column, c))
    }
}

/// The entries with the condition on `column` taken off.
pub open spec fn without_column(s: Entries, column: usize) -> Entries {
    if found_at(s, column) {
        s.remove(slot(s, column))
    } else {
        s
    }
}

/// The entries after a column is inserted at `at`: everything from there on
/// is one place further along.
pub open spec fn shifted_up(s: Entries, at: usize) -> Entries {
    Seq::new(
        s.len(),
        |i: int|
            if s[i].0 >= at {
                ((s[i].0 + 1) as usize, s[i].1)
            } else {
                s[i]
            },
    )
}

/// The entries after the column at `at` is taken out: its own condition goes
/// with it, and everything after it moves back one.
pub open spec fn shifted_down(s: Entries, at: usize) -> Entries {
    let t = without_column(s, at);
    Seq::new(
        t.len(),
        |i: int|
            if t[i].0 > at {
                ((t[i].0 - 1) as usize, t[i].1)
            } else {
                t[i]
            },
    )
}

/// Whether a row meets every condition, the `i`th condition being handed
/// the `i`th value and the `i`th collation.
pub open spec fn admitted(s: Entries, values: Seq<Seq<char>>, collated: Seq<(Collated, Collated)>) -> bool {
    forall|i: int| 0 <= i < s.len() ==> meets(s[i].1, #[trigger] values[i], collated[i])
}

/// Where a column's entry is or would go, in sorted entries: every entry
/// before it is for an earlier column and none from it on is.
pub proof fn lemma_slot(s: Entries, column: usize)
    requires
        sorted(s),
    ensures
        0 <= slot(s, column) <= s.len(),
        forall|k: int| 0 <= k < slot(s, column) ==> s[k].0 < column,
        forall|k: int| slot(s, column) <= k < s.len() ==> s[k].0 >= column,
    decreases s.len(),
{
    if s.len() > 0 {
        let t = s.drop_last();
        assert forall|i: int, j: int| 0 <= i < j < t.len() implies t[i].0 < t[j].0 by {
            assert(t[i] == s[i] && t[j] == s[j]);
        }
        lemma_slot(t, column);
        if s.last().0 < column {
            assert forall|k: int| 0 <= k < t.len() implies t[k].0 < column by {
                assert(t[k] == s[k]);
                assert(s[k].0 < s[s.len() - 1].0);
            }
        }
        assert forall|k: int| 0 <= k < slot(s, column) implies s[k].0 < column by {
            if k < t.len() {
                assert(t[k] == s[k]);
            }
        }
        assert forall|k: int| slot(s, column) <= k < s.len() implies s[k].0 >= column by {
            if k < t.len() {
                assert(t[k] == s[k]);
            }
        }
    }
}

/// In sorted entries a column's condition is the one entry for that column.
pub proof fn lemma_condition_on(s: Entries, column: usize, i: int)
    requires
        sorted(s),
        0 <= i < s.len(),
        s[i].0 == column,
    ensures
        i == slot(s, column),
        condition_on(s, column) == Some(s[i].1),
{
    lemma_slot(s, column);
    let p = slot(s, column);
    if i > p {
        assert(s[p].0 < s[i].0);
    }
}

/// A column has a condition exactly when an entry is for it.
pub proof fn lemma_found_at(s: Entries, column: usize)
    requires
        sorted(s),
    ensures
        found_at(s, column) <==> exists|i: int| 0 <= i < s.len() && s[i].0 == column,
{
    lemma_slot(s, column);
    if exists|i: int| 0 <= i < s.len() && s[i].0 == column {
        let i = choose|i: int| 0 <= i < s.len() && s[i].0 == column;
        lemma_condition_on(s, column, i);
    }
    if found_at(s, column) {
        assert(s[slot(s, column)].0 == column);
    }
}

/// Taking a column's condition off leaves sorted entries with no condition on
/// that column.
pub proof fn lemma_without_column(s: Entries, column: usize)
    requires
        sorted(s),
    ensures
        sorted(without_column(s, column)),
        forall|i: int| 0 <= i < without_column(s, column).len() ==> (#[trigger] without_column(s, column)[i]).0 != column,
{
    lemma_slot(s, column);
    lemma_found_at(s, column);
    let t = without_column(s, column);
    if found_at(s, column) {
        let p = slot(s, column);
        assert forall|i: int| 0 <= i < t.len() implies (#[trigger] t[i]).0 != column by {
            let j = if i < p { i } else { i + 1 };
            assert(t[i] == s[j]);
            if s[j].0 == column {
                lemma_condition_on(s, column, j);
            }
        }
        assert forall|i: int, j: int| 0 <= i < j < t.len() implies t[i].0 < t[j].0 by {
            let a = if i < p { i } else { i + 1 };
            let b = if j < p { j } else { j + 1 };
            assert(t[i] == s[a] && t[j] == s[b]);
        }
    }
}

/// Where an entry of `s` is in `t` after `t` was made from `s` by putting in
/// or replacing the entry at `p`.
proof fn lemma_with_condition_positions(s: Entries, column: usize, c: ConditionM)
    requires
        sorted(s),
    ensures
        ({
            let t = with_condition(s, column, c);
            let p = slot(s, column);
            &&& 0 <= p < t.len()
            &&& t[p] == (column, c)
            &&& t.len() == s.len() + if found_at(s, column) { 0int } else { 1int }
            &&& forall|i: int| 0 <= i < s.len() && i != p ==> #[trigger] s[i] == t[if i < p || found_at(s, column) { i } else { i + 1 }]
            &&& forall|j: int| 0 <= j < t.len() && j != p ==> #[trigger] t[j] == s[if j < p || found_at(s, column) { j } else { j - 1 }]
        }),
{
    lemma_slot(s, column);
}

/// Putting a condition on a column keeps the entries in column order, leaves
/// that condition the one on the column, and leaves every other column's
/// condition as it was.
pub proof fn lemma_with_condition(s: Entries, column: usize, c: ConditionM)
    requires
        sorted(s),
    ensures
        sorted(with_condition(s, column, c)),
        condition_on(with_condition(s, column, c), column) == Some(c),
        forall|d: usize| d != column ==> condition_on(#[trigger] with_condition(s, column, c), d) == condition_on(s, d),
        with_condition(s, column, c).len() == s.len() + if condition_on(s, column) is Some { 0int } else { 1int },
{
    lemma_slot(s, column);
    lemma_with_condition_positions(s, column, c);
    let t = with_condition(s, column, c);
    let p = slot(s, column);
    let found = found_at(s, column);
    let back = |j: int| if j < p || found { j } else { j - 1 };
    assert forall|i: int, j: int| 0 <= i < j < t.len() implies t[i].0 < t[j].0 by {
        if i == p {
            assert(t[j] == s[back(j)]);
            assert(s[back(j)].0 >= column);
            if found && s[back(j)].0 == column {
                lemma_condition_on(s, column, back(j));
            }
        } else if j == p {
            assert(t[i] == s[back(i)]);
        } else {
            assert(t[i] == s[back(i)] && t[j] == s[back(j)]);
        }
    }
    lemma_condition_on(t, column, p);
    assert forall|d: usize| d != column implies condition_on(#[trigger] with_condition(s, column, c), d) == condition_on(s, d) by {
        lemma_found_at(s, d);
        lemma_found_at(t, d);
        if exists|i: int| 0 <= i < s.len() && s[i].0 == d {
            let i = choose|i: int| 0 <= i < s.len() && s[i].0 == d;
            lemma_condition_on(s, d, i);
            if found && i == p {
                assert(s[p].0 == column);
            }
            let j = if i < p || found { i } else { i + 1 };
            assert(s[i] == t[j]);
            lemma_condition_on(t, d, j);
        } else if exists|j: int| 0 <= j < t.len() && t[j].0 == d {
            let j = choose|j: int| 0 <= j < t.len() && t[j].0 == d;
            assert(t[j] == s[back(j)]);
        }
    }
}

/// Taking a column's condition off leaves every other column's as it was.
pub proof fn lemma_without_column_keeps_others(s: Entries, column: usize)
    requires
        sorted(s),
    ensures
        condition_on(without_column(s, column), column) is None,
        forall|d: usize| d != column ==> condition_on(#[trigger] without_column(s, column), d) == condition_on(s, d),
{
    lemma_slot(s, column);
    lemma_without_column(s, column);
    let t = without_column(s, column);
    lemma_found_at(t, column);
    let p = slot(s, column);
    let found = found_at(s, column);
    assert forall|d: usize| d != column implies condition_on(#[trigger] without_column(s, column), d) == condition_on(s, d) by {
        lemma_found_at(s, d);
        lemma_found_at(t, d);
        if exists|i: int| 0 <= i < s.len() && s[i].0 == d {
            let i = choose|i: int| 0 <= i < s.len() && s[i].0 == d;
            lemma_condition_on(s, d, i);
            let j = if i < p || !found { i } else { i - 1 };
            if found && i == p {
                assert(s[p].0 == column);
            }
            assert(t[j] == s[i]);
            lemma_condition_on(t, d, j);
        } else if exists|j: int| 0 <= j < t.len() && t[j].0 == d {
            let j = choose|j: int| 0 <= j < t.len() && t[j].0 == d;
            let i = if j < p || !found { j } else { j + 1 };
            assert(t[j] == s[i]);
        }
    }
}

/// Where a column is after one is inserted at `at`.
pub open spec fn moved_up(column: usize, at: usize) -> usize {
    if column >= at {
        (column + 1) as usize
    } else {
        column
    }
}

/// A condition follows its column when another column is inserted, and the
/// new column has no condition on it.
pub proof fn lemma_inserted_column(s: Entries, at: usize, d: usize)
    requires
        sorted(s),
        forall|i: int| 0 <= i < s.len() && s[i].0 >= at ==> s[i].0 < usize::MAX,
        d >= at ==> d < usize::MAX,
    ensures
        sorted(shifted_up(s, at)),
        condition_on(shifted_up(s, at), moved_up(d, at)) == condition_on(s, d),
        condition_on(shifted_up(s, at), at) is None,
{
    let t = shifted_up(s, at);
    assert forall|i: int, j: int| 0 <= i < j < t.len() implies t[i].0 < t[j].0 by {
        assert(s[i].0 < s[j].0);
    }
    lemma_found_at(s, d);
    lemma_found_at(t, moved_up(d, at));
    lemma_found_at(t, at);
    if exists|i: int| 0 <= i < s.len() && s[i].0 == d {
        let i = choose|i: int| 0 <= i < s.len() && s[i].0 == d;
        lemma_condition_on(s, d, i);
        lemma_condition_on(t, moved_up(d, at), i);
    } else if exists|j: int| 0 <= j < t.len() && t[j].0 == moved_up(d, at) {
        let j = choose|j: int| 0 <= j < t.len() && t[j].0 == moved_up(d, at);
        assert(s[j].0 == d);
    }
    if exists|j: int| 0 <= j < t.len() && t[j].0 == at {
        let j = choose|j: int| 0 <= j < t.len() && t[j].0 == at;
        assert(t[j].0 == at);
    }
}

/// Where a column other than `at` is after the column at `at` is taken out.
pub open spec fn moved_down(column: usize, at: usize) -> usize {
    if column > at {
        (column - 1) as usize
    } else {
        column
    }
}

/// A condition goes when its own column does, and every other condition
/// follows its column.
pub proof fn lemma_deleted_column(s: Entries, at: usize, d: usize)
    requires
        sorted(s),
        d != at,
    ensures
        sorted(shifted_down(s, at)),
        condition_on(shifted_down(s, at), moved_down(d, at)) == condition_on(s, d),
        shifted_down(s, at).len() == s.len() - if condition_on(s, at) is Some { 1int } else { 0int },
{
    lemma_without_column(s, at);
    lemma_without_column_keeps_others(s, at);
    let w = without_column(s, at);
    let t = shifted_down(s, at);
    lemma_slot(s, at);
    assert forall|i: int, j: int| 0 <= i < j < t.len() implies t[i].0 < t[j].0 by {
        assert(w[i].0 < w[j].0);
        assert(w[i].0 != at && w[j].0 != at);
    }
    lemma_found_at(w, d);
    lemma_found_at(t, moved_down(d, at));
    if exists|i: int| 0 <= i < w.len() && w[i].0 == d {
        let i = choose|i: int| 0 <= i < w.len() && w[i].0 == d;
        lemma_condition_on(w, d, i);
        lemma_condition_on(t, moved_down(d, at), i);
    } else if exists|j: int| 0 <= j < t.len() && t[j].0 == moved_down(d, at) {
        let j = choose|j: int| 0 <= j < t.len() && t[j].0 == moved_down(d, at);
        assert(w[j].0 != at);
        assert(w[j].0 == d);
    }
}

/// The conditions in force, at most one per column, held in column order.
///
/// Conditions are joined by AND: several narrow one another.
#[derive(Debug, PartialEq, Eq)]
pub struct Filters {
    conditions: Vec<(usize, Condition)>,
}

impl View for Filters {
    type V = Entries;

    closed spec fn view(&self) -> Entries {
        self.conditions@.map_values(|e: (usize, Condition)| (e.0, e.1@))
    }
}

impl Default for Filters {
    fn default() -> (r: Self)
        ensures
            r@ == Seq::<(usize, ConditionM)>::empty(),
    {
        let r = Filters { conditions: Vec::new() };
        assert(r@ =~= Seq::<(usize, ConditionM)>::empty());
        r
    }
}

impl Filters {
    #[verifier::type_invariant]
    spec fn well_ordered(self) -> bool {
        sorted(self@)
    }

    /// Whether the entries are in column order, as they always are.
    pub fn check(&self)
        ensures
            sorted(self@),
    {
        proof {
            use_type_invariant(self);
        }
    }

    /// Whether there are no conditions.
    pub fn is_empty(&self) -> (r: bool)
        ensures
            r == (self@.len() == 0),
    {
        self.conditions.len() == 0
    }

    /// How many conditions are in force.
    pub fn len(&self) -> (r: usize)
        ensures
            r == self@.len(),
    {
        self.conditions.len()
    }

    /// Where a column's condition is, or where one would go.
    fn position(&self, column: usize) -> (r: Result<usize, usize>)
        ensures
            (r is Ok) == found_at(self@, column),
            match r {
                Ok(k) => k == slot(self@, column),
                Err(k) => k == slot(self@, column),
            },
    {
        proof {
            use_type_invariant(self);
            lemma_slot(self@, column);
        }
        let ghost s = self@;
        let mut low: usize = 0;
        let mut high: usize = self.conditions.len();
        while low < high
            invariant
                s == self@,
                sorted(s),
                0 <= low <= high <= s.len(),
                forall|k: int| 0 <= k < low ==> s[k].0 < column,
                forall|k: int| high <= k < s.len() ==> s[k].0 >= column,
            decreases high - low,
        {
            let middle = low + (high - low) / 2;
            if self.conditions[middle].0 < column {
                assert forall|k: int| 0 <= k <= middle implies s[k].0 < column by {
                    if k < middle {
                        assert(s[k].0 < s[middle as int].0);
                    }
                }
                low = middle + 1;
            } else {
                assert forall|k: int| middle <= k < s.len() implies s[k].0 >= column by {
                    if k > middle {
                        assert(s[middle as int].0 < s[k].0);
                    }
                }
                high = middle;
            }
        }
        proof {
            let p = slot(s, column);
            if p < low {
                assert(s[p].0 >= column);
            }
            if low < p {
                assert(s[low as int].0 < column);
            }
        }
        if low < self.conditions.len() && self.conditions[low].0 == column {
            Ok(low)
        } else {
            Err(low)
        }
    }

    /// Puts a condition on a column, replacing whatever that column had.
    pub fn set(&mut self, column: usize, condition: Condition)
        ensures
            final(self)@ == with_condition(old(self)@, column, condition@),
    {
        let ghost s = self@;
        proof {
            use_type_invariant(&*self);
            lemma_slot(s, column);
        }
        assert(s.len() == self.conditions@.len());
        let at = self.position(column);
        assert(at matches Ok(k) ==> k == slot(s, column));
        assert(at matches Err(k) ==> k == slot(s, column));
        let mut conditions: Vec<(usize, Condition)> = Vec::new();
        std::mem::swap(&mut conditions, &mut self.conditions);
        assert(conditions@.map_values(|e: (usize, Condition)| (e.0, e.1@)) == s);
        let ghost wanted = with_condition(s, column, condition@);
        let ghost kept = conditions@;
        match at {
            Ok(k) => {
                conditions.set(k, (column, condition));
            },
            Err(k) => {
                conditions.insert(k, (column, condition));
            },
        }
        let ghost built = conditions@.map_values(|e: (usize, Condition)| (e.0, e.1@));
        assert(built.len() == wanted.len());
        assert forall|i: int| 0 <= i < built.len() implies built[i] == wanted[i] by {
            let p = slot(s, column);
            if found_at(s, column) {
                if i != p {
                    assert(conditions@[i] == kept[i]);
                }
            } else {
                if i < p {
                    assert(conditions@[i] == kept[i]);
                } else if i > p {
                    assert(conditions@[i] == kept[i - 1]);
                }
            }
        }
        assert(built =~= wanted);
        proof {
            lemma_with_condition(s, column, condition@);
        }
        self.conditions = conditions;
    }

    /// Takes the condition off one column, and says whether there was one.
    pub fn clear_column(&mut self, column: usize) -> (r: bool)
        ensures
            r == found_at(old(self)@, column),
            final(self)@ == without_column(old(self)@, column),
    {
        let ghost s = self@;
        proof {
            use_type_invariant(&*self);
            lemma_slot(s, column);
        }
        assert(s.len() == self.conditions@.len());
        let at = self.position(column);
        assert(at matches Ok(k) ==> k == slot(s, column));
        match at {
            Ok(k) => {
                let mut conditions: Vec<(usize, Condition)> = Vec::new();
                std::mem::swap(&mut conditions, &mut self.conditions);
                assert(conditions@.map_values(|e: (usize, Condition)| (e.0, e.1@)) == s);
                let ghost kept = conditions@;
                conditions.remove(k);
                assert forall|i: int| 0 <= i < conditions@.len() implies conditions@[i] == (if i < k { kept[i] } else { kept[i + 1] }) by {}
                let ghost wanted = without_column(s, column);
                assert(conditions@.map_values(|e: (usize, Condition)| (e.0, e.1@)) =~= wanted);
                assert forall|i: int, j: int| 0 <= i < j < wanted.len() implies wanted[i].0
                    < wanted[j].0 by {
                    if i >= k {
                        assert(wanted[i] == s[i + 1] && wanted[j] == s[j + 1]);
                    } else if j >= k {
                        assert(wanted[i] == s[i] && wanted[j] == s[j + 1]);
                    } else {
                        assert(wanted[i] == s[i] && wanted[j] == s[j]);
                    }
                }
                self.conditions = conditions;
                true
            },
            Err(_) => false,
        }
    }

    /// Takes every condition off.
    pub fn clear(&mut self)
        ensures
            final(self)@ == Seq::<(usize, ConditionM)>::empty(),
    {
        self.conditions = Vec::new();
        assert(self@ =~= Seq::<(usize, ConditionM)>::empty());
    }

    /// The condition on a column, if it has one.
    pub fn on(&self, column: usize) -> (r: Option<&Condition>)
        ensures
            r is Some <==> condition_on(self@, column) is Some,
            r matches Some(c) ==> condition_on(self@, column) == Some(c@),
    {
        assert(self@.len() == self.conditions@.len());
        match self.position(column) {
            Ok(k) => Some(&self.conditions[k].1),
            Err(_) => None,
        }
    }

    /// Every condition in force, in column order.
    pub fn iter(&self) -> (r: Vec<(usize, &Condition)>)
        ensures
            r@.len() == self@.len(),
            forall|i: int| 0 <= i < r@.len() ==> (#[trigger] r@[i]).0 == self@[i].0 && r@[i].1@ == self@[i].1,
    {
        let mut r: Vec<(usize, &Condition)> = Vec::new();
        let mut k: usize = 0;
        while k < self.conditions.len()
            invariant
                k <= self@.len(),
                self@.len() == self.conditions@.len(),
                r@.len() == k,
                forall|i: int| 0 <= i < k ==> (#[trigger] r@[i]).0 == self@[i].0 && r@[i].1@ == self@[i].1,
            decreases self@.len() - k,
        {
            let entry = &self.conditions[k];
            r.push((entry.0, &entry.1));
            k = k + 1;
        }
        r
    }

    /// Whether a row meets every condition. The row is asked only for the
    /// columns a condition is on: `values[i]` is its value in the `i`th of
    /// them, in column order as `iter` gives them, empty where the row does
    /// not reach it; `collated[i]` is how the reader's language orders that
    /// value against the condition's first and second values.
    pub fn admits(&self, values: &[&str], collated: &[(Collated, Collated)]) -> (r: bool)
        requires
            values@.len() == self@.len(),
            collated@.len() == self@.len(),
        ensures
            r == admitted(self@, values@.map_values(|v: &str| v@), collated@),
    {
        let ghost asked = values@.map_values(|v: &str| v@);
        let mut k: usize = 0;
        while k < self.conditions.len()
            invariant
                k <= self@.len(),
                self@.len() == self.conditions@.len(),
                values@.len() == self@.len(),
                collated@.len() == self@.len(),
                asked == values@.map_values(|v: &str| v@),
                forall|i: int| 0 <= i < k ==> meets(self@[i].1, #[trigger] asked[i], collated@[i]),
            decreases self@.len() - k,
        {
            assert(asked[k as int] == values@[k as int]@);
            if !self.conditions[k].1.matches(values[k], collated[k]) {
                return false;
            }
            k = k + 1;
        }
        true
    }

    /// Follows a column being inserted at `at`.
    pub fn column_inserted(&mut self, at: usize)
        requires
            forall|i: int| 0 <= i < old(self)@.len() && old(self)@[i].0 >= at ==> old(self)@[i].0 < usize::MAX,
        ensures
            final(self)@ == shifted_up(old(self)@, at),
    {
        let ghost s = self@;
        proof {
            use_type_invariant(&*self);
        }
        let mut conditions: Vec<(usize, Condition)> = Vec::new();
        std::mem::swap(&mut conditions, &mut self.conditions);
        assert(conditions@.map_values(|e: (usize, Condition)| (e.0, e.1@)) == s);
        let ghost wanted = shifted_up(s, at);
        let mut k: usize = 0;
        while k < conditions.len()
            invariant
                k <= conditions@.len() == s.len(),
                forall|i: int| 0 <= i < s.len() && s[i].0 >= at ==> s[i].0 < usize::MAX,
                wanted == shifted_up(s, at),
                forall|i: int| 0 <= i < k ==> (conditions@[i].0, conditions@[i].1@) == #[trigger] wanted[i],
                forall|i: int| k <= i < s.len() ==> (conditions@[i].0, conditions@[i].1@) == #[trigger] s[i],
            decreases s.len() - k,
        {
            let column = conditions[k].0;
            if column >= at {
                assert((conditions@[k as int].0, conditions@[k as int].1@) == s[k as int]);
                let (_, condition) = conditions.remove(k);
                conditions.insert(k, (column + 1, condition));
            }
            k = k + 1;
        }
        assert(conditions@.map_values(|e: (usize, Condition)| (e.0, e.1@)) =~= wanted);
        assert forall|i: int, j: int| 0 <= i < j < wanted.len() implies wanted[i].0 < wanted[j].0 by {
            assert(s[i].0 < s[j].0);
        }
        self.conditions = conditions;
    }

    /// Follows the column at `at` being taken out.
    pub fn column_deleted(&mut self, at: usize)
        ensures
            final(self)@ == shifted_down(old(self)@, at),
    {
        proof {
            use_type_invariant(&*self);
            lemma_without_column(self@, at);
        }
        self.clear_column(at);
        let ghost s = self@;
        let mut conditions: Vec<(usize, Condition)> = Vec::new();
        std::mem::swap(&mut conditions, &mut self.conditions);
        assert(conditions@.map_values(|e: (usize, Condition)| (e.0, e.1@)) == s);
        let ghost wanted = Seq::new(
            s.len(),
            |i: int|
                if s[i].0 > at {
                    ((s[i].0 - 1) as usize, s[i].1)
                } else {
                    s[i]
                },
        );
        let mut k: usize = 0;
        while k < conditions.len()
            invariant
                k <= conditions@.len() == s.len(),
                forall|i: int| 0 <= i < s.len() ==> s[i].0 != at,
                forall|i: int| 0 <= i < k ==> (conditions@[i].0, conditions@[i].1@) == #[trigger] wanted[i],
                forall|i: int| k <= i < s.len() ==> (conditions@[i].0, conditions@[i].1@) == #[trigger] s[i],
                wanted == Seq::new(
                    s.len(),
                    |i: int|
                        if s[i].0 > at {
                            ((s[i].0 - 1) as usize, s[i].1)
                        } else {
                            s[i]
                        },
                ),
            decreases s.len() - k,
        {
            let column = conditions[k].0;
            if column > at {
                assert((conditions@[k as int].0, conditions@[k as int].1@) == s[k as int]);
                let (_, condition) = conditions.remove(k);
                conditions.insert(k, (column - 1, condition));
            }
            k = k + 1;
        }
        assert(conditions@.map_values(|e: (usize, Condition)| (e.0, e.1@)) =~= wanted);
        assert forall|i: int, j: int| 0 <= i < j < wanted.len() implies wanted[i].0 < wanted[j].0 by {
            assert(s[i].0 < s[j].0);
        }
        self.conditions = conditions;
    }
}

/// Every operator answers to its own name.
pub proof fn lemma_operator_named_by_its_id(operator: Operator)
    ensures
        operator_named(id_of(operator)) == Some(operator),
{
    reveal_strlit("contains");
    reveal_strlit("does-not-contain");
    reveal_strlit("is");
    reveal_strlit("is-not");
    reveal_strlit("is-empty");
    reveal_strlit("is-not-empty");
    reveal_strlit("greater-than");
    reveal_strlit("less-than");
    reveal_strlit("between");
    reveal_with_fuel(first_named, 10);
    let all = all_operators();
    assert forall|k: int| 0 <= k < 9 && all[k] != operator implies id_of(#[trigger] all[k])
        != id_of(operator) by {
        assert(id_of(all[k]).len() != id_of(operator).len() || id_of(all[k])[0] != id_of(
            operator,
        )[0]);
    }
}

/// A value is between two bounds exactly when it is above or level with the
/// lower, as the first collation orders it against the lower, and below or
/// level with the upper, as the second orders it against the upper; so a
/// range agrees with "is greater than" its lower bound and "is less than" its
/// upper, each asked with its own collation, or with the value level with
/// that bound.
pub proof fn lemma_between_is_both_bounds(
    f: Seq<char>,
    t: Seq<char>,
    value: Seq<char>,
    c1: Collated,
    c2: Collated,
    other: Collated,
)
    ensures
        meets(ConditionM::Between(f, t), value, (c1, c2)) == ({
            &&& alike_order(value, f, ordering_for(c1)) matches Some(o) && o != Ordering::Less
            &&& alike_order(value, t, ordering_for(c2)) matches Some(o) && o != Ordering::Greater
        }),
        meets(ConditionM::Between(f, t), value, (c1, c2)) == ({
            &&& meets(ConditionM::GreaterThan(f), value, (c1, other)) || alike_order(
                value,
                f,
                ordering_for(c1),
            ) == Some(Ordering::Equal)
            &&& meets(ConditionM::LessThan(t), value, (c2, other)) || alike_order(
                value,
                t,
                ordering_for(c2),
            ) == Some(Ordering::Equal)
        }),
{
    let above = seq![Ordering::Greater, Ordering::Equal];
    let below = seq![Ordering::Less, Ordering::Equal];
    assert(above[0] == Ordering::Greater && above[1] == Ordering::Equal);
    assert(below[0] == Ordering::Less && below[1] == Ordering::Equal);
    assert(seq![Ordering::Greater][0] == Ordering::Greater);
    assert(seq![Ordering::Less][0] == Ordering::Less);
    if let Some(o) = alike_order(value, f, ordering_for(c1)) {
        if o != Ordering::Less {
            assert(above.contains(o));
        }
        if above.contains(o) {
            assert(o != Ordering::Less);
        }
        if seq![Ordering::Greater].contains(o) {
            assert(o == Ordering::Greater);
        }
        if o == Ordering::Greater {
            assert(seq![Ordering::Greater].contains(o));
        }
    }
    if let Some(o) = alike_order(value, t, ordering_for(c2)) {
        if o != Ordering::Greater {
            assert(below.contains(o));
        }
        if below.contains(o) {
            assert(o != Ordering::Greater);
        }
        if seq![Ordering::Less].contains(o) {
            assert(o == Ordering::Less);
        }
        if o == Ordering::Less {
            assert(seq![Ordering::Less].contains(o));
        }
    }
}

} // verus!
