//! Spreadsheet column names.

use vstd::prelude::*;

verus! {

/// The letter for a digit of a column name: `A` for zero up to `Z` for 25.
pub open spec fn letter(k: int) -> char {
    (65 + k) as char
}

/// The name of a column by its position: A, B, … Z, AA, AB, … the same scheme
/// every spreadsheet uses. It is base 26 without a zero, which is why the
/// carry subtracts one.
pub open spec fn letters_of(index: nat) -> Seq<char>
    decreases index,
{
    if index < 26 {
        seq![letter(index as int)]
    } else {
        letters_of((index / 26 - 1) as nat).push(letter((index % 26) as int))
    }
}

/// The name of a column by its position.
pub fn column_letter(index: usize) -> (r: String)
    ensures
        r@ == letters_of(index as nat),
{
    let mut out: Vec<char> = Vec::new();
    let mut rest: usize = index;
    while rest >= 26
        invariant
            letters_of(index as nat) == letters_of(rest as nat) + out@,
        decreases rest,
    {
        let c = (65u8 + (rest % 26) as u8) as char;
        assert(c == letter((rest % 26) as int));
        out.insert(0, c);
        assert(letters_of(rest as nat) =~= letters_of((rest / 26 - 1) as nat).push(letter((rest % 26) as int)));
        rest = rest / 26 - 1;
    }
    let c = (65u8 + rest as u8) as char;
    assert(c == letter(rest as int));
    out.insert(0, c);
    assert(letters_of(index as nat) =~= out@);
    crate::text::string_of(out.as_slice())
}

proof fn lemma_letters_nonempty(index: nat)
    ensures
        letters_of(index).len() >= 1,
        index >= 26 ==> letters_of(index).len() >= 2,
    decreases index,
{
    if index >= 26 {
        lemma_letters_nonempty((index / 26 - 1) as nat);
    }
}

/// No two columns share a name.
pub proof fn lemma_letters_distinct(a: nat, b: nat)
    requires
        a != b,
    ensures
        letters_of(a) != letters_of(b),
    decreases a + b,
{
    lemma_letters_nonempty(a);
    lemma_letters_nonempty(b);
    if a >= 26 && b >= 26 {
        let qa = (a / 26 - 1) as nat;
        let qb = (b / 26 - 1) as nat;
        if letters_of(a) == letters_of(b) {
            assert(letters_of(a).last() == letters_of(b).last());
            assert(letters_of(a).drop_last() =~= letters_of(qa));
            assert(letters_of(b).drop_last() =~= letters_of(qb));
            if qa != qb {
                lemma_letters_distinct(qa, qb);
            }
            assert(a % 26 == b % 26);
            assert(a == 26 * (qa + 1) + a % 26);
            assert(b == 26 * (qb + 1) + b % 26);
        }
    } else if a < 26 && b < 26 {
        if letters_of(a) == letters_of(b) {
            assert(letters_of(a)[0] == letters_of(b)[0]);
        }
    }
}

/// The name after `s` when names are counted in order, shorter before longer
/// and alphabetically among names of one length: the last letter moves on,
/// and a `Z` turns over to `A` and carries to the letter before it.
pub open spec fn next_name(s: Seq<char>) -> Seq<char>
    decreases s.len(),
{
    if s.len() == 0 {
        seq!['A']
    } else if s.last() != 'Z' {
        s.drop_last().push(((s.last() as int) + 1) as char)
    } else {
        next_name(s.drop_last()).push('A')
    }
}

/// Every column name is made of the capitals `A` to `Z`.
pub proof fn lemma_letters_are_capitals(index: nat)
    ensures
        forall|i: int|
            0 <= i < letters_of(index).len() ==> 'A' <= #[trigger] letters_of(index)[i] <= 'Z',
    decreases index,
{
    if index >= 26 {
        let q = (index / 26 - 1) as nat;
        lemma_letters_are_capitals(q);
        lemma_letter_is_capital((index % 26) as int);
        assert forall|i: int| 0 <= i < letters_of(index).len() implies 'A' <= #[trigger] letters_of(
            index,
        )[i] <= 'Z' by {
            if i < letters_of(q).len() {
                assert(letters_of(index)[i] == letters_of(q)[i]);
            }
        }
    } else {
        lemma_letter_is_capital(index as int);
    }
}

/// Every digit of a column name is a capital.
proof fn lemma_letter_is_capital(k: int)
    requires
        0 <= k < 26,
    ensures
        'A' <= letter(k) <= 'Z',
{
    assert(letter(k) as int == 65 + k);
}

/// The columns are named in order: the name of the next column is the next
/// name, A to Z, then AA, AB, … and ZZ to AAA.
pub proof fn lemma_next_column_is_next_name(index: nat)
    ensures
        letters_of(index + 1) == next_name(letters_of(index)),
    decreases index,
{
    let n = index;
    if n + 1 < 26 {
        assert(letters_of(n).drop_last() =~= Seq::<char>::empty());
        assert(letters_of(n + 1) =~= next_name(letters_of(n)));
    } else if n == 25 {
        assert(letters_of(25).drop_last() =~= Seq::<char>::empty());
        assert(letters_of(0) == seq!['A']);
        assert((25nat + 1) / 26 - 1 == 0 && (25nat + 1) % 26 == 0);
        assert(letters_of(26) =~= seq!['A', 'A']);
        assert(next_name(Seq::<char>::empty()) == seq!['A']);
        assert(next_name(letters_of(25)) =~= seq!['A', 'A']);
    } else {
        let q = (n / 26 - 1) as nat;
        let r = n % 26;
        assert(n == 26 * (n / 26) + r);
        assert(letters_of(n).drop_last() =~= letters_of(q));
        assert(letters_of(n).last() == letter(r as int));
        if r < 25 {
            assert((n + 1) / 26 == n / 26 && (n + 1) % 26 == r + 1) by (nonlinear_arith)
                requires
                    n == 26 * (n / 26) + r,
                    0 <= r < 25,
            {
            }
            assert(letters_of(n + 1) =~= next_name(letters_of(n)));
        } else {
            assert((n + 1) / 26 == n / 26 + 1 && (n + 1) % 26 == 0) by (nonlinear_arith)
                requires
                    n == 26 * (n / 26) + r,
                    r == 25,
            {
            }
            lemma_next_column_is_next_name(q);
            assert(((n + 1) / 26 - 1) as nat == q + 1);
            assert(letters_of(n + 1) =~= next_name(letters_of(n)));
        }
    }
}

} // verus!
