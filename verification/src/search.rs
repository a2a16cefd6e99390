//! Finding text in a value, and putting other text in its place.
//!
//! One definition serves both: what the filter hides a row for is what
//! Replace All would change in it. Case is folded a character at a time, on
//! both sides, so neither side has to arrive in any particular case.

use vstd::prelude::*;

use crate::text::{chars_of, fold_case, lowercase, string_of, to_lowercase};

verus! {

/// Whether the haystack, from character `i` on and folded a character at a
/// time, starts with `want`; and if so where the match ends. A match that
/// runs out partway through a character's folded form ends before that
/// character.
pub open spec fn match_from(h: Seq<char>, i: int, want: Seq<char>) -> Option<int>
    decreases h.len() - i,
{
    if i < 0 || i >= h.len() {
        if want.len() == 0 {
            Some(i)
        } else {
            None
        }
    } else {
        let f = lowercase(h[i]);
        if f.len() == 0 {
            match_from(h, i + 1, want)
        } else if want.len() == 0 {
            Some(i)
        } else if f.len() > want.len() {
            if f.subrange(0, want.len() as int) == want {
                Some(i)
            } else {
                None
            }
        } else if want.subrange(0, f.len() as int) == f {
            match_from(h, i + 1, want.subrange(f.len() as int, want.len() as int))
        } else {
            None
        }
    }
}

/// The first match at or after character `p`: where it starts and ends.
pub open spec fn first_match(h: Seq<char>, want: Seq<char>, p: int) -> Option<(int, int)>
    decreases h.len() - p,
{
    if p < 0 || p >= h.len() {
        None
    } else {
        match match_from(h, p, want) {
            Some(e) => Some((p, e)),
            None => first_match(h, want, p + 1),
        }
    }
}

/// Where the first match of `needle` at or after `from` begins and ends.
/// Nothing matches an empty needle.
pub open spec fn find_spec(h: Seq<char>, needle: Seq<char>, from: int) -> Option<(int, int)> {
    if needle.len() == 0 {
        None
    } else {
        first_match(h, fold_case(needle), from)
    }
}

/// Whether `h` holds `needle` anywhere, ignoring case.
pub open spec fn contains_spec(h: Seq<char>, needle: Seq<char>) -> bool {
    find_spec(h, needle, 0) is Some
}

/// Whether two values are the same text, ignoring case.
pub open spec fn equals_spec(left: Seq<char>, right: Seq<char>) -> bool {
    fold_case(left) == fold_case(right)
}

/// The haystack from `taken` on, with every match of `want` replaced.
pub open spec fn replace_from(h: Seq<char>, want: Seq<char>, with: Seq<char>, taken: int) -> Seq<
    char,
>
    decreases h.len() - taken,
{
    match first_match(h, want, taken) {
        None => h.subrange(taken, h.len() as int),
        Some((s, e)) => if e <= s || e > h.len() || s < taken {
            h.subrange(taken, s) + with + h.subrange(s, h.len() as int)
        } else {
            h.subrange(taken, s) + with + replace_from(h, want, with, e)
        },
    }
}

/// The haystack with every occurrence of the needle replaced, or nothing
/// when there was nothing to replace.
pub open spec fn replace_spec(h: Seq<char>, needle: Seq<char>, with: Seq<char>) -> Option<
    Seq<char>,
> {
    match find_spec(h, needle, 0) {
        None => None,
        Some(_) => Some(replace_from(h, fold_case(needle), with, 0)),
    }
}

proof fn lemma_match_from_bounds(h: Seq<char>, i: int, want: Seq<char>)
    requires
        0 <= i <= h.len(),
    ensures
        match_from(h, i, want) matches Some(e) ==> i <= e <= h.len(),
    decreases h.len() - i,
{
    if i < h.len() {
        let f = lowercase(h[i]);
        if f.len() == 0 {
            lemma_match_from_bounds(h, i + 1, want);
        } else if want.len() != 0 && f.len() <= want.len() && want.subrange(0, f.len() as int)
            == f {
            lemma_match_from_bounds(h, i + 1, want.subrange(f.len() as int, want.len() as int));
        }
    }
}

proof fn lemma_first_match_bounds(h: Seq<char>, want: Seq<char>, p: int)
    requires
        0 <= p,
    ensures
        first_match(h, want, p) matches Some((s, e)) ==> p <= s < h.len() && s <= e <= h.len(),
    decreases h.len() - p,
{
    if p < h.len() {
        lemma_match_from_bounds(h, p, want);
        if match_from(h, p, want) is None {
            lemma_first_match_bounds(h, want, p + 1);
        }
    }
}

/// The folded form of a run of characters, built a character at a time.
fn fold(chars: &[char]) -> (r: Vec<char>)
    ensures
        r@ == fold_case(chars@),
{
    let mut out: Vec<char> = Vec::new();
    let mut i: usize = chars.len();
    let ghost whole = chars@;
    // Built from the back, so each step is the definition's own step.
    while i > 0
        invariant
            i <= chars@.len(),
            whole == chars@,
            out@ == fold_case(whole.subrange(i as int, whole.len() as int)),
        decreases i,
    {
        i = i - 1;
        let lower = to_lowercase(chars[i]);
        let mut next: Vec<char> = Vec::new();
        let mut j: usize = 0;
        while j < lower.len()
            invariant
                j <= lower@.len(),
                next@ == lower@.subrange(0, j as int),
            decreases lower@.len() - j,
        {
            next.push(lower[j]);
            j = j + 1;
            assert(next@ =~= lower@.subrange(0, j as int));
        }
        let mut k: usize = 0;
        while k < out.len()
            invariant
                k <= out@.len(),
                next@ == lower@ + out@.subrange(0, k as int),
            decreases out@.len() - k,
        {
            next.push(out[k]);
            k = k + 1;
            assert(next@ =~= lower@ + out@.subrange(0, k as int));
        }
        proof {
            let tail = whole.subrange(i as int, whole.len() as int);
            assert(tail[0] == whole[i as int]);
            assert(tail.drop_first() =~= whole.subrange(i + 1, whole.len() as int));
            assert(lower@.subrange(0, lower@.len() as int) =~= lower@);
            assert(out@.subrange(0, out@.len() as int) =~= out@);
        }
        out = next;
    }
    assert(whole.subrange(0, whole.len() as int) =~= whole);
    out
}

/// Where the match of `want` starting at character `start` ends, if there is one.
fn matches_at(h: &Vec<char>, want: &Vec<char>, start: usize) -> (r: Option<usize>)
    requires
        start <= h@.len(),
    ensures
        r matches Some(e) ==> match_from(h@, start as int, want@) == Some(e as int),
        r is None ==> match_from(h@, start as int, want@) is None,
{
    let ghost goal = match_from(h@, start as int, want@);
    let mut i: usize = start;
    let mut w: usize = 0;
    assert(want@.subrange(0, want@.len() as int) =~= want@);
    loop
        invariant
            start <= i <= h@.len(),
            w <= want@.len(),
            goal == match_from(h@, start as int, want@),
            goal == match_from(h@, i as int, want@.subrange(w as int, want@.len() as int)),
        decreases h@.len() - i,
    {
        let ghost rest = want@.subrange(w as int, want@.len() as int);
        if i >= h.len() {
            if w == want.len() {
                return Some(i);
            } else {
                return None;
            }
        }
        let lower = to_lowercase(h[i]);
        if lower.len() > 0 && w == want.len() {
            return Some(i);
        }
        let mut j: usize = 0;
        while j < lower.len()
            invariant
                j <= lower@.len(),
                w <= want@.len(),
                i < h@.len(),
                lower@ == lowercase(h@[i as int]),
                lower@.len() > 0 ==> w < want@.len(),
                goal == match_from(h@, start as int, want@),
                goal == match_from(h@, i as int, rest),
                rest == want@.subrange(w as int, want@.len() as int),
                j <= rest.len(),
                lower@.subrange(0, j as int) == rest.subrange(0, j as int),
            decreases lower@.len() - j,
        {
            if j >= want.len() - w {
                proof {
                    assert(lower@.subrange(0, rest.len() as int) =~= rest);
                }
                return Some(i);
            }
            if lower[j] != want[w + j] {
                proof {
                    if lower@.len() > rest.len() {
                        assert(lower@.subrange(0, rest.len() as int)[j as int] != rest[j as int]);
                    } else {
                        assert(rest.subrange(0, lower@.len() as int)[j as int] != lower@[j as int]);
                    }
                }
                return None;
            }
            j = j + 1;
            assert(lower@.subrange(0, j as int) =~= rest.subrange(0, j as int));
        }
        proof {
            assert(lower@.subrange(0, lower@.len() as int) =~= lower@);
            if lower@.len() > 0 {
                assert(rest.subrange(0, lower@.len() as int) =~= lower@);
            }
            assert(rest.subrange(lower@.len() as int, rest.len() as int) =~= want@.subrange(
                w + lower@.len(),
                want@.len() as int,
            ));
        }
        w = w + lower.len();
        i = i + 1;
    }
}

/// The first match of `want` at or after character `from`.
fn find_from(h: &Vec<char>, want: &Vec<char>, from: usize) -> (r: Option<(usize, usize)>)
    requires
        from <= h@.len(),
    ensures
        r matches Some((s, e)) ==> first_match(h@, want@, from as int) == Some((s as int, e as int)),
        r is None ==> first_match(h@, want@, from as int) is None,
{
    let ghost goal = first_match(h@, want@, from as int);
    let mut p: usize = from;
    while p < h.len()
        invariant
            from <= p <= h@.len(),
            goal == first_match(h@, want@, from as int),
            goal == first_match(h@, want@, p as int),
        decreases h@.len() - p,
    {
        match matches_at(h, want, p) {
            Some(e) => {
                return Some((p, e));
            },
            None => {},
        }
        p = p + 1;
    }
    None
}

/// Whether `haystack` holds `needle` anywhere, ignoring case.
pub fn contains(haystack: &str, needle: &str) -> (r: bool)
    ensures
        r == contains_spec(haystack@, needle@),
{
    let h = chars_of(haystack);
    let n = chars_of(needle);
    if n.len() == 0 {
        return false;
    }
    let want = fold(n.as_slice());
    find_from(&h, &want, 0).is_some()
}

/// Whether two values are the same text, ignoring case.
pub fn equals(left: &str, right: &str) -> (r: bool)
    ensures
        r == equals_spec(left@, right@),
{
    let l = chars_of(left);
    let r = chars_of(right);
    let a = fold(l.as_slice());
    let b = fold(r.as_slice());
    crate::document::serialize::same_chars(a.as_slice(), b.as_slice())
}

/// `haystack` with every occurrence of `needle` replaced, or `None` when
/// there was nothing to replace, so that a value nothing matched in is left
/// exactly as the file spelled it.
pub fn replace(haystack: &str, needle: &str, with: &str) -> (r: Option<String>)
    ensures
        r is Some <==> replace_spec(haystack@, needle@, with@) is Some,
        r matches Some(s) ==> Some(s@) == replace_spec(haystack@, needle@, with@),
{
    let h = chars_of(haystack);
    let n = chars_of(needle);
    let w = chars_of(with);
    if n.len() == 0 {
        return None;
    }
    let want = fold(n.as_slice());
    let ghost goal = replace_from(h@, want@, w@, 0);
    assert(find_spec(h@, n@, 0) == first_match(h@, want@, 0));
    let mut out: Vec<char> = Vec::new();
    let mut taken: usize = 0;
    let mut found = false;
    loop
        invariant
            taken <= h@.len(),
            found ==> first_match(h@, want@, 0) is Some,
            find_spec(h@, n@, 0) == first_match(h@, want@, 0),
            h@ == haystack@,
            n@ == needle@,
            w@ == with@,
            want@ == fold_case(n@),
            n@.len() > 0,
            goal == replace_from(h@, want@, w@, 0),
            found ==> goal == out@ + replace_from(h@, want@, w@, taken as int),
            !found ==> taken == 0 && out@.len() == 0,
        decreases h@.len() - taken,
    {
        proof {
            lemma_first_match_bounds(h@, want@, taken as int);
        }
        match find_from(&h, &want, taken) {
            None => {
                if !found {
                    return None;
                }
                crate::document::append(&mut out, crate::document::slice_of(&h, taken, h.len()));
                return Some(string_of(out.as_slice()));
            },
            Some((start, end)) => {
                let ghost before = out@;
                crate::document::append(&mut out, crate::document::slice_of(&h, taken, start));
                crate::document::append(&mut out, w.as_slice());
                proof {
                    if !found {
                        assert(before.len() == 0);
                        assert(before =~= Seq::<char>::empty());
                    }
                    assert(goal == before + replace_from(h@, want@, w@, taken as int));
                }
                found = true;
                if end == start {
                    crate::document::append(&mut out, crate::document::slice_of(&h, start, h.len()));
                    assert(out@ =~= goal);
                    return Some(string_of(out.as_slice()));
                }
                taken = end;
            },
        }
    }
}

/// A match read further along a text, behind a prefix, is the same match
/// moved along by the prefix.
proof fn lemma_match_behind(a: Seq<char>, r: Seq<char>, i: int, want: Seq<char>)
    requires
        0 <= i,
    ensures
        match_from(a + r, a.len() + i, want) == match match_from(r, i, want) {
            Some(e) => Some(e + a.len()),
            None => None,
        },
    decreases r.len() - i, want.len(),
{
    let h = a + r;
    if i < r.len() {
        assert(h[a.len() + i] == r[i]);
        let f = lowercase(r[i]);
        if f.len() == 0 {
            lemma_match_behind(a, r, i + 1, want);
        } else if want.len() != 0 && f.len() <= want.len() && want.subrange(0, f.len() as int)
            == f {
            lemma_match_behind(a, r, i + 1, want.subrange(f.len() as int, want.len() as int));
        }
    }
}

/// The first match behind a prefix is the first match of what follows it,
/// moved along.
proof fn lemma_first_match_behind(a: Seq<char>, r: Seq<char>, want: Seq<char>, p: int)
    requires
        0 <= p,
    ensures
        first_match(a + r, want, a.len() + p) == match first_match(r, want, p) {
            Some((s, e)) => Some((s + a.len(), e + a.len())),
            None => None,
        },
    decreases r.len() - p,
{
    if p < r.len() {
        lemma_match_behind(a, r, p, want);
        if match_from(r, p, want) is None {
            lemma_first_match_behind(a, r, want, p + 1);
        }
    }
}

/// Replacing behind a prefix replaces in what follows it.
proof fn lemma_replace_behind(a: Seq<char>, r: Seq<char>, want: Seq<char>, with: Seq<char>, p: int)
    requires
        0 <= p <= r.len(),
    ensures
        replace_from(a + r, want, with, a.len() + p) == replace_from(r, want, with, p),
    decreases r.len() - p,
{
    let h = a + r;
    let n = a.len() as int;
    lemma_first_match_behind(a, r, want, p);
    lemma_first_match_bounds(r, want, p);
    match first_match(r, want, p) {
        None => {
            assert(h.subrange(n + p, h.len() as int) =~= r.subrange(p, r.len() as int));
        },
        Some((s, e)) => {
            assert(h.subrange(n + p, n + s) =~= r.subrange(p, s));
            if e <= s || e > r.len() || s < p {
                assert(h.subrange(n + s, h.len() as int) =~= r.subrange(s, r.len() as int));
            } else {
                lemma_replace_behind(a, r, want, with, e);
            }
        },
    }
}

/// A text whose every character folds to something, and which starts with
/// `a`, matches the folded `a` at its start, the match ending where `a` does.
proof fn lemma_leading_match(a: Seq<char>, r: Seq<char>)
    requires
        forall|i: int| 0 <= i < (a + r).len() ==> #[trigger] lowercase((a + r)[i]).len() > 0,
    ensures
        match_from(a + r, 0, fold_case(a)) == Some(a.len() as int),
    decreases a.len(),
{
    let h = a + r;
    if a.len() == 0 {
        assert(fold_case(a) =~= Seq::<char>::empty());
        assert(h =~= r);
        if r.len() > 0 {
            assert(lowercase(h[0]).len() > 0);
        }
    } else {
        let rest = a.drop_first();
        let f = lowercase(a[0]);
        let want = fold_case(a);
        assert(h[0] == a[0]);
        assert(f.len() > 0);
        assert(want == f + fold_case(rest));
        assert(want.subrange(0, f.len() as int) =~= f);
        assert(want.subrange(f.len() as int, want.len() as int) =~= fold_case(rest));
        assert(h =~= seq![a[0]] + (rest + r));
        assert forall|i: int| 0 <= i < (rest + r).len() implies #[trigger] lowercase((rest + r)[i]).len() > 0 by {
            assert((rest + r)[i] == h[i + 1]);
        }
        lemma_leading_match(rest, r);
        lemma_match_behind(seq![a[0]], rest + r, 0, fold_case(rest));
    }
}

/// Replacing goes a match at a time and leaves none behind: a text that
/// starts with the needle, ignoring case, has that start replaced and then
/// everything after it replaced as it would be on its own, a match right
/// behind the first included. Every character is taken to fold to something,
/// as every character does.
pub proof fn lemma_replace_takes_a_leading_match(
    a: Seq<char>,
    r: Seq<char>,
    needle: Seq<char>,
    with: Seq<char>,
)
    requires
        fold_case(needle).len() > 0,
        fold_case(a) == fold_case(needle),
        forall|i: int| 0 <= i < (a + r).len() ==> #[trigger] lowercase((a + r)[i]).len() > 0,
    ensures
        replace_spec(a + r, needle, with) == Some(
            with + match replace_spec(r, needle, with) {
                Some(x) => x,
                None => r,
            },
        ),
{
    let h = a + r;
    let want = fold_case(needle);
    lemma_leading_match(a, r);
    assert(a.len() > 0) by {
        if a.len() == 0 {
            assert(fold_case(a).len() == 0);
        }
    }
    assert(first_match(h, want, 0) == Some((0int, a.len() as int)));
    assert(h.subrange(0, 0) =~= Seq::<char>::empty());
    lemma_replace_behind(a, r, want, with, 0);
    assert(replace_from(h, want, with, 0) =~= with + replace_from(r, want, with, 0));
    lemma_first_match_bounds(r, want, 0);
    if find_spec(r, needle, 0) is None {
        assert(r.subrange(0, r.len() as int) =~= r);
    }
}

} // verus!
