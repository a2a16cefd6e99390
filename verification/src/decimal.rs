//! Numbers as a data file writes them, read exactly.
//!
//! A value counts as a number when it is written the way Rust's own
//! `f64::from_str` accepts one: an optional sign, then either one of the words
//! `inf`, `infinity` and `nan` in any case, or digits with at most one point
//! among them and an optional exponent. What such a value means is kept as
//! decimal digits rather than rounded to a double, so two numbers are put in
//! order by what they say.
//!
//! A double holds a bounded range, and the bounds are kept: a magnitude of at
//! least 2^1024 - 2^970 (the point from which `from_str` rounds to infinity)
//! reads as infinite, and a magnitude below 10^-324, which rounds to zero,
//! reads as zero.

use vstd::prelude::*;
use crate::text::is_digit;

verus! {

/// 2^1024 - 2^970 written out: the smallest magnitude that reads as infinite.
pub const LIMIT: &'static str = "179769313486231580793728971405303415079934132710037826936173778980444968292764750946649017977587207096330286416692887910946555547851940402630657488671505820681908902000708383676273854845817711531764475730270069855571366959622842914819860834936475292719074168444365510704342711559699508093042880177904174497792";

/// The digits of `LIMIT`.
pub open spec fn limit() -> Seq<char> {
    LIMIT@
}

/// What a written number means.
///
/// A finite number other than zero is `±0.d₁d₂…dₙ × 10^exponent`, with
/// `digits` holding `d₁…dₙ`: the first is not `0` and neither is the last, so
/// each number has exactly one way of being held.
pub enum Scalar {
    Zero,
    Finite { negative: bool, digits: Seq<char>, exponent: int },
    Infinite { negative: bool },
    NotANumber,
}

/// A number read from text, as `Scalar` says it.
#[derive(Debug, Clone, PartialEq)]
pub enum Decimal {
    Zero,
    Finite { negative: bool, digits: Vec<char>, exponent: i16 },
    Infinite { negative: bool },
    NotANumber,
}

impl View for Decimal {
    type V = Scalar;

    open spec fn view(&self) -> Scalar {
        match self {
            Decimal::Zero => Scalar::Zero,
            Decimal::Finite { negative, digits, exponent } => Scalar::Finite {
                negative: *negative,
                digits: digits@,
                exponent: *exponent as int,
            },
            Decimal::Infinite { negative } => Scalar::Infinite { negative: *negative },
            Decimal::NotANumber => Scalar::NotANumber,
        }
    }
}

/// How many ASCII digits follow one another in `s` from position `from`.
pub open spec fn run(s: Seq<char>, from: int) -> int
    decreases s.len() - from,
{
    if 0 <= from < s.len() && is_digit(s[from]) {
        1 + run(s, from + 1)
    } else {
        0
    }
}

/// Whether a character is the given lower-case ASCII letter in either case.
pub open spec fn same_letter(c: char, lower: char) -> bool {
    c == lower || (c as u32) + 32 == (lower as u32)
}

/// Whether `s` spells `word`, ignoring ASCII case.
pub open spec fn spells(s: Seq<char>, word: Seq<char>) -> bool {
    &&& s.len() == word.len()
    &&& forall|i: int| 0 <= i < s.len() ==> same_letter(#[trigger] s[i], word[i])
}

/// The value of a run of decimal digits.
pub open spec fn digits_value(s: Seq<char>) -> int
    decreases s.len(),
{
    if s.len() == 0 {
        0
    } else {
        digits_value(s.drop_last()) * 10 + (s.last() as int - '0' as int)
    }
}

/// The digits before the point.
pub open spec fn whole_len(b: Seq<char>) -> int {
    run(b, 0)
}

pub open spec fn has_point(b: Seq<char>) -> bool {
    whole_len(b) < b.len() && b[whole_len(b)] == '.'
}

/// Where the digits after the point begin.
pub open spec fn fraction_start(b: Seq<char>) -> int {
    if has_point(b) {
        whole_len(b) + 1
    } else {
        whole_len(b)
    }
}

pub open spec fn fraction_len(b: Seq<char>) -> int {
    if has_point(b) {
        run(b, fraction_start(b))
    } else {
        0
    }
}

/// Where the digits and the point end, and an exponent may begin.
pub open spec fn mantissa_end(b: Seq<char>) -> int {
    fraction_start(b) + fraction_len(b)
}

/// Where the exponent's digits begin, past the `e` and any sign.
pub open spec fn power_start(b: Seq<char>) -> int {
    let m = mantissa_end(b);
    if m + 1 < b.len() && (b[m + 1] == '+' || b[m + 1] == '-') {
        m + 2
    } else {
        m + 1
    }
}

/// Whether what follows the digits is nothing, or an exponent and nothing
/// after it.
pub open spec fn power_ok(b: Seq<char>) -> bool {
    let m = mantissa_end(b);
    ||| m == b.len()
    ||| {
        &&& m < b.len()
        &&& (b[m] == 'e' || b[m] == 'E')
        &&& run(b, power_start(b)) >= 1
        &&& power_start(b) + run(b, power_start(b)) == b.len()
    }
}

/// The exponent written, or zero where none is.
pub open spec fn power_of(b: Seq<char>) -> int {
    let m = mantissa_end(b);
    if m >= b.len() {
        0
    } else {
        let v = digits_value(b.subrange(power_start(b), b.len() as int));
        if b[m + 1] == '-' {
            -v
        } else {
            v
        }
    }
}

/// Whether `b`, with any sign already taken off, is digits with at most one
/// point among them, at least one digit, and an optional exponent.
pub open spec fn is_figure(b: Seq<char>) -> bool {
    whole_len(b) + fraction_len(b) >= 1 && power_ok(b)
}

/// Every digit of the mantissa, in order, without the point.
pub open spec fn figure_digits(b: Seq<char>) -> Seq<char> {
    b.subrange(0, whole_len(b)) + b.subrange(fraction_start(b), mantissa_end(b))
}

/// How many `0` digits follow one another in `d` from position `from`.
pub open spec fn zeros_from(d: Seq<char>, from: int) -> int
    decreases d.len() - from,
{
    if 0 <= from < d.len() && d[from] == '0' {
        1 + zeros_from(d, from + 1)
    } else {
        0
    }
}

/// How many `0` digits come just before position `to` of `d`.
pub open spec fn zeros_back(d: Seq<char>, to: int) -> int
    decreases to,
{
    if 0 < to <= d.len() && d[to - 1] == '0' {
        1 + zeros_back(d, to - 1)
    } else {
        0
    }
}

/// Whether one digit string comes before another read as the digits after a
/// point: character by character, a string that runs out first being the
/// smaller.
pub open spec fn lex_less(a: Seq<char>, b: Seq<char>) -> bool
    decreases a.len(),
{
    if a.len() == 0 {
        b.len() > 0
    } else if b.len() == 0 {
        false
    } else if a[0] != b[0] {
        a[0] < b[0]
    } else {
        lex_less(a.drop_first(), b.drop_first())
    }
}

/// The number that the digits `d` make, read with `point` of them before the
/// point and then scaled by ten to the `power`.
pub open spec fn scalar_from(negative: bool, d: Seq<char>, point: int, power: int) -> Scalar {
    let lz = zeros_from(d, 0);
    if lz == d.len() {
        Scalar::Zero
    } else {
        let m = d.subrange(lz, d.len() - zeros_back(d, d.len() as int));
        let e = point - lz + power;
        if e <= -324 {
            Scalar::Zero
        } else if e > 309 || (e == 309 && !lex_less(m, limit())) {
            Scalar::Infinite { negative }
        } else {
            Scalar::Finite { negative, digits: m, exponent: e }
        }
    }
}

/// What `t` says as a number, or nothing when it is not written as one.
pub open spec fn scalar_of(t: Seq<char>) -> Option<Scalar> {
    let signed = t.len() > 0 && (t[0] == '+' || t[0] == '-');
    let negative = t.len() > 0 && t[0] == '-';
    let b = if signed {
        t.subrange(1, t.len() as int)
    } else {
        t
    };
    if spells(b, seq!['i', 'n', 'f']) || spells(b, seq!['i', 'n', 'f', 'i', 'n', 'i', 't', 'y']) {
        Some(Scalar::Infinite { negative })
    } else if spells(b, seq!['n', 'a', 'n']) {
        Some(Scalar::NotANumber)
    } else if is_figure(b) {
        Some(scalar_from(negative, figure_digits(b), whole_len(b), power_of(b)))
    } else {
        None
    }
}

/// Exponents at least this large are saturated while they are read: any
/// number with one is out of range whatever its digits.
pub const POWER_CAP: u128 = 100_000_000_000_000_000_000;

fn is_digit_char(c: char) -> (r: bool)
    ensures
        r == is_digit(c),
{
    '0' <= c && c <= '9'
}

/// The length of the run of digits in `b` from `from`.
fn run_at(b: &[char], from: usize) -> (n: usize)
    requires
        from <= b@.len(),
    ensures
        n as int == run(b@, from as int),
        from + n <= b@.len(),
        forall|k: int| from <= k < from + n ==> is_digit(#[trigger] b@[k]),
        from + n < b@.len() ==> !is_digit(b@[from + n as int]),
{
    let mut j: usize = from;
    while j < b.len() && is_digit_char(b[j])
        invariant
            from <= j <= b@.len(),
            run(b@, from as int) == (j - from) + run(b@, j as int),
            forall|k: int| from <= k < j ==> is_digit(#[trigger] b@[k]),
        decreases b@.len() - j,
    {
        assert(run(b@, j as int) == 1 + run(b@, j + 1));
        j = j + 1;
    }
    j - from
}

/// The number of `0` digits in `d` from `from` onwards, before anything else.
fn zeros_at(d: &[char], from: usize) -> (n: usize)
    requires
        from <= d@.len(),
    ensures
        n as int == zeros_from(d@, from as int),
        from + n <= d@.len(),
        from + n < d@.len() ==> d@[from + n as int] != '0',
{
    let mut j: usize = from;
    while j < d.len() && d[j] == '0'
        invariant
            from <= j <= d@.len(),
            zeros_from(d@, from as int) == (j - from) + zeros_from(d@, j as int),
        decreases d@.len() - j,
    {
        assert(zeros_from(d@, j as int) == 1 + zeros_from(d@, j + 1));
        j = j + 1;
    }
    j - from
}

/// The number of `0` digits that end `d`.
fn zeros_at_end(d: &[char]) -> (n: usize)
    ensures
        n as int == zeros_back(d@, d@.len() as int),
        n <= d@.len(),
{
    let mut j: usize = d.len();
    while j > 0 && d[j - 1] == '0'
        invariant
            j <= d@.len(),
            zeros_back(d@, d@.len() as int) == (d@.len() - j) + zeros_back(d@, j as int),
        decreases j,
    {
        assert(zeros_back(d@, j as int) == 1 + zeros_back(d@, j - 1));
        j = j - 1;
    }
    d.len() - j
}

/// Whether `b` spells `word` in any ASCII case.
fn spells_word(b: &[char], word: &Vec<char>) -> (r: bool)
    ensures
        r == spells(b@, word@),
{
    if b.len() != word.len() {
        return false;
    }
    let mut i: usize = 0;
    while i < b.len()
        invariant
            i <= b@.len(),
            b@.len() == word@.len(),
            forall|k: int| 0 <= k < i ==> same_letter(#[trigger] b@[k], word@[k]),
        decreases b@.len() - i,
    {
        let c = b[i];
        let l = word[i];
        if !(c == l || ((l as u32) >= 32 && (c as u32) == (l as u32) - 32)) {
            return false;
        }
        i = i + 1;
    }
    true
}

proof fn lemma_digits_value_nonneg(s: Seq<char>)
    requires
        forall|k: int| 0 <= k < s.len() ==> is_digit(#[trigger] s[k]),
    ensures
        digits_value(s) >= 0,
    decreases s.len(),
{
    if s.len() > 0 {
        assert forall|k: int| 0 <= k < s.drop_last().len() implies is_digit(
            #[trigger] s.drop_last()[k],
        ) by {
            assert(s.drop_last()[k] == s[k]);
        }
        lemma_digits_value_nonneg(s.drop_last());
    }
}

/// The value of the digits `b[from..to]`, or `POWER_CAP` when that is
/// greater.
fn power_value(b: &[char], from: usize, to: usize) -> (x: u128)
    requires
        from <= to <= b@.len(),
        forall|k: int| from <= k < to ==> is_digit(#[trigger] b@[k]),
    ensures
        digits_value(b@.subrange(from as int, to as int)) >= POWER_CAP ==> x == POWER_CAP,
        digits_value(b@.subrange(from as int, to as int)) < POWER_CAP ==> x == digits_value(
            b@.subrange(from as int, to as int),
        ),
{
    let mut x: u128 = 0;
    let mut j: usize = from;
    while j < to
        invariant
            from <= j <= to <= b@.len(),
            forall|k: int| from <= k < to ==> is_digit(#[trigger] b@[k]),
            digits_value(b@.subrange(from as int, j as int)) >= POWER_CAP ==> x == POWER_CAP,
            digits_value(b@.subrange(from as int, j as int)) < POWER_CAP ==> x == digits_value(
                b@.subrange(from as int, j as int),
            ),
        decreases to - j,
    {
        let ghost before = b@.subrange(from as int, j as int);
        let ghost after = b@.subrange(from as int, j + 1);
        proof {
            assert(after.drop_last() =~= before);
            assert(after.last() == b@[j as int]);
            assert forall|k: int| 0 <= k < before.len() implies is_digit(#[trigger] before[k]) by {
                assert(before[k] == b@[from + k]);
            }
            lemma_digits_value_nonneg(before);
        }
        let c = b[j];
        let d: u128 = (c as u32 - '0' as u32) as u128;
        if x < POWER_CAP {
            let y: u128 = x * 10 + d;
            x = if y < POWER_CAP { y } else { POWER_CAP };
        }
        j = j + 1;
    }
    x
}

/// Whether one digit string comes before another, as `lex_less` says.
fn digits_before(a: &[char], b: &[char]) -> (r: bool)
    ensures
        r == lex_less(a@, b@),
{
    let mut i: usize = 0;
    assert(a@.subrange(0, a@.len() as int) =~= a@);
    assert(b@.subrange(0, b@.len() as int) =~= b@);
    while i < a.len() && i < b.len() && a[i] == b[i]
        invariant
            i <= a@.len(),
            i <= b@.len(),
            lex_less(a@, b@) == lex_less(
                a@.subrange(i as int, a@.len() as int),
                b@.subrange(i as int, b@.len() as int),
            ),
        decreases a@.len() - i,
    {
        let ghost sa = a@.subrange(i as int, a@.len() as int);
        let ghost sb = b@.subrange(i as int, b@.len() as int);
        assert(sa.drop_first() =~= a@.subrange(i + 1, a@.len() as int));
        assert(sb.drop_first() =~= b@.subrange(i + 1, b@.len() as int));
        i = i + 1;
    }
    let ghost sa = a@.subrange(i as int, a@.len() as int);
    let ghost sb = b@.subrange(i as int, b@.len() as int);
    if i == a.len() {
        i < b.len()
    } else if i == b.len() {
        false
    } else {
        assert(sa[0] == a@[i as int] && sb[0] == b@[i as int]);
        a[i] < b[i]
    }
}

proof fn lemma_zeros_back_stops(d: Seq<char>, to: int, p: int)
    requires
        0 <= p < to <= d.len(),
        d[p] != '0',
    ensures
        zeros_back(d, to) <= to - p - 1,
    decreases to,
{
    if to - 1 > p && d[to - 1] == '0' {
        lemma_zeros_back_stops(d, to - 1, p);
    }
}

/// A copy of `s[from..to]`.
fn copy_of(s: &[char], from: usize, to: usize) -> (r: Vec<char>)
    requires
        from <= to <= s@.len(),
    ensures
        r@ == s@.subrange(from as int, to as int),
{
    let mut r: Vec<char> = Vec::new();
    let mut k: usize = from;
    while k < to
        invariant
            from <= k <= to <= s@.len(),
            r@ == s@.subrange(from as int, k as int),
        decreases to - k,
    {
        r.push(s[k]);
        k = k + 1;
        assert(r@ =~= s@.subrange(from as int, k as int));
    }
    r
}

/// Whether what follows a mantissa ending at `m` is a proper exponent or
/// nothing, and if so the exponent, saturated at `POWER_CAP` either way.
fn read_power(b: &[char], m: usize) -> (r: Option<i128>)
    requires
        m == mantissa_end(b@),
        m <= b@.len(),
    ensures
        r is Some <==> power_ok(b@),
        r matches Some(p) ==> -POWER_CAP <= p <= POWER_CAP,
        r matches Some(p) ==> {
            ||| p == power_of(b@)
            ||| p == POWER_CAP && power_of(b@) >= POWER_CAP
            ||| p == -POWER_CAP && power_of(b@) <= -POWER_CAP
        },
{
    if m == b.len() {
        return Some(0);
    }
    if !(b[m] == 'e' || b[m] == 'E') {
        return None;
    }
    let ds: usize = if m + 1 < b.len() && (b[m + 1] == '+' || b[m + 1] == '-') {
        m + 2
    } else {
        m + 1
    };
    assert(power_start(b@) == ds);
    let n = run_at(b, ds);
    if n == 0 || ds + n != b.len() {
        return None;
    }
    let v = power_value(b, ds, b.len());
    if b[m + 1] == '-' {
        Some(0 - (v as i128))
    } else {
        Some(v as i128)
    }
}

/// The digits of a mantissa whose whole part is `b[..a]` and whose fraction is
/// `b[fs..m]`.
fn mantissa_digits(b: &[char], a: usize, fs: usize, m: usize) -> (d: Vec<char>)
    requires
        a <= fs <= m <= b@.len(),
    ensures
        d@ == b@.subrange(0, a as int) + b@.subrange(fs as int, m as int),
{
    let mut d: Vec<char> = Vec::new();
    let mut k: usize = 0;
    while k < a
        invariant
            k <= a <= b@.len(),
            d@ == b@.subrange(0, k as int),
        decreases a - k,
    {
        d.push(b[k]);
        k = k + 1;
        assert(d@ =~= b@.subrange(0, k as int));
    }
    let mut k: usize = fs;
    assert(b@.subrange(fs as int, fs as int) =~= Seq::<char>::empty());
    assert(d@ =~= b@.subrange(0, a as int) + b@.subrange(fs as int, fs as int));
    while k < m
        invariant
            a <= fs <= k <= m <= b@.len(),
            d@ == b@.subrange(0, a as int) + b@.subrange(fs as int, k as int),
        decreases m - k,
    {
        d.push(b[k]);
        k = k + 1;
        assert(d@ =~= b@.subrange(0, a as int) + b@.subrange(fs as int, k as int));
    }
    d
}

/// The number the digits `d` make with `point` of them before the point,
/// scaled by ten to `power`, where `power` may stand for any exponent at least
/// as far out as `POWER_CAP`.
fn scale(negative: bool, d: Vec<char>, point: usize, power: i128, Ghost(exact): Ghost<int>) -> (r:
    Decimal)
    requires
        -POWER_CAP <= power <= POWER_CAP,
        power == exact || (power == POWER_CAP && exact >= POWER_CAP) || (power == -POWER_CAP
            && exact <= -POWER_CAP),
    ensures
        r@ == scalar_from(negative, d@, point as int, exact),
{
    let lz = zeros_at(d.as_slice(), 0);
    if lz == d.len() {
        return Decimal::Zero;
    }
    let tz = zeros_at_end(d.as_slice());
    proof {
        lemma_zeros_back_stops(d@, d@.len() as int, lz as int);
    }
    let digits = copy_of(d.as_slice(), lz, d.len() - tz);
    let e: i128 = point as i128 - lz as i128 + power;
    let ghost true_e = point - lz + exact;
    assert((e <= -324) == (true_e <= -324));
    assert((e > 309) == (true_e > 309));
    assert(-324 < e <= 309 ==> e == true_e);
    if e <= -324 {
        Decimal::Zero
    } else if e > 309 {
        Decimal::Infinite { negative }
    } else {
        let limit = crate::text::chars_of(LIMIT);
        if e == 309 && !digits_before(digits.as_slice(), limit.as_slice()) {
            Decimal::Infinite { negative }
        } else {
            Decimal::Finite { negative, digits, exponent: e as i16 }
        }
    }
}

/// Reads `b`, a number with any sign already taken off, as `is_figure` and
/// `scalar_from` say.
fn read_figure(b: &[char], negative: bool) -> (r: Option<Decimal>)
    ensures
        r is Some <==> is_figure(b@),
        r matches Some(d) ==> d@ == scalar_from(
            negative,
            figure_digits(b@),
            whole_len(b@),
            power_of(b@),
        ),
{
    let a = run_at(b, 0);
    let point = a < b.len() && b[a] == '.';
    let fs: usize = if point {
        a + 1
    } else {
        a
    };
    let f: usize = if point {
        run_at(b, fs)
    } else {
        0
    };
    let m: usize = fs + f;
    assert(whole_len(b@) == a);
    assert(has_point(b@) == point);
    assert(fraction_start(b@) == fs);
    assert(fraction_len(b@) == f);
    assert(mantissa_end(b@) == m);
    if a + f == 0 {
        return None;
    }
    match read_power(b, m) {
        None => None,
        Some(power) => {
            let d = mantissa_digits(b, a, fs, m);
            assert(d@ == figure_digits(b@));
            Some(scale(negative, d, a, power, Ghost(power_of(b@))))
        },
    }
}

/// Reads the whole of `t` as a number, the way `f64::from_str` would accept
/// it, and says what it means.
pub fn read(t: &[char]) -> (r: Option<Decimal>)
    ensures
        r is Some <==> scalar_of(t@) is Some,
        r matches Some(d) ==> scalar_of(t@) == Some(d@),
{
    let signed = t.len() > 0 && (t[0] == '+' || t[0] == '-');
    let negative = t.len() > 0 && t[0] == '-';
    let b: &[char] = if signed {
        vstd::slice::slice_subrange(t, 1, t.len())
    } else {
        t
    };
    let inf = vec!['i', 'n', 'f'];
    let infinity = vec!['i', 'n', 'f', 'i', 'n', 'i', 't', 'y'];
    let nan = vec!['n', 'a', 'n'];
    assert(inf@ =~= seq!['i', 'n', 'f']);
    assert(infinity@ =~= seq!['i', 'n', 'f', 'i', 'n', 'i', 't', 'y']);
    assert(nan@ =~= seq!['n', 'a', 'n']);
    if spells_word(b, &inf) || spells_word(b, &infinity) {
        return Some(Decimal::Infinite { negative });
    }
    if spells_word(b, &nan) {
        return Some(Decimal::NotANumber);
    }
    read_figure(b, negative)
}

/// Which stretch of the number line a value lies in: minus infinity, the
/// negative numbers, zero, the positive numbers, plus infinity; and past all of
/// them, what is not a number.
pub open spec fn tier(s: Scalar) -> int {
    match s {
        Scalar::Infinite { negative } => if negative {
            0
        } else {
            4
        },
        Scalar::Finite { negative, .. } => if negative {
            1
        } else {
            3
        },
        Scalar::Zero => 2,
        Scalar::NotANumber => 5,
    }
}

/// Whether one finite number other than zero is smaller in magnitude than
/// another.
pub open spec fn smaller(a: Scalar, b: Scalar) -> bool {
    match (a, b) {
        (
            Scalar::Finite { digits: da, exponent: ea, .. },
            Scalar::Finite { digits: db, exponent: eb, .. },
        ) => ea < eb || (ea == eb && lex_less(da, db)),
        _ => false,
    }
}

/// Whether `a` lies below `b` on the number line. Nothing lies below or above
/// what is not a number.
pub open spec fn below(a: Scalar, b: Scalar) -> bool {
    &&& !(a is NotANumber)
    &&& !(b is NotANumber)
    &&& {
        ||| tier(a) < tier(b)
        ||| tier(a) == tier(b) && tier(a) == 3 && smaller(a, b)
        ||| tier(a) == tier(b) && tier(a) == 1 && smaller(b, a)
    }
}

/// -1, 0 or 1 as `a` lies below, level with or above `b`, and nothing when
/// either is not a number.
pub open spec fn order(a: Scalar, b: Scalar) -> Option<int> {
    if a is NotANumber || b is NotANumber {
        None
    } else if below(a, b) {
        Some(-1)
    } else if below(b, a) {
        Some(1)
    } else {
        Some(0)
    }
}

fn tier_of(d: &Decimal) -> (t: u8)
    ensures
        t as int == tier(d@),
{
    match d {
        Decimal::Infinite { negative } => if *negative {
            0
        } else {
            4
        },
        Decimal::Finite { negative, .. } => if *negative {
            1
        } else {
            3
        },
        Decimal::Zero => 2,
        Decimal::NotANumber => 5,
    }
}

/// An answer of `order_of` as the number it stands for.
pub open spec fn widened(o: Option<i8>) -> Option<int> {
    match o {
        Some(k) => Some(k as int),
        None => None,
    }
}

/// Where one number lies against another, as `order` says.
pub fn order_of(a: &Decimal, b: &Decimal) -> (r: Option<i8>)
    ensures
        widened(r) == order(a@, b@),
{
    let ta = tier_of(a);
    let tb = tier_of(b);
    if ta == 5 || tb == 5 {
        return None;
    }
    if ta < tb {
        return Some(-1);
    }
    if ta > tb {
        return Some(1);
    }
    match (a, b) {
        (
            Decimal::Finite { digits: da, exponent: ea, .. },
            Decimal::Finite { digits: db, exponent: eb, .. },
        ) => {
            let less = *ea < *eb || (*ea == *eb && digits_before(da.as_slice(), db.as_slice()));
            let more = *eb < *ea || (*ea == *eb && digits_before(db.as_slice(), da.as_slice()));
            let (low, high) = if ta == 3 {
                (less, more)
            } else {
                (more, less)
            };
            if low {
                Some(-1)
            } else if high {
                Some(1)
            } else {
                Some(0)
            }
        },
        _ => Some(0),
    }
}

proof fn lemma_lex_irreflexive(a: Seq<char>)
    ensures
        !lex_less(a, a),
    decreases a.len(),
{
    if a.len() > 0 {
        lemma_lex_irreflexive(a.drop_first());
    }
}

proof fn lemma_lex_asymmetric(a: Seq<char>, b: Seq<char>)
    requires
        lex_less(a, b),
    ensures
        !lex_less(b, a),
    decreases a.len(),
{
    if a.len() > 0 && b.len() > 0 && a[0] == b[0] {
        lemma_lex_asymmetric(a.drop_first(), b.drop_first());
    }
}

proof fn lemma_lex_total(a: Seq<char>, b: Seq<char>)
    requires
        a != b,
    ensures
        lex_less(a, b) || lex_less(b, a),
    decreases a.len(),
{
    if a.len() > 0 && b.len() > 0 && a[0] == b[0] {
        if a.drop_first() == b.drop_first() {
            assert(a =~= seq![a[0]] + a.drop_first());
            assert(b =~= seq![b[0]] + b.drop_first());
        }
        lemma_lex_total(a.drop_first(), b.drop_first());
    } else if a.len() == 0 && b.len() == 0 {
        assert(a =~= b);
    }
}

proof fn lemma_lex_transitive(a: Seq<char>, b: Seq<char>, c: Seq<char>)
    requires
        lex_less(a, b),
        lex_less(b, c),
    ensures
        lex_less(a, c),
    decreases a.len(),
{
    if a.len() > 0 && b.len() > 0 && c.len() > 0 && a[0] == b[0] && b[0] == c[0] {
        lemma_lex_transitive(a.drop_first(), b.drop_first(), c.drop_first());
    }
}

/// The numbers are totally ordered: a number is level only with itself, one
/// lies above another exactly when the other lies below it, and lying at or
/// below carries through from one number to the next.
pub proof fn lemma_order_total(a: Scalar, b: Scalar, c: Scalar)
    requires
        !(a is NotANumber),
        !(b is NotANumber),
        !(c is NotANumber),
    ensures
        order(a, b) == Some(0int) <==> a == b,
        order(a, b) == Some(-1int) <==> order(b, a) == Some(1int),
        order(a, b) != Some(1int) && order(b, c) != Some(1int) ==> order(a, c) != Some(1int),
{
    lemma_order_facts(a, b);
    lemma_order_facts(b, c);
    lemma_order_facts(a, c);
    if below(a, b) && below(b, c) {
        lemma_below_transitive(a, b, c);
    }
    if order(a, b) == Some(0int) && order(b, c) == Some(-1int) {
        assert(a == b);
    }
    if order(a, b) == Some(-1int) && order(b, c) == Some(0int) {
        assert(b == c);
    }
}

proof fn lemma_order_facts(a: Scalar, b: Scalar)
    requires
        !(a is NotANumber),
        !(b is NotANumber),
    ensures
        !(below(a, b) && below(b, a)),
        !below(a, b) && !below(b, a) <==> a == b,
{
    if let (
        Scalar::Finite { digits: da, exponent: ea, negative: na },
        Scalar::Finite { digits: db, exponent: eb, negative: nb },
    ) = (a, b) {
        lemma_lex_irreflexive(da);
        if lex_less(da, db) {
            lemma_lex_asymmetric(da, db);
        }
        if da != db {
            lemma_lex_total(da, db);
        }
    }
}

proof fn lemma_below_transitive(a: Scalar, b: Scalar, c: Scalar)
    requires
        below(a, b),
        below(b, c),
    ensures
        below(a, c),
{
    if let (
        Scalar::Finite { digits: da, .. },
        Scalar::Finite { digits: db, .. },
        Scalar::Finite { digits: dc, .. },
    ) = (a, b, c) {
        if lex_less(da, db) && lex_less(db, dc) {
            lemma_lex_transitive(da, db, dc);
        }
        if lex_less(db, da) && lex_less(dc, db) {
            lemma_lex_transitive(dc, db, da);
        }
    }
}

/// The number with its sign turned over: zero and what is not a number stay
/// as they are.
pub open spec fn negated(s: Scalar) -> Scalar {
    match s {
        Scalar::Finite { negative, digits, exponent } => Scalar::Finite {
            negative: !negative,
            digits,
            exponent,
        },
        Scalar::Infinite { negative } => Scalar::Infinite { negative: !negative },
        other => other,
    }
}

/// Turning the sign of both numbers over turns their order round: -a lies
/// below -b exactly when b lies below a.
pub proof fn lemma_negation_reverses_order(a: Scalar, b: Scalar)
    ensures
        order(negated(a), negated(b)) == order(b, a),
{
}

/// Ten to the `n`.
pub open spec fn ten_to(n: nat) -> int
    decreases n,
{
    if n == 0 {
        1
    } else {
        10 * ten_to((n - 1) as nat)
    }
}

/// Whether every character of `d` is an ASCII digit.
pub open spec fn all_digits(d: Seq<char>) -> bool {
    forall|i: int| 0 <= i < d.len() ==> is_digit(#[trigger] d[i])
}

/// Whether a number is held the one way it can be: a finite number's digits
/// are ASCII digits, at least one, the first and the last not `0`.
pub open spec fn well_held(s: Scalar) -> bool {
    match s {
        Scalar::Finite { digits, .. } => {
            &&& digits.len() >= 1
            &&& all_digits(digits)
            &&& digits[0] != '0'
            &&& digits.last() != '0'
        },
        _ => true,
    }
}

/// How far a finite number lies from zero, times ten to the `k`: its digits
/// read as a whole number, times ten to `k` plus its exponent less the number
/// of its digits. Zero and the rest lie at no distance.
pub open spec fn size(s: Scalar, k: int) -> int {
    match s {
        Scalar::Finite { digits, exponent, .. } => digits_value(digits) * ten_to(
            (k + exponent - digits.len()) as nat,
        ),
        _ => 0,
    }
}

/// The number a finite number or zero stands for, times ten to the `k`: its
/// size with its sign. For `k` large enough (see `scale_fits`) this is the
/// number exactly, scaled to a whole number.
pub open spec fn scaled(s: Scalar, k: int) -> int {
    match s {
        Scalar::Finite { negative, .. } => if negative {
            -size(s, k)
        } else {
            size(s, k)
        },
        _ => 0,
    }
}

/// Whether `k` is large enough for `scaled(s, k)` to be a whole number.
pub open spec fn scale_fits(s: Scalar, k: int) -> bool {
    match s {
        Scalar::Finite { digits, exponent, .. } => k + exponent - digits.len() >= 0,
        _ => true,
    }
}

proof fn lemma_ten_to_positive(n: nat)
    ensures
        ten_to(n) >= 1,
    decreases n,
{
    if n > 0 {
        lemma_ten_to_positive((n - 1) as nat);
    }
}

proof fn lemma_ten_to_add(x: nat, y: nat)
    ensures
        ten_to(x + y) == ten_to(x) * ten_to(y),
    decreases y,
{
    if y > 0 {
        lemma_ten_to_add(x, (y - 1) as nat);
        assert(ten_to(x + y) == 10 * ten_to((x + y - 1) as nat));
        assert((x + y - 1) as nat == x + (y - 1) as nat);
        assert(ten_to(x) * ten_to(y) == ten_to(x) * (10 * ten_to((y - 1) as nat)));
        assert(ten_to(x) * (10 * ten_to((y - 1) as nat)) == 10 * (ten_to(x) * ten_to(
            (y - 1) as nat,
        ))) by (nonlinear_arith);
    }
}

proof fn lemma_ten_to_grows(x: nat, y: nat)
    requires
        x <= y,
    ensures
        ten_to(x) <= ten_to(y),
    decreases y - x,
{
    if x < y {
        lemma_ten_to_grows(x, (y - 1) as nat);
        lemma_ten_to_positive((y - 1) as nat);
    }
}

/// Digits read as a whole number lie below ten to their count.
proof fn lemma_digits_value_below(d: Seq<char>)
    requires
        all_digits(d),
    ensures
        0 <= digits_value(d) < ten_to(d.len()),
    decreases d.len(),
{
    if d.len() > 0 {
        let e = d.drop_last();
        assert(all_digits(e)) by {
            assert forall|i: int| 0 <= i < e.len() implies is_digit(#[trigger] e[i]) by {
                assert(e[i] == d[i]);
            }
        }
        lemma_digits_value_below(e);
        assert(is_digit(d[d.len() - 1]));
    }
}

/// Digits read as a whole number, the first split off: the first digit times
/// ten to the count of the rest, and the rest.
proof fn lemma_digits_value_first(d: Seq<char>)
    requires
        d.len() >= 1,
    ensures
        digits_value(d) == (d[0] as int - '0' as int) * ten_to((d.len() - 1) as nat) + digits_value(
            d.drop_first(),
        ),
    decreases d.len(),
{
    if d.len() > 1 {
        let e = d.drop_last();
        lemma_digits_value_first(e);
        assert(e.drop_first() =~= d.drop_first().drop_last());
        assert(d.drop_first().last() == d.last());
        let x = d[0] as int - '0' as int;
        let n = (d.len() - 2) as nat;
        assert(e[0] == d[0]);
        assert(digits_value(d) == digits_value(e) * 10 + (d.last() as int - '0' as int));
        assert(digits_value(d.drop_first()) == digits_value(d.drop_first().drop_last()) * 10 + (
        d.drop_first().last() as int - '0' as int));
        assert(ten_to((d.len() - 1) as nat) == 10 * ten_to(n));
        assert(digits_value(e) == x * ten_to(n) + digits_value(e.drop_first()));
        assert((x * ten_to(n) + digits_value(e.drop_first())) * 10 == x * (10 * ten_to(n)) + digits_value(
            e.drop_first(),
        ) * 10) by (nonlinear_arith);
    } else {
        assert(d.drop_first().len() == 0);
        assert(d.drop_last().len() == 0);
        assert(digits_value(d.drop_first()) == 0);
        assert(digits_value(d.drop_last()) == 0);
        assert(ten_to(0) == 1);
        assert(d.last() == d[0]);
        assert(digits_value(d) == d[0] as int - '0' as int);
    }
}

/// The digits of a number held the one way, read as a whole number, lie at or
/// above ten to one less than their count.
proof fn lemma_digits_value_above(d: Seq<char>)
    requires
        d.len() >= 1,
        all_digits(d),
        d[0] != '0',
    ensures
        digits_value(d) >= ten_to((d.len() - 1) as nat),
{
    lemma_digits_value_first(d);
    let rest = d.drop_first();
    assert(all_digits(rest)) by {
        assert forall|i: int| 0 <= i < rest.len() implies is_digit(#[trigger] rest[i]) by {
            assert(rest[i] == d[i + 1]);
        }
    }
    lemma_digits_value_below(rest);
    assert(is_digit(d[0]));
    let x = d[0] as int - '0' as int;
    assert(x >= 1);
    lemma_ten_to_positive((d.len() - 1) as nat);
    assert(x * ten_to((d.len() - 1) as nat) >= ten_to((d.len() - 1) as nat)) by (nonlinear_arith)
        requires
            x >= 1,
            ten_to((d.len() - 1) as nat) >= 1,
    ;
}

/// Digits whose last is not `0` read as a whole number above zero.
proof fn lemma_digits_value_positive(d: Seq<char>)
    requires
        d.len() >= 1,
        all_digits(d),
        d.last() != '0',
    ensures
        digits_value(d) >= 1,
{
    let e = d.drop_last();
    assert(all_digits(e)) by {
        assert forall|i: int| 0 <= i < e.len() implies is_digit(#[trigger] e[i]) by {
            assert(e[i] == d[i]);
        }
    }
    lemma_digits_value_below(e);
    assert(is_digit(d[d.len() - 1]));
}

/// Digits read after a point, scaled up by ten to `m`: their whole-number
/// value times ten to `m` less their count.
pub open spec fn fraction_scaled(d: Seq<char>, m: int) -> int {
    digits_value(d) * ten_to((m - d.len()) as nat)
}

/// Digits after a point lie below one, scaled: below ten to `m`.
proof fn lemma_fraction_below(d: Seq<char>, m: int)
    requires
        all_digits(d),
        d.len() <= m,
    ensures
        0 <= fraction_scaled(d, m) < ten_to(m as nat),
{
    lemma_digits_value_below(d);
    lemma_ten_to_add(d.len(), (m - d.len()) as nat);
    lemma_ten_to_positive((m - d.len()) as nat);
    let v = digits_value(d);
    let p = ten_to((m - d.len()) as nat);
    let t = ten_to(d.len());
    assert(v * p < t * p) by (nonlinear_arith)
        requires
            0 <= v < t,
            p >= 1,
    ;
    assert(v * p >= 0) by (nonlinear_arith)
        requires
            0 <= v,
            p >= 1,
    ;
    assert((d.len() + (m - d.len()) as nat) as nat == m as nat);
}

/// Digits after a point, the first split off.
proof fn lemma_fraction_first(d: Seq<char>, m: int)
    requires
        d.len() >= 1,
        d.len() <= m,
    ensures
        fraction_scaled(d, m) == (d[0] as int - '0' as int) * ten_to((m - 1) as nat) + fraction_scaled(
            d.drop_first(),
            m - 1,
        ),
{
    lemma_digits_value_first(d);
    let x = d[0] as int - '0' as int;
    let r = digits_value(d.drop_first());
    let a = ten_to((d.len() - 1) as nat);
    let p = ten_to((m - d.len()) as nat);
    lemma_ten_to_add((d.len() - 1) as nat, (m - d.len()) as nat);
    assert(((d.len() - 1) as nat + (m - d.len()) as nat) as nat == (m - 1) as nat);
    assert((x * a + r) * p == x * (a * p) + r * p) by (nonlinear_arith);
    assert((m - 1 - d.drop_first().len()) as nat == (m - d.len()) as nat);
}

/// Digits after a point that come first, character by character, are the
/// smaller fraction, the other ending in a digit other than `0`.
proof fn lemma_lex_less_is_smaller(x: Seq<char>, y: Seq<char>, m: int)
    requires
        all_digits(x),
        all_digits(y),
        y.len() >= 1 ==> y.last() != '0',
        x.len() <= m,
        y.len() <= m,
        lex_less(x, y),
    ensures
        fraction_scaled(x, m) < fraction_scaled(y, m),
    decreases x.len(),
{
    if x.len() == 0 {
        lemma_digits_value_positive(y);
        lemma_ten_to_positive((m - y.len()) as nat);
        let v = digits_value(y);
        let p = ten_to((m - y.len()) as nat);
        assert(v * p >= 1) by (nonlinear_arith)
            requires
                v >= 1,
                p >= 1,
        ;
        assert(x.len() == 0 && digits_value(x) == 0);
    } else {
        lemma_fraction_first(x, m);
        lemma_fraction_first(y, m);
        let xr = x.drop_first();
        let yr = y.drop_first();
        assert(all_digits(xr)) by {
            assert forall|i: int| 0 <= i < xr.len() implies is_digit(#[trigger] xr[i]) by {
                assert(xr[i] == x[i + 1]);
            }
        }
        assert(all_digits(yr)) by {
            assert forall|i: int| 0 <= i < yr.len() implies is_digit(#[trigger] yr[i]) by {
                assert(yr[i] == y[i + 1]);
            }
        }
        assert(is_digit(x[0]) && is_digit(y[0]));
        let t = ten_to((m - 1) as nat);
        if x[0] != y[0] {
            lemma_fraction_below(xr, m - 1);
            lemma_fraction_below(yr, m - 1);
            let a = x[0] as int - '0' as int;
            let b = y[0] as int - '0' as int;
            assert(a < b);
            assert(a * t + t <= b * t) by (nonlinear_arith)
                requires
                    a < b,
                    t >= 0,
            ;
        } else {
            if yr.len() >= 1 {
                assert(yr.last() == y.last());
            }
            lemma_lex_less_is_smaller(xr, yr, m - 1);
        }
    }
}

/// A positive number held the one way, scaled: the digits as a fraction,
/// times ten to `k` plus its exponent.
proof fn lemma_magnitude_bounds(d: Seq<char>, e: int, k: int)
    requires
        d.len() >= 1,
        all_digits(d),
        d[0] != '0',
        k + e - d.len() >= 0,
    ensures
        digits_value(d) * ten_to((k + e - d.len()) as nat) == fraction_scaled(d, k + e),
        ten_to((k + e - 1) as nat) <= fraction_scaled(d, k + e) < ten_to((k + e) as nat),
{
    lemma_digits_value_above(d);
    lemma_fraction_below(d, k + e);
    lemma_ten_to_add((d.len() - 1) as nat, (k + e - d.len()) as nat);
    assert(((d.len() - 1) as nat + (k + e - d.len()) as nat) as nat == (k + e - 1) as nat);
    lemma_ten_to_positive((k + e - d.len()) as nat);
    let v = digits_value(d);
    let lo = ten_to((d.len() - 1) as nat);
    let p = ten_to((k + e - d.len()) as nat);
    assert(v * p >= lo * p) by (nonlinear_arith)
        requires
            v >= lo,
            p >= 1,
    ;
}

/// Between two finite numbers held the one way, the smaller in magnitude lies
/// nearer zero.
proof fn lemma_smaller_is_less(a: Scalar, b: Scalar, k: int)
    requires
        a is Finite,
        b is Finite,
        well_held(a),
        well_held(b),
        scale_fits(a, k),
        scale_fits(b, k),
    ensures
        smaller(a, b) <==> size(a, k) < size(b, k),
{
    let (da, ea) = (a->digits, a->exponent);
    let (db, eb) = (b->digits, b->exponent);
    lemma_magnitude_bounds(da, ea, k);
    lemma_magnitude_bounds(db, eb, k);
    if ea < eb {
        lemma_ten_to_grows((k + ea) as nat, (k + eb - 1) as nat);
    } else if eb < ea {
        lemma_ten_to_grows((k + eb) as nat, (k + ea - 1) as nat);
    } else {
        if lex_less(da, db) {
            lemma_lex_less_is_smaller(da, db, k + ea);
        } else if lex_less(db, da) {
            lemma_lex_less_is_smaller(db, da, k + ea);
        } else {
            if da != db {
                lemma_lex_total(da, db);
            }
        }
    }
}

/// Numbers are put in order by what they stand for: of two finite numbers or
/// zeros held the one way, one lies below the other exactly when the number it
/// stands for is the smaller, and they are level exactly when they stand for
/// the same number. `k` is any scale large enough to make both whole.
pub proof fn lemma_order_is_by_value(a: Scalar, b: Scalar, k: int)
    requires
        a is Finite || a is Zero,
        b is Finite || b is Zero,
        well_held(a),
        well_held(b),
        scale_fits(a, k),
        scale_fits(b, k),
    ensures
        order(a, b) == Some(-1int) <==> scaled(a, k) < scaled(b, k),
        order(a, b) == Some(0int) <==> scaled(a, k) == scaled(b, k),
        order(a, b) == Some(1int) <==> scaled(a, k) > scaled(b, k),
{
    lemma_order_facts(a, b);
    if a is Finite {
        lemma_magnitude_bounds(a->digits, a->exponent, k);
        lemma_ten_to_positive((k + a->exponent - 1) as nat);
        assert(size(a, k) >= 1);
    }
    if b is Finite {
        lemma_magnitude_bounds(b->digits, b->exponent, k);
        lemma_ten_to_positive((k + b->exponent - 1) as nat);
        assert(size(b, k) >= 1);
    }
    if a is Finite && b is Finite {
        lemma_smaller_is_less(a, b, k);
        lemma_smaller_is_less(b, a, k);
        if a == b {
        } else if !smaller(a, b) && !smaller(b, a) {
            assert(a->Finite_negative != b->Finite_negative || a == b) by {
                if a->Finite_negative == b->Finite_negative {
                    let (da, ea) = (a->digits, a->exponent);
                    let (db, eb) = (b->digits, b->exponent);
                    if da != db {
                        lemma_lex_total(da, db);
                    }
                }
            }
        }
    }
}


proof fn lemma_run_digits(s: Seq<char>, from: int)
    requires
        0 <= from,
    ensures
        from + run(s, from) <= s.len() || run(s, from) == 0,
        forall|k: int| from <= k < from + run(s, from) ==> is_digit(#[trigger] s[k]),
    decreases s.len() - from,
{
    if 0 <= from < s.len() && is_digit(s[from]) {
        lemma_run_digits(s, from + 1);
    }
}

proof fn lemma_zeros_from_stops(d: Seq<char>, from: int)
    requires
        0 <= from <= d.len(),
    ensures
        0 <= zeros_from(d, from),
        from + zeros_from(d, from) <= d.len(),
        from + zeros_from(d, from) < d.len() ==> d[from + zeros_from(d, from)] != '0',
    decreases d.len() - from,
{
    if from < d.len() && d[from] == '0' {
        lemma_zeros_from_stops(d, from + 1);
    }
}

proof fn lemma_zeros_back_ends(d: Seq<char>, to: int)
    requires
        0 <= to <= d.len(),
    ensures
        0 <= zeros_back(d, to) <= to,
        zeros_back(d, to) < to ==> d[to - zeros_back(d, to) - 1] != '0',
    decreases to,
{
    if 0 < to && d[to - 1] == '0' {
        lemma_zeros_back_ends(d, to - 1);
    }
}

/// Whatever number is read from text is held the one way: a finite number's
/// digits are ASCII digits, the first and the last not `0`.
pub proof fn lemma_read_is_well_held(t: Seq<char>)
    ensures
        scalar_of(t) matches Some(s) ==> well_held(s),
{
    let signed = t.len() > 0 && (t[0] == '+' || t[0] == '-');
    let negative = t.len() > 0 && t[0] == '-';
    let b = if signed {
        t.subrange(1, t.len() as int)
    } else {
        t
    };
    if scalar_of(t) matches Some(Scalar::Finite { .. }) {
        assert(is_figure(b));
        let d = figure_digits(b);
        let a = whole_len(b);
        let fs = fraction_start(b);
        let m = mantissa_end(b);
        lemma_run_digits(b, 0);
        lemma_run_digits(b, fs);
        assert(0 <= a <= fs <= m <= b.len());
        assert(all_digits(d)) by {
            assert forall|i: int| 0 <= i < d.len() implies is_digit(#[trigger] d[i]) by {
                if i < a {
                    assert(d[i] == b[i]);
                } else {
                    assert(d[i] == b[fs + (i - a)]);
                }
            }
        }
        lemma_zeros_from_stops(d, 0);
        lemma_zeros_back_ends(d, d.len() as int);
        let lz = zeros_from(d, 0);
        let zb = zeros_back(d, d.len() as int);
        assert(lz < d.len());
        lemma_zeros_back_stops(d, d.len() as int, lz);
        let md = d.subrange(lz, d.len() - zb);
        assert(md.len() >= 1);
        assert(md[0] == d[lz]);
        assert(md.last() == d[d.len() - zb - 1]);
        assert(all_digits(md)) by {
            assert forall|i: int| 0 <= i < md.len() implies is_digit(#[trigger] md[i]) by {
                assert(md[i] == d[lz + i]);
            }
        }
    }
}

/// Numbers read from text are put in order by the numbers they stand for:
/// where two texts read as finite numbers or zero, the first lies below the
/// second exactly when the number it stands for is the smaller, scaled by any
/// `k` that makes both whole.
pub proof fn lemma_read_numbers_order_by_value(x: Seq<char>, y: Seq<char>, a: Scalar, b: Scalar, k: int)
    requires
        scalar_of(x) == Some(a),
        scalar_of(y) == Some(b),
        a is Finite || a is Zero,
        b is Finite || b is Zero,
        scale_fits(a, k),
        scale_fits(b, k),
    ensures
        order(a, b) == Some(-1int) <==> scaled(a, k) < scaled(b, k),
        order(a, b) == Some(0int) <==> scaled(a, k) == scaled(b, k),
        order(a, b) == Some(1int) <==> scaled(a, k) > scaled(b, k),
{
    lemma_read_is_well_held(x);
    lemma_read_is_well_held(y);
    lemma_order_is_by_value(a, b, k);
}

} // verus!
