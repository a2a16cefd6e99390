//! Text as the rest of the library reads it: a sequence of characters, with
//! the few questions about characters that every part of it asks.

use vstd::prelude::*;
use vstd::utf8::*;

verus! {

/// Whether a character is white space in the sense of Unicode's
/// `White_Space` property, which is what `char::is_whitespace` and
/// `str::trim` go by.
pub open spec fn is_white(c: char) -> bool {
    let u = c as u32;
    ||| 0x09 <= u <= 0x0D
    ||| u == 0x20
    ||| u == 0x85
    ||| u == 0xA0
    ||| u == 0x1680
    ||| 0x2000 <= u <= 0x200A
    ||| u == 0x2028
    ||| u == 0x2029
    ||| u == 0x202F
    ||| u == 0x205F
    ||| u == 0x3000
}

/// The text with its leading white space taken off.
pub open spec fn trim_start(s: Seq<char>) -> Seq<char>
    decreases s.len(),
{
    if s.len() > 0 && is_white(s[0]) {
        trim_start(s.drop_first())
    } else {
        s
    }
}

/// The text with its trailing white space taken off.
pub open spec fn trim_end(s: Seq<char>) -> Seq<char>
    decreases s.len(),
{
    if s.len() > 0 && is_white(s.last()) {
        trim_end(s.drop_last())
    } else {
        s
    }
}

/// The text with white space taken off both ends, as `str::trim` does.
pub open spec fn trim(s: Seq<char>) -> Seq<char> {
    trim_end(trim_start(s))
}

/// Whether the text holds nothing but white space, which is what looking
/// empty means.
pub open spec fn is_blank(s: Seq<char>) -> bool {
    forall|i: int| 0 <= i < s.len() ==> is_white(#[trigger] s[i])
}

/// Whether a character is an ASCII digit.
pub open spec fn is_digit(c: char) -> bool {
    '0' <= c <= '9'
}

/// What `char::to_lowercase` turns a character into: one character or
/// several, by the Unicode case tables.
pub uninterp spec fn lowercase(c: char) -> Seq<char>;

/// Whether a character has Unicode's `Alphabetic` property, as
/// `char::is_alphabetic` says.
pub uninterp spec fn alphabetic(c: char) -> bool;

/// `char::is_alphabetic`.
#[verifier::external_body]
pub(crate) fn is_alphabetic(c: char) -> (r: bool)
    ensures
        r == alphabetic(c),
{
    c.is_alphabetic()
}

/// Text with its case folded a character at a time.
pub open spec fn fold_case(s: Seq<char>) -> Seq<char>
    decreases s.len(),
{
    if s.len() == 0 {
        Seq::empty()
    } else {
        lowercase(s[0]) + fold_case(s.drop_first())
    }
}

/// Whether a character is Unicode white space.
pub fn white(c: char) -> (r: bool)
    ensures
        r == is_white(c),
{
    let u: u32 = c as u32;
    (0x09 <= u && u <= 0x0D) || u == 0x20 || u == 0x85 || u == 0xA0 || u == 0x1680 || (0x2000
        <= u && u <= 0x200A) || u == 0x2028 || u == 0x2029 || u == 0x202F || u == 0x205F || u
        == 0x3000
}

proof fn lemma_trim_start_skips(s: Seq<char>, i: int)
    requires
        0 <= i <= s.len(),
        forall|j: int| 0 <= j < i ==> is_white(#[trigger] s[j]),
    ensures
        trim_start(s) == trim_start(s.subrange(i, s.len() as int)),
    decreases i,
{
    if i > 0 {
        assert(s.drop_first() =~= s.subrange(1, s.len() as int));
        lemma_trim_start_skips(s.drop_first(), i - 1);
        assert(s.drop_first().subrange(i - 1, s.drop_first().len() as int) =~= s.subrange(
            i,
            s.len() as int,
        ));
    } else {
        assert(s.subrange(0, s.len() as int) =~= s);
    }
}

proof fn lemma_trim_end_skips(s: Seq<char>, e: int)
    requires
        0 <= e <= s.len(),
        forall|j: int| e <= j < s.len() ==> is_white(#[trigger] s[j]),
    ensures
        trim_end(s) == trim_end(s.subrange(0, e)),
    decreases s.len() - e,
{
    if e < s.len() {
        assert(s.drop_last() =~= s.subrange(0, s.len() - 1));
        lemma_trim_end_skips(s.drop_last(), e);
        assert(s.drop_last().subrange(0, e) =~= s.subrange(0, e));
    } else {
        assert(s.subrange(0, e) =~= s);
    }
}

/// Where the text starts and stops once white space is taken off both ends.
pub fn trim_bounds(s: &[char]) -> (r: (usize, usize))
    ensures
        r.0 <= r.1 <= s@.len(),
        s@.subrange(r.0 as int, r.1 as int) == trim(s@),
{
    let mut start: usize = 0;
    while start < s.len() && white(s[start])
        invariant
            start <= s@.len(),
            forall|j: int| 0 <= j < start ==> is_white(#[trigger] s@[j]),
        decreases s@.len() - start,
    {
        start = start + 1;
    }
    proof {
        lemma_trim_start_skips(s@, start as int);
        let t = s@.subrange(start as int, s@.len() as int);
        if t.len() > 0 {
            assert(t[0] == s@[start as int]);
        }
    }
    let mut end: usize = s.len();
    while end > start && white(s[end - 1])
        invariant
            start <= end <= s@.len(),
            forall|j: int| end <= j < s@.len() ==> is_white(#[trigger] s@[j]),
        decreases end,
    {
        end = end - 1;
    }
    proof {
        let t = s@.subrange(start as int, s@.len() as int);
        assert forall|j: int| end - start <= j < t.len() implies is_white(#[trigger] t[j]) by {
            assert(t[j] == s@[start + j]);
        }
        lemma_trim_end_skips(t, end - start);
        assert(t.subrange(0, end - start) =~= s@.subrange(start as int, end as int));
        let u = s@.subrange(start as int, end as int);
        if u.len() > 0 {
            assert(u.last() == s@[end - 1]);
        }
    }
    (start, end)
}

/// Trimming leaves nothing exactly when everything was white space.
pub proof fn lemma_trim_empty_iff_blank(s: Seq<char>)
    ensures
        (trim(s).len() == 0) == is_blank(s),
    decreases s.len(),
{
    lemma_trim_start_blank(s);
    lemma_trim_end_keeps_nonwhite_start(trim_start(s));
}

proof fn lemma_trim_start_blank(s: Seq<char>)
    ensures
        (trim_start(s).len() == 0) == is_blank(s),
        trim_start(s).len() > 0 ==> !is_white(trim_start(s)[0]),
    decreases s.len(),
{
    if s.len() > 0 && is_white(s[0]) {
        lemma_trim_start_blank(s.drop_first());
        if is_blank(s.drop_first()) {
            assert forall|i: int| 0 <= i < s.len() implies is_white(#[trigger] s[i]) by {
                if i > 0 {
                    assert(s[i] == s.drop_first()[i - 1]);
                }
            }
        } else {
            let k = choose|k: int| 0 <= k < s.drop_first().len() && !is_white(s.drop_first()[k]);
            assert(s[k + 1] == s.drop_first()[k]);
        }
    } else if s.len() > 0 {
        assert(!is_white(s[0]));
    }
}

proof fn lemma_trim_end_keeps_nonwhite_start(s: Seq<char>)
    requires
        s.len() > 0 ==> !is_white(s[0]),
    ensures
        (trim_end(s).len() == 0) == (s.len() == 0),
    decreases s.len(),
{
    if s.len() > 0 && is_white(s.last()) {
        if s.len() == 1 {
            assert(s.last() == s[0]);
        } else {
            assert(s.drop_last()[0] == s[0]);
            lemma_trim_end_keeps_nonwhite_start(s.drop_last());
        }
    }
}

/// Whether the text holds nothing but white space.
pub fn blank(s: &[char]) -> (r: bool)
    ensures
        r == is_blank(s@),
        r == (trim(s@).len() == 0),
{
    proof {
        lemma_trim_empty_iff_blank(s@);
    }
    let (start, end) = trim_bounds(s);
    start == end
}

/// Whether two strings hold the same characters.
pub fn same_text(a: &str, b: &str) -> (r: bool)
    ensures
        r == (a@ == b@),
{
    let x = chars_of(a);
    let y = chars_of(b);
    if x.len() != y.len() {
        return false;
    }
    let mut i: usize = 0;
    while i < x.len()
        invariant
            i <= x@.len(),
            x@ == a@,
            y@ == b@,
            x@.len() == y@.len(),
            forall|k: int| 0 <= k < i ==> x@[k] == y@[k],
        decreases x@.len() - i,
    {
        if x[i] != y[i] {
            assert(a@[i as int] != b@[i as int]);
            return false;
        }
        i = i + 1;
    }
    assert(x@ =~= y@);
    true
}

/// `char::to_lowercase`: the character in lower case, which Unicode allows
/// to be more than one character.
#[verifier::external_body]
pub(crate) fn to_lowercase(c: char) -> (r: Vec<char>)
    ensures
        r@ == lowercase(c),
{
    c.to_lowercase().collect()
}

/// `str::chars`: the characters of a string slice, in order.
#[verifier::external_body]
pub(crate) fn chars_of(text: &str) -> (r: Vec<char>)
    ensures
        r@ == text@,
{
    text.chars().collect()
}

/// A `String` holding exactly these characters.
#[verifier::external_body]
pub(crate) fn string_of(chars: &[char]) -> (r: String)
    ensures
        r@ == chars@,
{
    chars.iter().collect()
}

/// `String::into_bytes`: the UTF-8 encoding of a string.
#[verifier::external_body]
pub(crate) fn bytes_of(s: String) -> (r: Vec<u8>)
    ensures
        r@ == encode_utf8(s@),
{
    s.into_bytes()
}

/// How far from the start these bytes are valid UTF-8: the greatest length of
/// a prefix that decodes.
pub open spec fn valid_up_to(bytes: Seq<u8>, n: int) -> bool {
    &&& 0 <= n <= bytes.len()
    &&& valid_utf8(bytes.subrange(0, n))
    &&& forall|m: int| n < m <= bytes.len() ==> !valid_utf8(#[trigger] bytes.subrange(0, m))
}

/// `std::str::from_utf8`, with the error reduced to what
/// `Utf8Error::valid_up_to` reports: the bytes as text when they are UTF-8,
/// and otherwise how far they are.
#[verifier::external_body]
pub(crate) fn utf8(bytes: &[u8]) -> (r: Result<&str, usize>)
    ensures
        r is Ok <==> valid_utf8(bytes@),
        r matches Ok(text) ==> text@ == decode_utf8(bytes@),
        r matches Err(n) ==> valid_up_to(bytes@, n as int),
{
    match std::str::from_utf8(bytes) {
        Ok(text) => Ok(text),
        Err(error) => Err(error.valid_up_to()),
    }
}

/// The decimal digits of `n`, most significant first.
pub open spec fn decimal_digits(n: nat) -> Seq<char>
    decreases n,
{
    if n < 10 {
        seq![digit_char((n % 10) as int)]
    } else {
        decimal_digits(n / 10).push(digit_char((n % 10) as int))
    }
}

/// The character of a decimal digit.
pub open spec fn digit_char(d: int) -> char {
    (48 + d) as char
}

/// `n` written in decimal.
pub fn decimal(n: usize) -> (r: String)
    ensures
        r@ == decimal_digits(n as nat),
{
    let mut out: Vec<char> = Vec::new();
    let mut rest: usize = n;
    while rest >= 10
        invariant
            decimal_digits(n as nat) == decimal_digits(rest as nat) + out@,
        decreases rest,
    {
        let c = (48u8 + (rest % 10) as u8) as char;
        assert(c == digit_char((rest % 10) as int));
        let ghost before = out@;
        out.insert(0, c);
        assert(out@ =~= seq![c] + before);
        assert(decimal_digits(rest as nat) =~= decimal_digits((rest / 10) as nat).push(c));
        assert(decimal_digits(rest as nat) + before =~= decimal_digits((rest / 10) as nat) + out@);
        rest = rest / 10;
    }
    let c = (48u8 + rest as u8) as char;
    assert(c == digit_char((rest % 10) as int));
    let ghost before = out@;
    out.insert(0, c);
    assert(decimal_digits(rest as nat) =~= seq![c]);
    assert(decimal_digits(n as nat) =~= out@);
    string_of(out.as_slice())
}

} // verus!
