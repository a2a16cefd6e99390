//! Turning a cell value back into the characters a delimited file holds.

use vstd::prelude::*;

use super::dialect::Dialect;
use super::model::{escaped, needs_quoting, written};

verus! {

proof fn lemma_escaped_push(value: Seq<char>, c: char, quote: char)
    ensures
        escaped(value.push(c), quote) == escaped(value, quote) + (if c == quote {
            seq![quote, quote]
        } else {
            seq![c]
        }),
    decreases value.len(),
{
    if value.len() == 0 {
        assert(value.push(c).drop_first() =~= Seq::<char>::empty());
        assert(value.push(c)[0] == c);
        assert(escaped(Seq::<char>::empty(), quote) =~= Seq::<char>::empty());
        assert(escaped(value.push(c), quote) =~= escaped(value, quote) + (if c == quote {
            seq![quote, quote]
        } else {
            seq![c]
        }));
    } else {
        assert(value.push(c).drop_first() =~= value.drop_first().push(c));
        assert(value.push(c)[0] == value[0]);
        lemma_escaped_push(value.drop_first(), c, quote);
        assert(escaped(value.push(c), quote) =~= escaped(value, quote) + (if c == quote {
            seq![quote, quote]
        } else {
            seq![c]
        }));
    }
}

/// Whether a value has to be quoted when it is written.
pub fn needs_quoting_exec(value: &[char], dialect: Dialect) -> (r: bool)
    ensures
        r == needs_quoting(value@, dialect),
{
    let quote = dialect.quote();
    let mut i: usize = 0;
    while i < value.len()
        invariant
            i <= value@.len(),
            quote == dialect.quote_char(),
            forall|j: int|
                0 <= j < i ==> !(value@[j] == dialect.quote_char() || dialect.spec_is_boundary(
                    #[trigger] value@[j],
                )),
        decreases value@.len() - i,
    {
        if value[i] == quote || dialect.is_boundary(value[i]) {
            return true;
        }
        i = i + 1;
    }
    false
}

/// Appends the canonical characters for `value` to `out`.
pub fn write_field(out: &mut Vec<char>, value: &[char], dialect: Dialect)
    ensures
        final(out)@ == old(out)@ + written(value@, dialect),
{
    if !needs_quoting_exec(value, dialect) {
        let mut i: usize = 0;
        while i < value.len()
            invariant
                i <= value@.len(),
                out@ == old(out)@ + value@.subrange(0, i as int),
            decreases value@.len() - i,
        {
            out.push(value[i]);
            i = i + 1;
            assert(out@ =~= old(out)@ + value@.subrange(0, i as int));
        }
        assert(value@.subrange(0, value@.len() as int) =~= value@);
        return ;
    }
    let quote = dialect.quote();
    out.push(quote);
    let mut i: usize = 0;
    while i < value.len()
        invariant
            i <= value@.len(),
            quote == dialect.quote_char(),
            out@ == old(out)@ + seq![quote] + escaped(value@.subrange(0, i as int), quote),
        decreases value@.len() - i,
    {
        let c = value[i];
        proof {
            assert(value@.subrange(0, i + 1 as int) =~= value@.subrange(0, i as int).push(c));
            lemma_escaped_push(value@.subrange(0, i as int), c, quote);
        }
        if c == quote {
            out.push(quote);
        }
        out.push(c);
        i = i + 1;
        assert(out@ =~= old(out)@ + seq![quote] + escaped(value@.subrange(0, i as int), quote));
    }
    out.push(quote);
    assert(value@.subrange(0, value@.len() as int) =~= value@);
    assert(out@ =~= old(out)@ + written(value@, dialect));
}

/// Whether two runs of characters are the same.
pub fn same_chars(a: &[char], b: &[char]) -> (r: bool)
    ensures
        r == (a@ == b@),
{
    if a.len() != b.len() {
        return false;
    }
    let mut i: usize = 0;
    while i < a.len()
        invariant
            i <= a@.len(),
            a@.len() == b@.len(),
            forall|j: int| 0 <= j < i ==> a@[j] == b@[j],
        decreases a@.len() - i,
    {
        if a[i] != b[i] {
            return false;
        }
        i = i + 1;
    }
    assert(a@ =~= b@);
    true
}

/// Whether writing `value` out would reproduce `raw` exactly. Only the fields
/// for which it would not keep a copy of their original characters.
pub fn matches_canonical(value: &[char], raw: &[char], dialect: Dialect) -> (r: bool)
    ensures
        r == (written(value@, dialect) == raw@),
{
    let mut canonical: Vec<char> = Vec::new();
    write_field(&mut canonical, value, dialect);
    assert(canonical@ =~= written(value@, dialect));
    same_chars(canonical.as_slice(), raw)
}

} // verus!
