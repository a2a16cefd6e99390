//! The delimiters the menu offers.

use vstd::prelude::*;
use crate::document::Dialect;
use crate::text::same_text;

verus! {

/// The delimiters Comma offers, in the order the menu lists them, each with
/// the name its menu entry and action state carry.
pub open spec fn preset_table() -> Seq<(Seq<char>, Dialect)> {
    seq![
        ("comma"@, Dialect::spec_comma()),
        ("tab"@, Dialect::spec_tab()),
        ("semicolon"@, Dialect::spec_semicolon()),
        ("pipe"@, Dialect::spec_pipe()),
        ("unit-separator"@, Dialect::spec_unit_separator()),
    ]
}

/// The dialect of the first preset named `id`.
pub open spec fn preset_named(table: Seq<(Seq<char>, Dialect)>, id: Seq<char>) -> Option<Dialect>
    decreases table.len(),
{
    if table.len() == 0 {
        None
    } else if table[0].0 == id {
        Some(table[0].1)
    } else {
        preset_named(table.drop_first(), id)
    }
}

/// The name of the first preset with this dialect.
pub open spec fn preset_of(table: Seq<(Seq<char>, Dialect)>, dialect: Dialect) -> Option<Seq<char>>
    decreases table.len(),
{
    if table.len() == 0 {
        None
    } else if table[0].1 == dialect {
        Some(table[0].0)
    } else {
        preset_of(table.drop_first(), dialect)
    }
}

/// The delimiters Comma offers, in the order the menu lists them.
pub fn presets() -> (r: Vec<(&'static str, Dialect)>)
    ensures
        r@.map_values(|p: (&'static str, Dialect)| (p.0@, p.1)) == preset_table(),
{
    let r = vec![
        ("comma", Dialect::comma()),
        ("tab", Dialect::tab()),
        ("semicolon", Dialect::semicolon()),
        ("pipe", Dialect::pipe()),
        ("unit-separator", Dialect::unit_separator()),
    ];
    assert(r@.map_values(|p: (&'static str, Dialect)| (p.0@, p.1)) =~= preset_table());
    r
}

/// The dialect a preset's name stands for.
pub fn preset(id: &str) -> (r: Option<Dialect>)
    ensures
        r == preset_named(preset_table(), id@),
{
    let table = presets();
    let ghost tm = table@.map_values(|p: (&'static str, Dialect)| (p.0@, p.1));
    let mut k: usize = 0;
    assert(tm.subrange(0, tm.len() as int) =~= tm);
    while k < table.len()
        invariant
            k <= table@.len(),
            tm == table@.map_values(|p: (&'static str, Dialect)| (p.0@, p.1)),
            tm == preset_table(),
            preset_named(tm, id@) == preset_named(tm.subrange(k as int, tm.len() as int), id@),
        decreases table@.len() - k,
    {
        let ghost rest = tm.subrange(k as int, tm.len() as int);
        assert(rest[0] == (table@[k as int].0@, table@[k as int].1));
        if same_text(table[k].0, id) {
            return Some(table[k].1);
        }
        assert(rest.drop_first() =~= tm.subrange(k + 1, tm.len() as int));
        k = k + 1;
    }
    None
}

/// The name of the preset a dialect is, if it is one.
pub fn preset_id(dialect: Dialect) -> (r: Option<&'static str>)
    ensures
        r is Some <==> preset_of(preset_table(), dialect) is Some,
        r matches Some(id) ==> preset_of(preset_table(), dialect) == Some(id@),
{
    let table = presets();
    let ghost tm = table@.map_values(|p: (&'static str, Dialect)| (p.0@, p.1));
    let mut k: usize = 0;
    assert(tm.subrange(0, tm.len() as int) =~= tm);
    while k < table.len()
        invariant
            k <= table@.len(),
            tm == table@.map_values(|p: (&'static str, Dialect)| (p.0@, p.1)),
            tm == preset_table(),
            preset_of(tm, dialect) == preset_of(tm.subrange(k as int, tm.len() as int), dialect),
        decreases table@.len() - k,
    {
        let ghost rest = tm.subrange(k as int, tm.len() as int);
        assert(rest[0] == (table@[k as int].0@, table@[k as int].1));
        if table[k].1 == dialect {
            return Some(table[k].0);
        }
        assert(rest.drop_first() =~= tm.subrange(k + 1, tm.len() as int));
        k = k + 1;
    }
    None
}

} // verus!
