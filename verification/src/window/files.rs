//! What Comma can write and will not read back, and what such a file is
//! offered as.

use vstd::prelude::*;
use crate::text::{chars_of, string_of};

verus! {

/// What Comma can export to, in the order the menu offers them.
#[derive(Debug, Clone, Copy, PartialEq, Eq, Structural)]
pub enum Format {
    Pdf,
    Html,
    Ods,
}

/// The action that asks for an export.
pub open spec fn action_of(format: Format) -> Seq<char> {
    match format {
        Format::Pdf => "export-pdf"@,
        Format::Html => "export-html"@,
        Format::Ods => "export-ods"@,
    }
}

/// What the Export submenu calls a format, before translation.
pub open spec fn label_of(format: Format) -> Seq<char> {
    match format {
        Format::Pdf => "As PDF…"@,
        Format::Html => "As Web Page…"@,
        Format::Ods => "As Spreadsheet…"@,
    }
}

/// The extension an export is offered under.
pub open spec fn extension_of(format: Format) -> Seq<char> {
    match format {
        Format::Pdf => "pdf"@,
        Format::Html => "html"@,
        Format::Ods => "ods"@,
    }
}

impl Format {
    /// The exports, in the order the menu offers them.
    pub fn all() -> (r: Vec<Format>)
        ensures
            r@ == seq![Format::Pdf, Format::Html, Format::Ods],
    {
        let r = vec![Format::Pdf, Format::Html, Format::Ods];
        assert(r@ =~= seq![Format::Pdf, Format::Html, Format::Ods]);
        r
    }

    pub fn action(self) -> (r: &'static str)
        ensures
            r@ == action_of(self),
    {
        match self {
            Format::Pdf => "export-pdf",
            Format::Html => "export-html",
            Format::Ods => "export-ods",
        }
    }

    /// What the Export submenu calls it, as the message to translate.
    pub fn label(self) -> (r: &'static str)
        ensures
            r@ == label_of(self),
    {
        match self {
            Format::Pdf => "As PDF…",
            Format::Html => "As Web Page…",
            Format::Ods => "As Spreadsheet…",
        }
    }

    pub fn extension(self) -> (r: &'static str)
        ensures
            r@ == extension_of(self),
    {
        match self {
            Format::Pdf => "pdf",
            Format::Html => "html",
            Format::Ods => "ods",
        }
    }
}

/// A name up to its last `.`, or nothing when it has none.
pub open spec fn before_last_dot(name: Seq<char>) -> Option<Seq<char>>
    decreases name.len(),
{
    if name.len() == 0 {
        None
    } else if name.last() == '.' {
        Some(name.drop_last())
    } else {
        before_last_dot(name.drop_last())
    }
}

/// A name to offer for an export: the file's own, its extension, if any,
/// replaced by the export's.
pub open spec fn export_name_of(name: Seq<char>, format: Format) -> Seq<char> {
    let stem = match before_last_dot(name) {
        Some(stem) => stem,
        None => name,
    };
    stem + seq!['.'] + extension_of(format)
}

/// A name to offer for an export: the file's own, wearing the new extension.
pub fn export_name(name: &str, format: Format) -> (r: String)
    ensures
        r@ == export_name_of(name@, format),
{
    let chars = chars_of(name);
    let mut end: usize = chars.len();
    assert(chars@.subrange(0, chars@.len() as int) =~= chars@);
    while end > 0 && chars[end - 1] != '.'
        invariant
            end <= chars@.len(),
            chars@ == name@,
            before_last_dot(name@) == before_last_dot(chars@.subrange(0, end as int)),
        decreases end,
    {
        assert(chars@.subrange(0, end as int).drop_last() =~= chars@.subrange(0, end - 1));
        end = end - 1;
    }
    let stem_end = if end > 0 {
        assert(chars@.subrange(0, end as int).drop_last() =~= chars@.subrange(0, end - 1));
        end - 1
    } else {
        chars.len()
    };
    let mut out: Vec<char> = Vec::new();
    let mut k: usize = 0;
    while k < stem_end
        invariant
            k <= stem_end <= chars@.len(),
            out@ == chars@.subrange(0, k as int),
        decreases stem_end - k,
    {
        out.push(chars[k]);
        k = k + 1;
        assert(out@ =~= chars@.subrange(0, k as int));
    }
    out.push('.');
    let extension = chars_of(format.extension());
    crate::document::append(&mut out, extension.as_slice());
    assert(out@ =~= export_name_of(name@, format));
    string_of(out.as_slice())
}

} // verus!
