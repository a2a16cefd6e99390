//! What the window does when the file it shows changes on disk.

use vstd::prelude::*;
use crate::text::same_text;

verus! {

/// What a look at the file on disk calls for.
#[derive(Debug, Clone, Copy, PartialEq, Eq, Structural)]
pub enum Reaction {
    /// The file is not there any more: the document no longer matches any
    /// file, and the window says the file is gone.
    Gone,
    /// The file is what Comma last read or wrote: nothing to say.
    Settled,
    /// Somebody else wrote to it while there is something on screen that
    /// reading it again would lose: the window says so and waits.
    Warn,
    /// Somebody else wrote to it and nothing would be lost: read it again.
    Reload,
}

/// Two stamps, each an etag and a size, are the same stamp.
pub open spec fn same_stamp(a: (Seq<char>, u64), b: (Seq<char>, u64)) -> bool {
    a.0 == b.0 && a.1 == b.1
}

/// A stamp as plain values.
pub open spec fn stamp_view(s: Option<(&str, u64)>) -> Option<(Seq<char>, u64)> {
    match s {
        Some(p) => Some((p.0@, p.1)),
        None => None,
    }
}

/// What a look calls for: `now` is how the file stands, `ours` how it stood
/// when Comma last read or wrote it, `modified` whether the document holds
/// unsaved changes and `typing` whether a cell is being edited.
pub open spec fn reaction_of(
    now: Option<(Seq<char>, u64)>,
    ours: Option<(Seq<char>, u64)>,
    modified: bool,
    typing: bool,
) -> Reaction {
    match now {
        None => Reaction::Gone,
        Some(n) => if ours matches Some(o) && same_stamp(n, o) {
            Reaction::Settled
        } else if modified || typing {
            Reaction::Warn
        } else {
            Reaction::Reload
        },
    }
}

/// Whether the file was written to since Comma last read or wrote it, as far
/// as Save needs to know before it writes over it: only a file that is there,
/// with a stamp to compare, and a different one.
pub open spec fn written_since(now: Option<(Seq<char>, u64)>, ours: Option<(Seq<char>, u64)>) -> bool {
    match (now, ours) {
        (Some(n), Some(o)) => !same_stamp(n, o),
        _ => false,
    }
}

fn same(a: (&str, u64), b: (&str, u64)) -> (r: bool)
    ensures
        r == same_stamp((a.0@, a.1), (b.0@, b.1)),
{
    a.1 == b.1 && same_text(a.0, b.0)
}

/// What a look at the file calls for.
pub fn react(now: Option<(&str, u64)>, ours: Option<(&str, u64)>, modified: bool, typing: bool) -> (r:
    Reaction)
    ensures
        r == reaction_of(stamp_view(now), stamp_view(ours), modified, typing),
{
    match now {
        None => Reaction::Gone,
        Some(n) => {
            let settled = match ours {
                Some(o) => same(n, o),
                None => false,
            };
            if settled {
                Reaction::Settled
            } else if modified || typing {
                Reaction::Warn
            } else {
                Reaction::Reload
            }
        },
    }
}

/// Whether the file was written to since Comma last read or wrote it.
pub fn changed_underneath(now: Option<(&str, u64)>, ours: Option<(&str, u64)>) -> (r: bool)
    ensures
        r == written_since(stamp_view(now), stamp_view(ours)),
{
    match (now, ours) {
        (Some(n), Some(o)) => !same(n, o),
        _ => false,
    }
}

} // verus!
