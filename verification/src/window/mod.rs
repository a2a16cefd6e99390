//! What the window decides, apart from the window: which program a menu item
//! starts and with what, what a filter reads as in words, what an export is
//! offered as, which key does what, which delimiters the menu offers, which
//! recent files are offered back, and what a change on disk calls for.

pub mod place;
pub mod filters;
pub mod files;
pub mod cursor;
pub mod menus;
pub mod recent;
pub mod watch;

use vstd::prelude::*;

verus! {

/// The strings of a list, as text.
pub open spec fn texts(v: Seq<String>) -> Seq<Seq<char>> {
    v.map_values(|s: String| s@)
}

} // verus!
