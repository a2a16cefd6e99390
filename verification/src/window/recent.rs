//! Which of the desktop's recent documents the Open popover offers back.

use vstd::prelude::*;
use crate::text::same_text;

verus! {

/// What Comma calls itself in the recent documents. It is also what tells
/// Comma's own entries from everybody else's when the list is read back.
pub const APP_NAME: &'static str = "Comma";

/// The command the desktop relaunches Comma by from a recent document.
pub const APP_EXEC: &'static str = "comma %u";

/// How many files to offer: the way back to what was being worked on, not a
/// second file chooser.
pub const MOST: usize = 20;

/// One entry of the desktop's recent documents, as far as choosing is
/// concerned.
pub struct Seen<'a> {
    /// The kind of file, as the desktop names it.
    pub mime: &'a str,
    /// Whether Comma is among the applications that opened it.
    pub ours: bool,
    /// Whether it is a file on this computer.
    pub local: bool,
    /// Whether it is still there; asked only of a file on this computer.
    pub exists: bool,
    /// When it was last used, in seconds since the epoch.
    pub modified: i64,
}

/// An entry as plain values.
pub struct SeenM {
    pub mime: Seq<char>,
    pub ours: bool,
    pub local: bool,
    pub exists: bool,
    pub modified: int,
}

impl<'a> View for Seen<'a> {
    type V = SeenM;

    open spec fn view(&self) -> SeenM {
        SeenM {
            mime: self.mime@,
            ours: self.ours,
            local: self.local,
            exists: self.exists,
            modified: self.modified as int,
        }
    }
}

/// The kinds of file Comma reads. One of these is worth offering back
/// whichever application put it in the list; anything else only when Comma
/// opened it.
pub open spec fn readable_kind(mime: Seq<char>) -> bool {
    mime == "text/csv"@ || mime == "text/tab-separated-values"@
}

/// Whether an entry is worth offering: a kind Comma reads or a file Comma
/// opened, and not a file on this computer that has since gone.
pub open spec fn worth_offering(s: SeenM) -> bool {
    (readable_kind(s.mime) || s.ours) && (!s.local || s.exists)
}

/// Whether entry `i` comes before entry `j` in the popover: used more
/// recently, or used at the same moment and listed first.
pub open spec fn comes_before(seen: Seq<SeenM>, i: int, j: int) -> bool {
    seen[i].modified > seen[j].modified || (seen[i].modified == seen[j].modified && i < j)
}

/// The entries as plain values.
pub open spec fn seen_view(seen: Seq<Seen>) -> Seq<SeenM> {
    seen.map_values(|s: Seen| s@)
}

/// `offered` is the first of the entries worth offering among the first `n`,
/// in popover order, and at most `MOST` of them.
pub open spec fn first_offered(seen: Seq<SeenM>, n: int, offered: Seq<usize>) -> bool {
    &&& offered.len() <= MOST
    &&& forall|k: int|
        0 <= k < offered.len() ==> #[trigger] offered[k] < n && worth_offering(
            seen[offered[k] as int],
        )
    &&& forall|a: int, b: int|
        0 <= a < b < offered.len() ==> comes_before(seen, #[trigger] offered[a] as int, #[trigger] offered[b] as int)
    &&& forall|j: int|
        0 <= j < n && worth_offering(#[trigger] seen[j]) && !offered.contains(j as usize) ==> {
            &&& offered.len() == MOST
            &&& forall|k: int| 0 <= k < offered.len() ==> comes_before(seen, #[trigger] offered[k] as int, j)
        }
}

/// Whether the desktop's name for a kind of file is one Comma reads.
fn is_readable_kind(mime: &str) -> (r: bool)
    ensures
        r == readable_kind(mime@),
{
    same_text(mime, "text/csv") || same_text(mime, "text/tab-separated-values")
}

/// The entries to offer, by their places in `seen`: those worth offering, most
/// recently used first, entries used at the same moment in the order they
/// were listed, and no more than `MOST` of them.
pub fn offered(seen: &[Seen]) -> (r: Vec<usize>)
    ensures
        first_offered(seen_view(seen@), seen@.len() as int, r@),
{
    let ghost sv = seen_view(seen@);
    let mut r: Vec<usize> = Vec::new();
    let mut i: usize = 0;
    while i < seen.len()
        invariant
            i <= seen@.len(),
            sv == seen_view(seen@),
            sv.len() == seen@.len(),
            first_offered(sv, i as int, r@),
        decreases seen@.len() - i,
    {
        let entry = &seen[i];
        assert(sv[i as int] == entry@);
        let wanted = (is_readable_kind(entry.mime) || entry.ours) && (!entry.local || entry.exists);
        if wanted {
            let mut p: usize = 0;
            while p < r.len() && seen[r[p]].modified >= entry.modified
                invariant
                    p <= r@.len(),
                    r@.len() <= MOST,
                    i < seen@.len(),
                    sv == seen_view(seen@),
                    sv.len() == seen@.len(),
                    sv[i as int].modified == entry.modified as int,
                    forall|k: int| 0 <= k < r@.len() ==> #[trigger] r@[k] < i,
                    forall|k: int| 0 <= k < p ==> sv[#[trigger] r@[k] as int].modified >= sv[i as int].modified,
                decreases r@.len() - p,
            {
                assert(sv[r@[p as int] as int] == seen@[r@[p as int] as int]@);
                p = p + 1;
            }
            proof {
                if p < r@.len() {
                    assert(sv[r@[p as int] as int] == seen@[r@[p as int] as int]@);
                }
            }
            let ghost old_r = r@;
            if p < MOST {
                r.insert(p, i);
                proof {
                    lemma_insert_keeps_order(sv, i, old_r, p as int, r@);
                }
                if r.len() > MOST {
                    let ghost full = r@;
                    r.pop();
                    proof {
                        lemma_drop_last_keeps_order(sv, i as int + 1, full, r@);
                    }
                }
            } else {
                proof {
                    assert forall|j: int|
                        0 <= j < i + 1 && worth_offering(#[trigger] sv[j]) && !r@.contains(j as usize) implies {
                            &&& r@.len() == MOST
                            &&& forall|k: int| 0 <= k < r@.len() ==> comes_before(sv, #[trigger] r@[k] as int, j)
                        } by {
                        if j == i {
                            assert forall|k: int| 0 <= k < r@.len() implies comes_before(sv, #[trigger] r@[k] as int, j) by {
                                assert(r@[k] < i);
                            }
                        } else {
                            assert(j < i);
                        }
                    }
                }
            }
        } else {
            proof {
                assert(!worth_offering(sv[i as int]));
            }
        }
        i = i + 1;
    }
    r
}

/// Putting entry `i`, later than every entry already offered, in its place
/// keeps the offered entries the first of those worth offering, in order,
/// though one too many of them.
proof fn lemma_insert_keeps_order(seen: Seq<SeenM>, i: usize, before: Seq<usize>, p: int, after: Seq<usize>)
    requires
        i < seen.len(),
        i < usize::MAX,
        worth_offering(seen[i as int]),
        first_offered(seen, i as int, before),
        0 <= p <= before.len(),
        p < MOST,
        after == before.insert(p, i),
        forall|k: int| 0 <= k < p ==> seen[#[trigger] before[k] as int].modified >= seen[i as int].modified,
        p < before.len() ==> seen[before[p] as int].modified < seen[i as int].modified,
    ensures
        after.len() <= MOST + 1,
        forall|k: int|
            0 <= k < after.len() ==> #[trigger] after[k] < i + 1 && worth_offering(seen[after[k] as int]),
        forall|a: int, b: int|
            0 <= a < b < after.len() ==> comes_before(seen, #[trigger] after[a] as int, #[trigger] after[b] as int),
        forall|j: int|
            0 <= j < i + 1 && worth_offering(#[trigger] seen[j]) && !after.contains(j as usize) ==> {
                &&& after.len() == MOST + 1
                &&& forall|k: int| 0 <= k < MOST ==> comes_before(seen, #[trigger] after[k] as int, j)
            },
{
    assert forall|k: int| 0 <= k < after.len() implies #[trigger] after[k] < i + 1 && worth_offering(
        seen[after[k] as int],
    ) by {
        if k < p {
            assert(after[k] == before[k]);
        } else if k > p {
            assert(after[k] == before[k - 1]);
        } else {
            assert(after[k] == i);
        }
    }
    assert forall|q: int| p <= q < before.len() implies seen[#[trigger] before[q] as int].modified < seen[i as int].modified by {
        if q > p {
            assert(comes_before(seen, before[p] as int, before[q] as int));
        }
    }
    assert forall|a: int, b: int| 0 <= a < b < after.len() implies comes_before(
        seen,
        #[trigger] after[a] as int,
        #[trigger] after[b] as int,
    ) by {
        if b < p {
            assert(after[a] == before[a] && after[b] == before[b]);
        } else if b == p {
            assert(after[a] == before[a]);
            assert(after[b] == i);
            assert(before[a] < i);
        } else if a < p {
            assert(after[a] == before[a] && after[b] == before[b - 1]);
        } else if a == p {
            assert(after[a] == i);
            assert(after[b] == before[b - 1]);
        } else {
            assert(after[a] == before[a - 1] && after[b] == before[b - 1]);
        }
    }
    assert forall|j: int|
        0 <= j < i + 1 && worth_offering(#[trigger] seen[j]) && !after.contains(j as usize) implies {
            &&& after.len() == MOST + 1
            &&& forall|k: int| 0 <= k < MOST ==> comes_before(seen, #[trigger] after[k] as int, j)
        } by {
        assert(after[p] == i);
        assert(j != i);
        assert forall|k: int| 0 <= k < before.len() implies before[k] != j as usize by {
            if before[k] == j as usize {
                if k < p {
                    assert(after[k] == before[k]);
                } else {
                    assert(after[k + 1] == before[k]);
                }
            }
        }
        assert(!before.contains(j as usize));
        assert(before.len() == MOST);
        assert forall|k: int| 0 <= k < MOST implies comes_before(seen, #[trigger] after[k] as int, j) by {
            if k < p {
                assert(after[k] == before[k]);
                assert(comes_before(seen, before[k] as int, j));
            } else if k == p {
                assert(comes_before(seen, before[p] as int, j));
            } else {
                assert(after[k] == before[k - 1]);
                assert(comes_before(seen, before[k - 1] as int, j));
            }
        }
    }
}

/// Taking the last off a list one too long leaves the first `MOST`.
proof fn lemma_drop_last_keeps_order(seen: Seq<SeenM>, n: int, full: Seq<usize>, kept: Seq<usize>)
    requires
        n <= usize::MAX,
        full.len() == MOST + 1,
        kept == full.drop_last(),
        forall|k: int| 0 <= k < full.len() ==> #[trigger] full[k] < n && worth_offering(seen[full[k] as int]),
        forall|a: int, b: int|
            0 <= a < b < full.len() ==> comes_before(seen, #[trigger] full[a] as int, #[trigger] full[b] as int),
        forall|j: int|
            0 <= j < n && worth_offering(#[trigger] seen[j]) && !full.contains(j as usize) ==> forall|k: int|
                0 <= k < MOST ==> comes_before(seen, #[trigger] full[k] as int, j),
    ensures
        first_offered(seen, n, kept),
{
    assert forall|k: int| 0 <= k < kept.len() implies #[trigger] kept[k] < n && worth_offering(
        seen[kept[k] as int],
    ) by {
        assert(kept[k] == full[k]);
    }
    assert forall|a: int, b: int| 0 <= a < b < kept.len() implies comes_before(
        seen,
        #[trigger] kept[a] as int,
        #[trigger] kept[b] as int,
    ) by {
        assert(kept[a] == full[a] && kept[b] == full[b]);
    }
    assert forall|j: int| 0 <= j < n && worth_offering(#[trigger] seen[j]) && !kept.contains(j as usize) implies {
        &&& kept.len() == MOST
        &&& forall|k: int| 0 <= k < kept.len() ==> comes_before(seen, #[trigger] kept[k] as int, j)
    } by {
        assert forall|k: int| 0 <= k < kept.len() implies comes_before(seen, #[trigger] kept[k] as int, j) by {
            assert(kept[k] == full[k]);
            if full.contains(j as usize) {
                let m = choose|m: int| 0 <= m < full.len() && full[m] == j as usize;
                if m < MOST {
                    assert(kept[m] == full[m]);
                    assert(kept.contains(j as usize));
                }
                assert(m == MOST);
                assert(comes_before(seen, full[k] as int, full[m] as int));
            }
        }
    }
}

} // verus!
