//! The undo stack.
//!
//! A change stores what it replaced alongside what it put there, so one entry
//! serves both directions: doing a change and redoing it are the same code,
//! and undoing it is the same code read the other way.

use vstd::prelude::*;

use super::model::{
    clone_fields, fields_view, records_view, Field, FieldM, Record, RecordM,
};

verus! {

/// How much of the file a change moved, which is as much as a view needs to
/// know to draw it again.
#[derive(Debug, Clone, Copy, PartialEq, Eq, Structural)]
pub enum Extent {
    /// One record reads differently and everything else is where it was.
    Record(usize),
    /// Records were spliced at `at`: `gone` of them taken out and `come` put in
    /// their place.
    Rows { at: usize, gone: usize, come: usize },
    /// A column at `at` was put in or taken out. Taking a column change back
    /// reports `Shape`.
    Columns { at: usize, inserted: bool },
    /// Enough moved that nothing can be assumed to be where it was.
    Shape,
}

/// One record's fields as they were and as they are.
pub struct Edit {
    pub row: usize,
    pub before: Vec<Field>,
    pub after: Vec<Field>,
}

/// One thing done to the records, with what it needs to be taken back.
pub enum Change {
    /// Records whose fields were replaced by other fields.
    Fields { edits: Vec<Edit> },
    /// Records from `at` replaced by other records.
    Rows { at: usize, before: Vec<Record>, after: Vec<Record> },
    /// A field in column `at` of each listed record, which the change either
    /// put there or took away.
    Column { at: usize, fields: Vec<(usize, Field)>, inserted: bool },
    /// The records put in a new order, which names for each position the
    /// record that goes there.
    Order { order: Vec<usize> },
}

pub struct EditM {
    pub row: int,
    pub before: Seq<FieldM>,
    pub after: Seq<FieldM>,
}

pub enum ChangeM {
    Fields { edits: Seq<EditM> },
    Rows { at: int, before: Seq<RecordM>, after: Seq<RecordM> },
    Column { at: int, rows: Seq<int>, fields: Seq<FieldM>, inserted: bool },
    Order { order: Seq<int> },
}

impl View for Edit {
    type V = EditM;

    open spec fn view(&self) -> EditM {
        EditM {
            row: self.row as int,
            before: fields_view(self.before@),
            after: fields_view(self.after@),
        }
    }
}

impl View for Change {
    type V = ChangeM;

    open spec fn view(&self) -> ChangeM {
        match self {
            Change::Fields { edits } => ChangeM::Fields {
                edits: edits@.map_values(|e: Edit| e@),
            },
            Change::Rows { at, before, after } => ChangeM::Rows {
                at: *at as int,
                before: records_view(before@),
                after: records_view(after@),
            },
            Change::Column { at, fields, inserted } => ChangeM::Column {
                at: *at as int,
                rows: fields@.map_values(|p: (usize, Field)| p.0 as int),
                fields: fields@.map_values(|p: (usize, Field)| p.1@),
                inserted: *inserted,
            },
            Change::Order { order } => ChangeM::Order {
                order: order@.map_values(|p: usize| p as int),
            },
        }
    }
}

/// A record with other fields and the same ending.
pub open spec fn with_fields(record: RecordM, fields: Seq<FieldM>) -> RecordM {
    RecordM { fields, terminator: record.terminator }
}

/// The last place in `rows` that holds `row`, or -1.
pub open spec fn last_at(rows: Seq<int>, row: int) -> int
    decreases rows.len(),
{
    if rows.len() == 0 {
        -1
    } else if rows.last() == row {
        rows.len() - 1
    } else {
        last_at(rows.drop_last(), row)
    }
}

pub open spec fn edit_rows(edits: Seq<EditM>) -> Seq<int> {
    edits.map_values(|e: EditM| e.row)
}

/// The records with each edit applied in turn, forwards or backwards.
pub open spec fn apply_edits(s: Seq<RecordM>, edits: Seq<EditM>, forward: bool) -> Seq<RecordM>
    decreases edits.len(),
{
    if edits.len() == 0 {
        s
    } else {
        let e = edits.last();
        let t = apply_edits(s, edits.drop_last(), forward);
        if 0 <= e.row < t.len() {
            t.update(
                e.row,
                with_fields(
                    t[e.row],
                    if forward {
                        e.after
                    } else {
                        e.before
                    },
                ),
            )
        } else {
            t
        }
    }
}

/// The records with `gone` taken out at `at` and `come` put in their place.
pub open spec fn apply_rows(s: Seq<RecordM>, at: int, gone: Seq<RecordM>, come: Seq<RecordM>) -> Seq<
    RecordM,
> {
    s.subrange(0, at) + come + s.subrange(at + gone.len(), s.len() as int)
}

/// The records with a field put in, or taken out, at `at` in each listed row.
pub open spec fn apply_column(
    s: Seq<RecordM>,
    at: int,
    rows: Seq<int>,
    fields: Seq<FieldM>,
    insert: bool,
) -> Seq<RecordM>
    decreases rows.len(),
{
    if rows.len() == 0 {
        s
    } else {
        let t = apply_column(s, at, rows.drop_last(), fields.drop_last(), insert);
        let r = rows.last();
        if 0 <= r < t.len() {
            t.update(
                r,
                with_fields(
                    t[r],
                    if insert {
                        t[r].fields.insert(at, fields.last())
                    } else {
                        t[r].fields.remove(at)
                    },
                ),
            )
        } else {
            t
        }
    }
}

/// The records' fields put in a new order; each position keeps its ending.
pub open spec fn apply_order(s: Seq<RecordM>, order: Seq<int>) -> Seq<RecordM> {
    Seq::new(s.len(), |p: int| with_fields(s[p], s[order[p]].fields))
}

/// Whether `order` names every position below `n` exactly once.
pub open spec fn is_permutation(order: Seq<int>, n: int) -> bool {
    &&& order.len() == n
    &&& forall|p: int| 0 <= p < n ==> 0 <= #[trigger] order[p] < n
    &&& forall|p: int, q: int| 0 <= p < q < n ==> order[p] != order[q]
    &&& forall|i: int| 0 <= i < n ==> #[trigger] names(order, n, i)
}

/// Whether some position below `n` names `i`.
pub open spec fn names(order: Seq<int>, n: int, i: int) -> bool {
    exists|p: int| 0 <= p < n && order[p] == i
}

/// The order that takes `order` back.
pub open spec fn inverse_order(order: Seq<int>) -> Seq<int> {
    Seq::new(order.len(), |i: int| choose|p: int| 0 <= p < order.len() && order[p] == i)
}

/// What a change does to the records, forwards or backwards.
pub open spec fn apply_spec(c: ChangeM, s: Seq<RecordM>, forward: bool) -> Seq<RecordM> {
    match c {
        ChangeM::Fields { edits } => apply_edits(s, edits, forward),
        ChangeM::Rows { at, before, after } => if forward {
            apply_rows(s, at, before, after)
        } else {
            apply_rows(s, at, after, before)
        },
        ChangeM::Column { at, rows, fields, inserted } => apply_column(
            s,
            at,
            rows,
            fields,
            inserted == forward,
        ),
        ChangeM::Order { order } => if forward {
            apply_order(s, order)
        } else {
            apply_order(s, inverse_order(order))
        },
    }
}

pub open spec fn distinct(rows: Seq<int>) -> bool {
    forall|p: int, q: int| 0 <= p < q < rows.len() ==> rows[p] != rows[q]
}

/// Whether the records are in a state a change can be applied to in this
/// direction.
pub open spec fn ready(c: ChangeM, s: Seq<RecordM>, forward: bool) -> bool {
    match c {
        ChangeM::Fields { edits } => forall|k: int|
            0 <= k < edits.len() ==> 0 <= #[trigger] edits[k].row < s.len(),
        ChangeM::Rows { at, before, after } => 0 <= at && at + (if forward {
            before
        } else {
            after
        }).len() <= s.len(),
        ChangeM::Column { at, rows, fields, inserted } => {
            &&& rows.len() == fields.len()
            &&& distinct(rows)
            &&& 0 <= at
            &&& forall|k: int|
                0 <= k < rows.len() ==> 0 <= #[trigger] rows[k] < s.len() && (if inserted
                    == forward {
                    at <= s[rows[k]].fields.len()
                } else {
                    at < s[rows[k]].fields.len()
                })
        },
        ChangeM::Order { order } => is_permutation(order, s.len() as int),
    }
}

/// Whether a change can be applied to `s` and then taken back to `s`.
pub open spec fn invertible(c: ChangeM, s: Seq<RecordM>) -> bool {
    &&& ready(c, s, true)
    &&& ready(c, apply_spec(c, s, true), false)
    &&& apply_spec(c, apply_spec(c, s, true), false) == s
}

/// Whether a change leads from `a` to `b` and back.
pub open spec fn step(c: ChangeM, a: Seq<RecordM>, b: Seq<RecordM>) -> bool {
    &&& invertible(c, a)
    &&& apply_spec(c, a, true) == b
}

/// What a view is told a change moved.
pub open spec fn extent_of(c: &Change, forward: bool) -> Extent {
    match c {
        Change::Fields { edits } => if edits@.len() == 1 {
            Extent::Record(edits@[0].row)
        } else {
            Extent::Shape
        },
        Change::Rows { at, before, after } => Extent::Rows {
            at: *at,
            gone: if forward {
                before@.len() as usize
            } else {
                after@.len() as usize
            },
            come: if forward {
                after@.len() as usize
            } else {
                before@.len() as usize
            },
        },
        Change::Column { at, fields, inserted } => if forward {
            Extent::Columns { at: *at, inserted: *inserted }
        } else {
            Extent::Shape
        },
        Change::Order { order } => Extent::Shape,
    }
}

// ---------------------------------------------------------------------------
// What the folds come to.
proof fn lemma_apply_edits(s: Seq<RecordM>, edits: Seq<EditM>, forward: bool)
    requires
        forall|k: int| 0 <= k < edits.len() ==> 0 <= #[trigger] edits[k].row < s.len(),
    ensures
        apply_edits(s, edits, forward).len() == s.len(),
        forall|i: int|
            0 <= i < s.len() ==> #[trigger] apply_edits(s, edits, forward)[i] == ({
                let k = last_at(edit_rows(edits), i);
                if k >= 0 {
                    with_fields(
                        s[i],
                        if forward {
                            edits[k].after
                        } else {
                            edits[k].before
                        },
                    )
                } else {
                    s[i]
                }
            }),
        forall|i: int|
            0 <= i < s.len() ==> -1 <= #[trigger] last_at(edit_rows(edits), i) < edits.len(),
    decreases edits.len(),
{
    if edits.len() > 0 {
        let prefix = edits.drop_last();
        assert forall|k: int| 0 <= k < prefix.len() implies 0 <= #[trigger] prefix[k].row
            < s.len() by {
            assert(prefix[k] == edits[k]);
        }
        lemma_apply_edits(s, prefix, forward);
        assert(edit_rows(edits).drop_last() =~= edit_rows(prefix));
        let e = edits.last();
        assert(edits[edits.len() - 1] == e);
        assert(edit_rows(edits).last() == e.row);
        assert forall|i: int| 0 <= i < s.len() implies -1 <= #[trigger] last_at(
            edit_rows(edits),
            i,
        ) < edits.len() by {
            if i != e.row {
                assert(last_at(edit_rows(edits), i) == last_at(edit_rows(prefix), i));
            }
        }
        assert forall|i: int| 0 <= i < s.len() implies #[trigger] apply_edits(
            s,
            edits,
            forward,
        )[i] == ({
            let k = last_at(edit_rows(edits), i);
            if k >= 0 {
                with_fields(
                    s[i],
                    if forward {
                        edits[k].after
                    } else {
                        edits[k].before
                    },
                )
            } else {
                s[i]
            }
        }) by {
            if i != e.row {
                assert(last_at(edit_rows(edits), i) == last_at(edit_rows(prefix), i));
                let k = last_at(edit_rows(prefix), i);
                if k >= 0 {
                    assert(prefix[k] == edits[k]);
                }
            }
        }
    }
}

proof fn lemma_last_at_absent(rows: Seq<int>, row: int)
    requires
        forall|k: int| 0 <= k < rows.len() ==> rows[k] != row,
    ensures
        last_at(rows, row) == -1,
    decreases rows.len(),
{
    if rows.len() > 0 {
        assert(rows.last() == rows[rows.len() - 1]);
        lemma_last_at_absent(rows.drop_last(), row);
    }
}

proof fn lemma_last_at_present(rows: Seq<int>, k: int)
    requires
        distinct(rows),
        0 <= k < rows.len(),
    ensures
        last_at(rows, rows[k]) == k,
    decreases rows.len(),
{
    if k == rows.len() - 1 {
    } else {
        assert(rows.last() == rows[rows.len() - 1]);
        assert(rows.drop_last()[k] == rows[k]);
        lemma_last_at_present(rows.drop_last(), k);
    }
}

pub open spec fn column_result(s: Seq<RecordM>, at: int, rows: Seq<int>, fields: Seq<FieldM>, insert: bool, i: int) -> RecordM {
    let k = last_at(rows, i);
    if k >= 0 {
        with_fields(
            s[i],
            if insert {
                s[i].fields.insert(at, fields[k])
            } else {
                s[i].fields.remove(at)
            },
        )
    } else {
        s[i]
    }
}

proof fn lemma_apply_column(
    s: Seq<RecordM>,
    at: int,
    rows: Seq<int>,
    fields: Seq<FieldM>,
    insert: bool,
)
    requires
        rows.len() == fields.len(),
        distinct(rows),
        forall|k: int| 0 <= k < rows.len() ==> 0 <= #[trigger] rows[k] < s.len(),
    ensures
        apply_column(s, at, rows, fields, insert).len() == s.len(),
        forall|i: int|
            0 <= i < s.len() ==> #[trigger] apply_column(s, at, rows, fields, insert)[i]
                == column_result(s, at, rows, fields, insert, i),
    decreases rows.len(),
{
    if rows.len() > 0 {
        let pr = rows.drop_last();
        let pf = fields.drop_last();
        assert forall|k: int| 0 <= k < pr.len() implies 0 <= #[trigger] pr[k] < s.len() by {
            assert(pr[k] == rows[k]);
        }
        lemma_apply_column(s, at, pr, pf, insert);
        let r = rows.last();
        assert(r == rows[rows.len() - 1]);
        assert forall|k: int| 0 <= k < pr.len() implies pr[k] != r by {
            assert(pr[k] == rows[k]);
        }
        lemma_last_at_absent(pr, r);
        assert forall|i: int| 0 <= i < s.len() implies #[trigger] apply_column(
            s,
            at,
            rows,
            fields,
            insert,
        )[i] == column_result(s, at, rows, fields, insert, i) by {
            if i != r {
                assert(last_at(rows, i) == last_at(pr, i));
                lemma_last_at_is(pr, i);
                let k = last_at(pr, i);
                if k >= 0 {
                    assert(pf[k] == fields[k]);
                }
            } else {
                assert(fields.last() == fields[fields.len() - 1]);
            }
        }
    }
}

/// What applying edits comes to, record by record.
pub(crate) proof fn lemma_edits_applied(s: Seq<RecordM>, edits: Seq<EditM>, forward: bool)
    requires
        forall|k: int| 0 <= k < edits.len() ==> 0 <= #[trigger] edits[k].row < s.len(),
    ensures
        apply_edits(s, edits, forward).len() == s.len(),
        forall|i: int|
            0 <= i < s.len() ==> #[trigger] apply_edits(s, edits, forward)[i] == ({
                let k = last_at(edit_rows(edits), i);
                if k >= 0 {
                    with_fields(
                        s[i],
                        if forward {
                            edits[k].after
                        } else {
                            edits[k].before
                        },
                    )
                } else {
                    s[i]
                }
            }),
{
    lemma_apply_edits(s, edits, forward);
}

/// Where `last_at` points, it points at the row asked for.
pub(crate) proof fn lemma_last_at_bounds(rows: Seq<int>, row: int)
    ensures
        last_at(rows, row) >= 0 ==> last_at(rows, row) < rows.len() && rows[last_at(rows, row)]
            == row,
        last_at(rows, row) >= -1,
{
    lemma_last_at_is(rows, row);
    lemma_last_at_lower(rows, row);
}

proof fn lemma_last_at_lower(rows: Seq<int>, row: int)
    ensures
        last_at(rows, row) >= -1,
    decreases rows.len(),
{
    if rows.len() > 0 && rows.last() != row {
        lemma_last_at_lower(rows.drop_last(), row);
    }
}

/// A row that is listed somewhere has a last place in the list.
pub(crate) proof fn lemma_last_at_found(rows: Seq<int>, j: int)
    requires
        0 <= j < rows.len(),
    ensures
        last_at(rows, rows[j]) >= j,
    decreases rows.len(),
{
    if rows.last() != rows[j] {
        assert(j < rows.len() - 1);
        assert(rows.drop_last()[j] == rows[j]);
        lemma_last_at_found(rows.drop_last(), j);
    }
}

/// What applying a column change comes to, record by record.
pub(crate) proof fn lemma_column_applied(
    s: Seq<RecordM>,
    at: int,
    rows: Seq<int>,
    fields: Seq<FieldM>,
    insert: bool,
)
    requires
        rows.len() == fields.len(),
        distinct(rows),
        forall|k: int| 0 <= k < rows.len() ==> 0 <= #[trigger] rows[k] < s.len(),
    ensures
        apply_column(s, at, rows, fields, insert).len() == s.len(),
        forall|i: int|
            0 <= i < s.len() ==> #[trigger] apply_column(s, at, rows, fields, insert)[i]
                == column_result(s, at, rows, fields, insert, i),
{
    lemma_apply_column(s, at, rows, fields, insert);
}

proof fn lemma_records_view_push(v: Seq<Record>, r: Record)
    ensures
        records_view(v.push(r)) == records_view(v).push(r@),
{
    assert(records_view(v.push(r)) =~= records_view(v).push(r@));
}

proof fn lemma_records_view_update(v: Seq<Record>, i: int, r: Record)
    requires
        0 <= i < v.len(),
    ensures
        records_view(v.update(i, r)) == records_view(v).update(i, r@),
{
    assert(records_view(v.update(i, r)) =~= records_view(v).update(i, r@));
}

// ---------------------------------------------------------------------------
// Each kind of change taken back.
/// Edits whose `before` is what the records hold are taken back to them.
pub proof fn lemma_edits_invertible(s: Seq<RecordM>, edits: Seq<EditM>)
    requires
        forall|k: int|
            0 <= k < edits.len() ==> 0 <= #[trigger] edits[k].row < s.len() && edits[k].before
                == s[edits[k].row].fields,
    ensures
        invertible(ChangeM::Fields { edits }, s),
{
    let c = ChangeM::Fields { edits };
    lemma_apply_edits(s, edits, true);
    let f = apply_edits(s, edits, true);
    lemma_apply_edits(f, edits, false);
    let b = apply_edits(f, edits, false);
    assert forall|i: int| 0 <= i < s.len() implies b[i] == s[i] by {
        let k = last_at(edit_rows(edits), i);
        if k >= 0 {
            lemma_last_at_is(edit_rows(edits), i);
            assert(edit_rows(edits)[k] == edits[k].row);
        }
    }
    assert(b =~= s);
}

proof fn lemma_last_at_is(rows: Seq<int>, row: int)
    ensures
        last_at(rows, row) >= 0 ==> last_at(rows, row) < rows.len() && rows[last_at(rows, row)]
            == row,
    decreases rows.len(),
{
    if rows.len() > 0 && rows.last() != row {
        lemma_last_at_is(rows.drop_last(), row);
        let k = last_at(rows.drop_last(), row);
        if k >= 0 {
            assert(rows.drop_last()[k] == rows[k]);
        }
    }
}

/// Replacing records that are where the change says they are is taken back.
pub proof fn lemma_rows_invertible(
    s: Seq<RecordM>,
    at: int,
    before: Seq<RecordM>,
    after: Seq<RecordM>,
)
    requires
        0 <= at,
        at + before.len() <= s.len(),
        s.subrange(at, at + before.len()) == before,
    ensures
        invertible(ChangeM::Rows { at, before, after }, s),
{
    let f = apply_rows(s, at, before, after);
    assert(f.subrange(0, at) =~= s.subrange(0, at));
    assert(f.subrange(at + after.len(), f.len() as int) =~= s.subrange(
        at + before.len(),
        s.len() as int,
    ));
    assert(apply_rows(f, at, after, before) =~= s);
}

/// A field put in at `at` and taken out again, or the other way round, leaves
/// the fields as they were.
pub proof fn lemma_column_invertible(
    s: Seq<RecordM>,
    at: int,
    rows: Seq<int>,
    fields: Seq<FieldM>,
    inserted: bool,
)
    requires
        ready(ChangeM::Column { at, rows, fields, inserted }, s, true),
        !inserted ==> forall|k: int|
            0 <= k < rows.len() ==> #[trigger] fields[k] == s[rows[k]].fields[at],
    ensures
        invertible(ChangeM::Column { at, rows, fields, inserted }, s),
{
    let c = ChangeM::Column { at, rows, fields, inserted };
    lemma_apply_column(s, at, rows, fields, inserted);
    let f = apply_column(s, at, rows, fields, inserted);
    assert forall|k: int| 0 <= k < rows.len() implies 0 <= #[trigger] rows[k] < f.len() && (if !inserted {
        at <= f[rows[k]].fields.len()
    } else {
        at < f[rows[k]].fields.len()
    }) by {
        lemma_last_at_present(rows, k);
    }
    assert(ready(c, f, false));
    lemma_apply_column(f, at, rows, fields, !inserted);
    let b = apply_column(f, at, rows, fields, !inserted);
    assert forall|i: int| 0 <= i < s.len() implies b[i] == s[i] by {
        let k = last_at(rows, i);
        if k >= 0 {
            lemma_last_at_is(rows, i);
            let old_fields = s[i].fields;
            if inserted {
                assert(old_fields.insert(at, fields[k]).remove(at) =~= old_fields);
            } else {
                assert(old_fields.remove(at).insert(at, fields[k]) =~= old_fields);
            }
        }
    }
    assert(b =~= s);
}

/// Putting the records in an order and then in its inverse leaves them as
/// they were.
pub proof fn lemma_order_invertible(s: Seq<RecordM>, order: Seq<int>)
    requires
        is_permutation(order, s.len() as int),
    ensures
        invertible(ChangeM::Order { order }, s),
{
    let n = s.len() as int;
    let inv = inverse_order(order);
    lemma_inverse_order(order, n);
    let f = apply_order(s, order);
    let b = apply_order(f, inv);
    assert forall|q: int| 0 <= q < n implies b[q] == s[q] by {
        assert(order[inv[q]] == q);
    }
    assert(b =~= s);
}

/// The inverse of a permutation is one, and undoes it.
pub proof fn lemma_inverse_order(order: Seq<int>, n: int)
    requires
        is_permutation(order, n),
    ensures
        is_permutation(inverse_order(order), n),
        forall|q: int| 0 <= q < n ==> order[#[trigger] inverse_order(order)[q]] == q,
        forall|p: int| 0 <= p < n ==> inverse_order(order)[#[trigger] order[p]] == p,
{
    let inv = inverse_order(order);
    assert forall|q: int| 0 <= q < n implies 0 <= #[trigger] inv[q] < n && order[inv[q]] == q by {
        assert(names(order, n, q));
    }
    assert forall|p: int| 0 <= p < n implies inv[#[trigger] order[p]] == p by {
        let q = order[p];
        let p2 = inv[q];
        assert(order[p2] == q);
        if p2 != p {
            if p < p2 {
                assert(order[p] != order[p2]);
            } else {
                assert(order[p2] != order[p]);
            }
        }
    }
    assert forall|p: int, q: int| 0 <= p < q < n implies inv[p] != inv[q] by {
        assert(order[inv[p]] == p);
        assert(order[inv[q]] == q);
    }
    assert forall|i: int| 0 <= i < n implies #[trigger] names(inv, n, i) by {
        assert(inv[order[i]] == i);
    }
}

// ---------------------------------------------------------------------------
// Applying a change.
impl Change {
    /// Applies this change, or takes it back. `records` must be in the state
    /// this direction expects.
    pub fn apply(&self, records: &mut Vec<Record>, forward: bool) -> (r: Extent)
        requires
            ready(self@, records_view(old(records)@), forward),
        ensures
            records_view(final(records)@) == apply_spec(self@, records_view(old(records)@), forward),
            r == extent_of(self, forward),
    {
        match self {
            Change::Fields { edits } => {
                let ghost s = records_view(records@);
                let ghost em = edits@.map_values(|e: Edit| e@);
                let mut k: usize = 0;
                while k < edits.len()
                    invariant
                        k <= edits@.len(),
                        em == edits@.map_values(|e: Edit| e@),
                        forall|j: int| 0 <= j < em.len() ==> 0 <= #[trigger] em[j].row < s.len(),
                        records_view(records@) == apply_edits(s, em.subrange(0, k as int), forward),
                        records@.len() == s.len(),
                    decreases edits@.len() - k,
                {
                    let edit = &edits[k];
                    assert(edits@[k as int]@ == em[k as int]);
                    assert(em[k as int] == edit@);
                    let row = edit.row;
                    assert(0 <= em[k as int].row < s.len());
                    assert(row < records@.len());
                    let fields = if forward {
                        clone_fields(&edit.after)
                    } else {
                        clone_fields(&edit.before)
                    };
                    let ghost previous = records@;
                    let terminator = records[row].terminator;
                    let replacement = Record { fields, terminator };
                    records.set(row, replacement);
                    proof {
                        lemma_records_view_update(previous, row as int, replacement);
                        let prefix = em.subrange(0, k + 1 as int);
                        assert(prefix.drop_last() =~= em.subrange(0, k as int));
                        assert(prefix.last() == em[k as int]);
                        assert(replacement@ == with_fields(
                            records_view(previous)[row as int],
                            if forward {
                                em[k as int].after
                            } else {
                                em[k as int].before
                            },
                        ));
                    }
                    k = k + 1;
                }
                assert(em.subrange(0, edits@.len() as int) =~= em);
                if edits.len() == 1 {
                    Extent::Record(edits[0].row)
                } else {
                    Extent::Shape
                }
            },
            Change::Rows { at, before, after } => {
                let ghost s = records_view(records@);
                let (gone, come) = if forward {
                    (before, after)
                } else {
                    (after, before)
                };
                let mut spliced: Vec<Record> = Vec::new();
                let mut i: usize = 0;
                while i < *at
                    invariant
                        i <= *at,
                        *at + gone@.len() <= records@.len(),
                        s == records_view(records@),
                        records_view(spliced@) == s.subrange(0, i as int),
                    decreases *at - i,
                {
                    let ghost previous = spliced@;
                    let copy = records[i].copy();
                    spliced.push(copy);
                    proof {
                        lemma_records_view_push(previous, copy);
                        assert(s.subrange(0, i + 1 as int) =~= s.subrange(0, i as int).push(
                            s[i as int],
                        ));
                    }
                    i = i + 1;
                }
                let mut j: usize = 0;
                while j < come.len()
                    invariant
                        j <= come@.len(),
                        records_view(spliced@) == s.subrange(0, *at as int) + records_view(
                            come@,
                        ).subrange(0, j as int),
                    decreases come@.len() - j,
                {
                    let ghost previous = spliced@;
                    let copy = come[j].copy();
                    spliced.push(copy);
                    proof {
                        lemma_records_view_push(previous, copy);
                        assert(records_view(come@)[j as int] == come@[j as int]@);
                        assert(records_view(come@).subrange(0, j + 1 as int) =~= records_view(
                            come@,
                        ).subrange(0, j as int).push(copy@));
                    }
                    j = j + 1;
                    assert(records_view(spliced@) =~= s.subrange(0, *at as int) + records_view(
                        come@,
                    ).subrange(0, j as int));
                }
                let total = records.len();
                let gone_len = gone.len();
                assert(*at + gone_len <= total);
                let mut i: usize = *at + gone_len;
                while i < records.len()
                    invariant
                        *at + gone@.len() <= i <= records@.len(),
                        s == records_view(records@),
                        records_view(spliced@) == s.subrange(0, *at as int) + records_view(come@)
                            + s.subrange(*at + gone@.len(), i as int),
                    decreases records@.len() - i,
                {
                    let ghost previous = spliced@;
                    let copy = records[i].copy();
                    spliced.push(copy);
                    proof {
                        lemma_records_view_push(previous, copy);
                        assert(s.subrange(*at + gone@.len(), i + 1 as int) =~= s.subrange(
                            *at + gone@.len(),
                            i as int,
                        ).push(s[i as int]));
                    }
                    i = i + 1;
                    assert(records_view(spliced@) =~= s.subrange(0, *at as int) + records_view(
                        come@,
                    ) + s.subrange(*at + gone@.len(), i as int));
                }
                assert(records_view(come@).subrange(0, come@.len() as int) =~= records_view(
                    come@,
                ));
                *records = spliced;
                Extent::Rows { at: *at, gone: gone.len(), come: come.len() }
            },
            Change::Column { at, fields, inserted } => {
                let ghost s = records_view(records@);
                let ghost rows = fields@.map_values(|p: (usize, Field)| p.0 as int);
                let ghost fs = fields@.map_values(|p: (usize, Field)| p.1@);
                let insert = *inserted == forward;
                let mut k: usize = 0;
                while k < fields.len()
                    invariant
                        k <= fields@.len(),
                        insert == (*inserted == forward),
                        rows == fields@.map_values(|p: (usize, Field)| p.0 as int),
                        fs == fields@.map_values(|p: (usize, Field)| p.1@),
                        ready(ChangeM::Column { at: *at as int, rows, fields: fs, inserted: *inserted }, s, forward),
                        records_view(records@) == apply_column(
                            s,
                            *at as int,
                            rows.subrange(0, k as int),
                            fs.subrange(0, k as int),
                            insert,
                        ),
                        records@.len() == s.len(),
                    decreases fields@.len() - k,
                {
                    let row = fields[k].0;
                    let ghost previous = records@;
                    proof {
                        assert(rows[k as int] == row as int);
                        let pr = rows.subrange(0, k as int);
                        assert forall|j: int| 0 <= j < pr.len() implies pr[j] != row as int by {
                            assert(pr[j] == rows[j]);
                        }
                        lemma_last_at_absent(pr, row as int);
                        assert forall|j: int| 0 <= j < pr.len() implies 0 <= #[trigger] pr[j]
                            < s.len() by {
                            assert(pr[j] == rows[j]);
                        }
                        assert(distinct(pr));
                        lemma_apply_column(s, *at as int, pr, fs.subrange(0, k as int), insert);
                        assert(records_view(records@)[row as int] == s[row as int]);
                    }
                    let mut record = records[row].copy();
                    if insert {
                        record.fields.insert(*at, fields[k].1.copy());
                    } else {
                        record.fields.remove(*at);
                    }
                    let ghost replacement = record@;
                    records.set(row, record);
                    proof {
                        lemma_records_view_update(previous, row as int, record);
                        let prefix_rows = rows.subrange(0, k + 1 as int);
                        let prefix_fields = fs.subrange(0, k + 1 as int);
                        assert(prefix_rows.drop_last() =~= rows.subrange(0, k as int));
                        assert(prefix_fields.drop_last() =~= fs.subrange(0, k as int));
                        assert(prefix_rows.last() == row as int);
                        assert(prefix_fields.last() == fs[k as int]);
                        assert(fs[k as int] == fields@[k as int].1@);
                        let before_fields = records_view(previous)[row as int].fields;
                        if insert {
                            assert(fields_view(record.fields@) =~= before_fields.insert(
                                *at as int,
                                fs[k as int],
                            ));
                        } else {
                            assert(fields_view(record.fields@) =~= before_fields.remove(
                                *at as int,
                            ));
                        }
                    }
                    k = k + 1;
                }
                assert(rows.subrange(0, fields@.len() as int) =~= rows);
                assert(fs.subrange(0, fields@.len() as int) =~= fs);
                if forward {
                    Extent::Columns { at: *at, inserted: *inserted }
                } else {
                    Extent::Shape
                }
            },
            Change::Order { order } => {
                let ghost s = records_view(records@);
                let ghost om = order@.map_values(|p: usize| p as int);
                let n = records.len();
                let mut slots: Vec<usize> = Vec::new();
                if forward {
                    let mut p: usize = 0;
                    while p < n
                        invariant
                            p <= n,
                            n == order@.len(),
                            slots@.len() == p,
                            forall|j: int| 0 <= j < p ==> slots@[j] == order@[j],
                        decreases n - p,
                    {
                        slots.push(order[p]);
                        p = p + 1;
                    }
                } else {
                    proof {
                        lemma_inverse_order(om, n as int);
                    }
                    let mut p: usize = 0;
                    while p < n
                        invariant
                            p <= n,
                            slots@.len() == p,
                        decreases n - p,
                    {
                        slots.push(0);
                        p = p + 1;
                    }
                    let mut p: usize = 0;
                    while p < n
                        invariant
                            p <= n,
                            n == order@.len(),
                            om == order@.map_values(|x: usize| x as int),
                            is_permutation(om, n as int),
                            slots@.len() == n,
                            forall|j: int| 0 <= j < p ==> slots@[om[j]] == j,
                        decreases n - p,
                    {
                        let to = order[p];
                        assert(om[p as int] == to as int);
                        slots.set(to, p);
                        p = p + 1;
                        assert forall|j: int| 0 <= j < p implies slots@[om[j]] == j by {
                            if j < p - 1 {
                                assert(om[j] != om[p - 1]);
                            }
                        }
                    }
                    proof {
                        let inv = inverse_order(om);
                        assert forall|q: int| 0 <= q < n implies slots@[q] == inv[q] by {
                            assert(slots@[om[inv[q]]] == inv[q]);
                        }
                    }
                }
                let ghost target = if forward {
                    om
                } else {
                    inverse_order(om)
                };
                proof {
                    if !forward {
                        lemma_inverse_order(om, n as int);
                    }
                    assert(is_permutation(target, n as int));
                }
                let mut moved: Vec<Record> = Vec::new();
                let mut p: usize = 0;
                while p < n
                    invariant
                        p <= n,
                        n == records@.len(),
                        s == records_view(records@),
                        slots@.len() == n,
                        is_permutation(target, n as int),
                        forall|j: int| 0 <= j < n ==> slots@[j] as int == target[j],
                        records_view(moved@) == apply_order(s, target).subrange(0, p as int),
                    decreases n - p,
                {
                    let from = slots[p];
                    assert(target[p as int] == from as int);
                    let fields = clone_fields(&records[from].fields);
                    let record = Record { fields, terminator: records[p].terminator };
                    let ghost previous = moved@;
                    moved.push(record);
                    proof {
                        lemma_records_view_push(previous, record);
                        assert(record@ == apply_order(s, target)[p as int]);
                        assert(apply_order(s, target).subrange(0, p + 1 as int) =~= apply_order(
                            s,
                            target,
                        ).subrange(0, p as int).push(record@));
                    }
                    p = p + 1;
                    assert(records_view(moved@) =~= apply_order(s, target).subrange(
                        0,
                        p as int,
                    ));
                }
                assert(apply_order(s, target).subrange(0, n as int) =~= apply_order(s, target));
                *records = moved;
                Extent::Shape
            },
        }
    }
}

// ---------------------------------------------------------------------------
// The history itself.
/// The changes made to a document, and where in them it stands.
pub struct History {
    changes: Vec<Change>,
    /// How many changes have been applied.
    position: usize,
    /// The position at which the file on disk was written, when it was
    /// written at one.
    saved: Option<usize>,
    /// The records as they stood before each change and after the last.
    states: Ghost<Seq<Seq<RecordM>>>,
}

impl History {
    /// The records at every point of the history, oldest first.
    pub closed spec fn timeline(&self) -> Seq<Seq<RecordM>> {
        self.states@
    }

    /// How many changes have been applied.
    pub closed spec fn at(&self) -> int {
        self.position as int
    }

    /// What each change of the timeline reports, in order: what it moved when
    /// it was made or put back, and what it moves when it is taken back.
    pub closed spec fn reports(&self) -> Seq<(Extent, Extent)> {
        self.changes@.map_values(|c: Change| (extent_of(&c, true), extent_of(&c, false)))
    }

    /// Where in the timeline the file on disk was written, if anywhere.
    pub closed spec fn saved_at(&self) -> Option<int> {
        match self.saved {
            Some(k) => Some(k as int),
            None => None,
        }
    }

    /// The history agrees with the records it describes, and every step in
    /// it can be taken in both directions.
    pub closed spec fn wf(&self, current: Seq<RecordM>) -> bool {
        &&& self.states@.len() == self.changes@.len() + 1
        &&& self.position <= self.changes@.len()
        &&& self.states@[self.position as int] == current
        &&& forall|i: int|
            0 <= i < self.changes@.len() ==> step(
                #[trigger] self.changes@[i]@,
                self.states@[i],
                self.states@[i + 1],
            )
        &&& match self.saved {
            Some(k) => k <= self.changes@.len(),
            None => true,
        }
    }

    pub proof fn lemma_wf(&self, current: Seq<RecordM>)
        requires
            self.wf(current),
        ensures
            0 <= self.at() < self.timeline().len(),
            self.timeline()[self.at()] == current,
            self.saved_at() matches Some(k) ==> 0 <= k < self.timeline().len(),
            self.reports().len() + 1 == self.timeline().len(),
    {
    }

    /// The history of records that have just been read.
    pub fn new(Ghost(current): Ghost<Seq<RecordM>>) -> (r: Self)
        ensures
            r.wf(current),
            r.timeline() == seq![current],
            r.at() == 0,
            r.saved_at() == Some(0int),
            r.reports() == Seq::<(Extent, Extent)>::empty(),
    {
        let ghost first = seq![current];
        History { changes: Vec::new(), position: 0, saved: Some(0), states: Ghost(first) }
    }

    /// Applies a change and remembers it, in place of anything undone.
    pub fn commit(&mut self, change: Change, records: &mut Vec<Record>) -> (r: Extent)
        requires
            old(self).wf(records_view(old(records)@)),
            invertible(change@, records_view(old(records)@)),
        ensures
            records_view(final(records)@) == apply_spec(change@, records_view(old(records)@), true),
            final(self).wf(records_view(final(records)@)),
            final(self).timeline() == old(self).timeline().subrange(0, old(self).at() + 1).push(
                records_view(final(records)@),
            ),
            final(self).at() == old(self).at() + 1,
            final(self).saved_at() == (match old(self).saved_at() {
                Some(k) => if k > old(self).at() {
                    None
                } else {
                    Some(k)
                },
                None => None,
            }),
            r == extent_of(&change, true),
            final(self).reports() == old(self).reports().subrange(0, old(self).at()).push(
                (extent_of(&change, true), extent_of(&change, false)),
            ),
    {
        let ghost before = records_view(records@);
        let ghost change_reports = (extent_of(&change, true), extent_of(&change, false));
        let extent = change.apply(records, true);
        let ghost after = records_view(records@);
        self.changes.truncate(self.position);
        match self.saved {
            Some(k) => {
                if k > self.position {
                    self.saved = None;
                }
            },
            None => {},
        }
        let ghost kept = self.states@.subrange(0, self.position as int + 1);
        self.states = Ghost(kept.push(after));
        self.changes.push(change);
        self.position = self.changes.len();
        proof {
            assert forall|i: int| 0 <= i < self.changes@.len() implies step(
                #[trigger] self.changes@[i]@,
                self.states@[i],
                self.states@[i + 1],
            ) by {
                if i < self.changes@.len() - 1 {
                    assert(self.changes@[i] == old(self).changes@[i]);
                    assert(self.states@[i] == old(self).states@[i]);
                    assert(self.states@[i + 1] == old(self).states@[i + 1]);
                } else {
                    assert(self.states@[i] == before);
                }
            }
            assert(self.reports() =~= old(self).reports().subrange(0, old(self).at()).push(
                change_reports,
            ));
        }
        extent
    }

    pub fn can_undo(&self) -> (r: bool)
        ensures
            r == (self.at() > 0),
    {
        self.position > 0
    }

    pub fn can_redo(&self) -> (r: bool)
        requires
            exists|current: Seq<RecordM>| self.wf(current),
        ensures
            r == (self.at() + 1 < self.timeline().len()),
    {
        self.position < self.changes.len()
    }

    /// Takes the last change back. `None` when there is nothing to undo.
    pub fn undo(&mut self, records: &mut Vec<Record>) -> (r: Option<Extent>)
        requires
            old(self).wf(records_view(old(records)@)),
        ensures
            final(self).wf(records_view(final(records)@)),
            final(self).timeline() == old(self).timeline(),
            final(self).saved_at() == old(self).saved_at(),
            old(self).at() == 0 ==> r is None && final(self).at() == 0 && final(records)@
                == old(records)@,
            old(self).at() > 0 ==> r is Some && final(self).at() == old(self).at() - 1
                && records_view(final(records)@) == old(self).timeline()[old(self).at() - 1],
            old(self).at() > 0 ==> r == Some(old(self).reports()[old(self).at() - 1].1),
            final(self).reports() == old(self).reports(),
    {
        if self.position == 0 {
            return None;
        }
        self.position = self.position - 1;
        let ghost i = self.position as int;
        assert(step(self.changes@[i]@, self.states@[i], self.states@[i + 1]));
        let extent = self.changes[self.position].apply(records, false);
        Some(extent)
    }

    /// Puts back the change that was undone last. `None` when there is
    /// nothing to redo.
    pub fn redo(&mut self, records: &mut Vec<Record>) -> (r: Option<Extent>)
        requires
            old(self).wf(records_view(old(records)@)),
        ensures
            final(self).wf(records_view(final(records)@)),
            final(self).timeline() == old(self).timeline(),
            final(self).saved_at() == old(self).saved_at(),
            old(self).at() + 1 >= old(self).timeline().len() ==> r is None && final(self).at()
                == old(self).at() && final(records)@ == old(records)@,
            old(self).at() + 1 < old(self).timeline().len() ==> r is Some && final(self).at()
                == old(self).at() + 1 && records_view(final(records)@) == old(
                self,
            ).timeline()[old(self).at() + 1],
            old(self).at() + 1 < old(self).timeline().len() ==> r == Some(
                old(self).reports()[old(self).at()].0,
            ),
            final(self).reports() == old(self).reports(),
    {
        if self.position >= self.changes.len() {
            return None;
        }
        let ghost i = self.position as int;
        assert(step(self.changes@[i]@, self.states@[i], self.states@[i + 1]));
        let extent = self.changes[self.position].apply(records, true);
        self.position = self.position + 1;
        Some(extent)
    }

    pub fn is_modified(&self) -> (r: bool)
        ensures
            r == (self.saved_at() != Some(self.at())),
    {
        match self.saved {
            Some(k) => k != self.position,
            None => true,
        }
    }

    pub fn mark_saved(&mut self)
        ensures
            final(self).saved_at() == Some(old(self).at()),
            final(self).at() == old(self).at(),
            final(self).timeline() == old(self).timeline(),
            final(self).reports() == old(self).reports(),
            forall|current: Seq<RecordM>| old(self).wf(current) ==> final(self).wf(current),
    {
        self.saved = Some(self.position);
    }

    /// Says that the file on disk no longer matches any point in this
    /// history.
    pub fn mark_unsaved(&mut self)
        ensures
            final(self).saved_at() == None::<int>,
            final(self).at() == old(self).at(),
            final(self).timeline() == old(self).timeline(),
            final(self).reports() == old(self).reports(),
            forall|current: Seq<RecordM>| old(self).wf(current) ==> final(self).wf(current),
    {
        self.saved = None;
    }
}

} // verus!
