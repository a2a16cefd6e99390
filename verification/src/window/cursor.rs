//! Which keys move around the grid, which key asks for what, and where each
//! move takes the keyboard.

use vstd::prelude::*;
use crate::text::same_text;

verus! {

/// How the keyboard moves around the grid, and the key that asks for each
/// move. Tab crosses the table and wraps, as it does in a spreadsheet.
pub open spec fn move_table() -> Seq<(Seq<char>, Seq<char>)> {
    seq![
        ("up"@, "Up"@),
        ("down"@, "Down"@),
        ("left"@, "Left"@),
        ("right"@, "Right"@),
        ("next"@, "Tab"@),
        ("previous"@, "<shift>Tab"@),
        ("row-start"@, "Home"@),
        ("row-end"@, "End"@),
        ("start"@, "<primary>Home"@),
        ("end"@, "<primary>End"@),
    ]
}

/// The keys that open the cell under the cursor, the first being the one
/// that is named for it.
pub open spec fn edit_key_table() -> Seq<Seq<char>> {
    seq!["Return"@, "KP_Enter"@, "F2"@]
}

/// Every name the grid answers to, with the key that answers for it: the
/// moves, then the acts by their first key.
pub open spec fn key_table() -> Seq<(Seq<char>, Seq<char>)> {
    move_table().push(("edit"@, edit_key_table()[0]))
}

/// The key of the first entry of `table` named `how`.
pub open spec fn key_named(table: Seq<(Seq<char>, Seq<char>)>, how: Seq<char>) -> Option<Seq<char>>
    decreases table.len(),
{
    if table.len() == 0 {
        None
    } else if table[0].0 == how {
        Some(table[0].1)
    } else {
        key_named(table.drop_first(), how)
    }
}

/// The moves the keyboard makes in the grid, each with the key that asks
/// for it.
pub fn moves() -> (r: Vec<(&'static str, &'static str)>)
    ensures
        r@.map_values(|m: (&'static str, &'static str)| (m.0@, m.1@)) == move_table(),
{
    let r = vec![
        ("up", "Up"),
        ("down", "Down"),
        ("left", "Left"),
        ("right", "Right"),
        ("next", "Tab"),
        ("previous", "<shift>Tab"),
        ("row-start", "Home"),
        ("row-end", "End"),
        ("start", "<primary>Home"),
        ("end", "<primary>End"),
    ];
    assert(r@.map_values(|m: (&'static str, &'static str)| (m.0@, m.1@)) =~= move_table());
    r
}

/// The keys that open a cell, the first being the one named for it.
pub fn edit_keys() -> (r: Vec<&'static str>)
    ensures
        r@.map_values(|k: &'static str| k@) == edit_key_table(),
{
    let r = vec!["Return", "KP_Enter", "F2"];
    assert(r@.map_values(|k: &'static str| k@) =~= edit_key_table());
    r
}

/// Which key asks the grid for one of the things it does. The first key of
/// an act is the one that answers.
pub fn key_for(how: &str) -> (r: Option<&'static str>)
    ensures
        r is Some <==> key_named(key_table(), how@) is Some,
        r matches Some(k) ==> key_named(key_table(), how@) == Some(k@),
{
    let mut table = moves();
    let keys = edit_keys();
    assert(keys@.map_values(|k: &'static str| k@).len() == keys@.len());
    assert(keys@.map_values(|k: &'static str| k@)[0] == keys@[0]@);
    let ghost moved = table@;
    table.push(("edit", keys[0]));
    let ghost tm = table@.map_values(|m: (&'static str, &'static str)| (m.0@, m.1@));
    assert(tm =~= moved.map_values(|m: (&'static str, &'static str)| (m.0@, m.1@)).push(("edit"@, keys@[0]@)));
    assert(tm =~= key_table());
    let mut k: usize = 0;
    assert(tm.subrange(0, tm.len() as int) =~= tm);
    while k < table.len()
        invariant
            k <= table@.len(),
            tm == table@.map_values(|m: (&'static str, &'static str)| (m.0@, m.1@)),
            tm == key_table(),
            key_named(tm, how@) == key_named(tm.subrange(k as int, tm.len() as int), how@),
        decreases table@.len() - k,
    {
        let ghost rest = tm.subrange(k as int, tm.len() as int);
        assert(rest[0] == (table@[k as int].0@, table@[k as int].1@));
        if same_text(table[k].0, how) {
            return Some(table[k].1);
        }
        assert(rest.drop_first() =~= tm.subrange(k + 1, tm.len() as int));
        k = k + 1;
    }
    None
}

/// Where a move takes the keyboard.
#[derive(Debug, Clone, Copy, PartialEq, Eq, Structural)]
pub enum Step {
    /// To this place in the view: a row position and a column.
    Go(u32, usize),
    /// Out of the table, to whatever comes after or before it: Tab past the
    /// last cell, or Shift+Tab before the first.
    Leave,
    /// Nowhere: the move is not one the grid knows, or the table is empty.
    Stay,
}

/// Where the move named `how` takes the keyboard from `at`, in a view of
/// `rows` rows and `columns` columns. With no cursor yet, any move starts at
/// the first cell. Moves stop at the edges, except Tab and Shift+Tab, which
/// wrap from one row to the next and leave the table at its ends.
pub open spec fn step_for(how: Seq<char>, at: Option<(u32, usize)>, rows: u32, columns: usize) -> Step {
    match at {
        None => Step::Go(0, 0),
        Some((position, column)) => if rows == 0 || columns == 0 {
            Step::Stay
        } else {
            let last_row = (rows - 1) as u32;
            let last_column = (columns - 1) as usize;
            let up = if position > 0 { (position - 1) as u32 } else { 0u32 };
            let down = if position < last_row { (position + 1) as u32 } else { last_row };
            let left = if column > 0 { (column - 1) as usize } else { 0usize };
            let right = if column < last_column { (column + 1) as usize } else { last_column };
            if how == "up"@ {
                Step::Go(up, column)
            } else if how == "down"@ {
                Step::Go(down, column)
            } else if how == "left"@ {
                Step::Go(position, left)
            } else if how == "right"@ {
                Step::Go(position, right)
            } else if how == "row-start"@ {
                Step::Go(position, 0)
            } else if how == "row-end"@ {
                Step::Go(position, last_column)
            } else if how == "start"@ {
                Step::Go(0, 0)
            } else if how == "end"@ {
                Step::Go(last_row, last_column)
            } else if how == "next"@ {
                if column < last_column {
                    Step::Go(position, (column + 1) as usize)
                } else if position < last_row {
                    Step::Go((position + 1) as u32, 0)
                } else {
                    Step::Leave
                }
            } else if how == "previous"@ {
                if column > 0 {
                    Step::Go(position, (column - 1) as usize)
                } else if position > 0 {
                    Step::Go((position - 1) as u32, last_column)
                } else {
                    Step::Leave
                }
            } else {
                Step::Stay
            }
        },
    }
}

/// Where the move named `how` takes the keyboard.
pub fn step(how: &str, at: Option<(u32, usize)>, rows: u32, columns: usize) -> (r: Step)
    ensures
        r == step_for(how@, at, rows, columns),
{
    let (position, column) = match at {
        None => return Step::Go(0, 0),
        Some(place) => place,
    };
    if rows == 0 || columns == 0 {
        return Step::Stay;
    }
    let last_row = rows - 1;
    let last_column = columns - 1;
    let up = if position > 0 { position - 1 } else { 0 };
    let down = if position < last_row { position + 1 } else { last_row };
    let left = if column > 0 { column - 1 } else { 0 };
    let right = if column < last_column { column + 1 } else { last_column };
    if same_text(how, "up") {
        Step::Go(up, column)
    } else if same_text(how, "down") {
        Step::Go(down, column)
    } else if same_text(how, "left") {
        Step::Go(position, left)
    } else if same_text(how, "right") {
        Step::Go(position, right)
    } else if same_text(how, "row-start") {
        Step::Go(position, 0)
    } else if same_text(how, "row-end") {
        Step::Go(position, last_column)
    } else if same_text(how, "start") {
        Step::Go(0, 0)
    } else if same_text(how, "end") {
        Step::Go(last_row, last_column)
    } else if same_text(how, "next") {
        if column < last_column {
            Step::Go(position, column + 1)
        } else if position < last_row {
            Step::Go(position + 1, 0)
        } else {
            Step::Leave
        }
    } else if same_text(how, "previous") {
        if column > 0 {
            Step::Go(position, column - 1)
        } else if position > 0 {
            Step::Go(position - 1, last_column)
        } else {
            Step::Leave
        }
    } else {
        Step::Stay
    }
}

/// The names of the moves are told apart by their lengths and first letters.
proof fn lemma_move_names()
    ensures
        "up"@.len() == 2,
        "up"@[0] == 'u',
        "down"@.len() == 4,
        "down"@[0] == 'd',
        "left"@.len() == 4,
        "left"@[0] == 'l',
        "right"@.len() == 5,
        "right"@[0] == 'r',
        "row-start"@.len() == 9,
        "row-start"@[0] == 'r',
        "row-end"@.len() == 7,
        "row-end"@[0] == 'r',
        "start"@.len() == 5,
        "start"@[0] == 's',
        "end"@.len() == 3,
        "end"@[0] == 'e',
        "next"@.len() == 4,
        "next"@[0] == 'n',
        "previous"@.len() == 8,
        "previous"@[0] == 'p',
{
    reveal_strlit("up");
    reveal_strlit("down");
    reveal_strlit("left");
    reveal_strlit("right");
    reveal_strlit("row-start");
    reveal_strlit("row-end");
    reveal_strlit("start");
    reveal_strlit("end");
    reveal_strlit("next");
    reveal_strlit("previous");
}

/// Up, Down, Left and Right each move one place: inside the table, Up from a
/// row below the first reaches the row above and Down from there comes back,
/// and Left and Right do the same across the columns, the other coordinate
/// staying put. At the edge of the table the move goes no further.
pub proof fn lemma_moves_are_one_place(p: u32, c: usize, rows: u32, columns: usize)
    requires
        p < rows,
        c < columns,
    ensures
        p > 0 ==> step_for("up"@, Some((p, c)), rows, columns) == Step::Go((p - 1) as u32, c),
        p > 0 ==> step_for("down"@, Some(((p - 1) as u32, c)), rows, columns) == Step::Go(p, c),
        c > 0 ==> step_for("left"@, Some((p, c)), rows, columns) == Step::Go(p, (c - 1) as usize),
        c > 0 ==> step_for("right"@, Some((p, (c - 1) as usize)), rows, columns) == Step::Go(p, c),
        p == 0 ==> step_for("up"@, Some((p, c)), rows, columns) == Step::Go(p, c),
        p + 1 == rows ==> step_for("down"@, Some((p, c)), rows, columns) == Step::Go(p, c),
        c == 0 ==> step_for("left"@, Some((p, c)), rows, columns) == Step::Go(p, c),
        c + 1 == columns ==> step_for("right"@, Some((p, c)), rows, columns) == Step::Go(p, c),
{
    lemma_move_names();
}

/// Tab and Shift+Tab undo one another wherever both stay in the table, and
/// Tab from the last cell of a row goes to the first cell of the next.
pub proof fn lemma_tab_and_back(p: u32, c: usize, rows: u32, columns: usize)
    requires
        p < rows,
        c < columns,
    ensures
        c + 1 < columns ==> step_for("next"@, Some((p, c)), rows, columns) == Step::Go(p, (c + 1) as usize)
            && step_for("previous"@, Some((p, (c + 1) as usize)), rows, columns) == Step::Go(p, c),
        c + 1 == columns && p + 1 < rows ==> step_for("next"@, Some((p, c)), rows, columns)
            == Step::Go((p + 1) as u32, 0) && step_for("previous"@, Some(((p + 1) as u32, 0)), rows, columns)
            == Step::Go(p, c),
{
    lemma_move_names();
}

} // verus!
