//! Turning a board into the rows of text that are shown to the player.

use vstd::prelude::*;
use crate::alphabet::{char_of, BOARD_SIZE, EMPTY_VALUE};
use crate::board::{grid_index, Board};
use crate::bounds::Bounds;
use crate::wordset::CellSet;

verus! {

/// The text of a cell: a blank for an empty cell, the letter for a letter,
/// and the letter with a star behind it for a letter that was on the
/// previous board in the same cell.
pub open spec fn cell_text(val: usize, inherited: bool) -> Seq<char> {
    if val == EMPTY_VALUE {
        seq![' ']
    } else if inherited {
        seq![char_of(val), '*']
    } else {
        seq![char_of(val)]
    }
}

/// The text of the cell (`row`, `col`) of the board.
pub open spec fn text_at(g: Seq<usize>, previous: Set<(usize, usize)>, row: int, col: int) -> Seq<char> {
    cell_text(g[grid_index(row, col)], previous.contains((row as usize, col as usize)))
}

/// The rows of text of the part of the board within the bounds.
pub open spec fn rendered(g: Seq<usize>, bounds: Bounds, previous: Set<(usize, usize)>) -> Seq<Seq<Seq<char>>> {
    Seq::new(
        (bounds.max_row - bounds.min_row + 1) as nat,
        |r: int|
            Seq::new(
                (bounds.max_col - bounds.min_col + 1) as nat,
                |c: int| text_at(g, previous, bounds.min_row + r, bounds.min_col + c),
            ),
    )
}

/// The texts of a row of cells.
pub open spec fn row_texts(row: Seq<String>) -> Seq<Seq<char>> {
    row.map_values(|s: String| s@)
}

/// The texts of the rows of a board.
pub open spec fn board_texts(rows: Seq<Vec<String>>) -> Seq<Seq<Seq<char>>> {
    rows.map_values(|row: Vec<String>| row_texts(row@))
}

/// The cells within both bounds in which the previous board holds a letter
/// and the new board holds the same letter.
pub open spec fn overlap(
    previous: Seq<usize>,
    new: Seq<usize>,
    previous_bounds: Bounds,
    new_bounds: Bounds,
) -> Set<(usize, usize)> {
    Set::new(
        |cell: (usize, usize)|
            {
                &&& previous_bounds.holds(cell.0 as int, cell.1 as int)
                &&& new_bounds.holds(cell.0 as int, cell.1 as int)
                &&& previous[grid_index(cell.0 as int, cell.1 as int)] != EMPTY_VALUE
                &&& previous[grid_index(cell.0 as int, cell.1 as int)] == new[grid_index(
                    cell.0 as int,
                    cell.1 as int,
                )]
            },
    )
}

/// The cells of the overlap that come before the cell (`row`, `col`) when
/// the board is read row by row.
pub open spec fn overlap_before(
    previous: Seq<usize>,
    new: Seq<usize>,
    previous_bounds: Bounds,
    new_bounds: Bounds,
    row: int,
    col: int,
) -> Set<(usize, usize)> {
    Set::new(
        |cell: (usize, usize)|
            overlap(previous, new, previous_bounds, new_bounds).contains(cell) && (cell.0 < row || (
            cell.0 == row && cell.1 < col)),
    )
}

/// The text of one cell.
fn cell_to_string(val: usize, inherited: bool) -> (text: String)
    requires
        val < 26 || val == EMPTY_VALUE,
    ensures
        text@ == cell_text(val, inherited),
{
    let mut text = String::new();
    if val == EMPTY_VALUE {
        text.push(' ');
    } else {
        text.push(((val as u8) + 65) as char);
        if inherited {
            text.push('*');
        }
    }
    assert(text@ =~= cell_text(val, inherited));
    text
}

/// Converts the part of the board within the bounds to rows of text, one
/// text for each cell: a blank for an empty cell, the letter for a letter,
/// and the letter with a star for a letter whose cell is in `previous_idxs`.
pub fn board_to_vec(board: &Board, bounds: Bounds, previous_idxs: &CellSet) -> (board_vec: Vec<Vec<String>>)
    requires
        board.wf(),
        bounds.wf(),
    ensures
        board_texts(board_vec@) == rendered(board@, bounds, previous_idxs@),
{
    let ghost target = rendered(board@, bounds, previous_idxs@);
    let mut board_vec: Vec<Vec<String>> = Vec::with_capacity(bounds.max_row - bounds.min_row);
    let mut row = bounds.min_row;
    while row <= bounds.max_row
        invariant
            board.wf(),
            bounds.wf(),
            bounds.min_row <= row <= bounds.max_row + 1,
            target == rendered(board@, bounds, previous_idxs@),
            board_vec@.len() == row - bounds.min_row,
            forall|r: int| 0 <= r < board_vec@.len() ==> row_texts(#[trigger] board_vec@[r]@) == target[r],
        decreases bounds.max_row + 1 - row,
    {
        let mut row_vec: Vec<String> = Vec::with_capacity(bounds.max_col - bounds.min_col);
        let mut col = bounds.min_col;
        while col <= bounds.max_col
            invariant
                board.wf(),
                bounds.wf(),
                bounds.min_row <= row <= bounds.max_row,
                bounds.min_col <= col <= bounds.max_col + 1,
                row_vec@.len() == col - bounds.min_col,
                forall|c: int|
                    0 <= c < row_vec@.len() ==> (#[trigger] row_vec@[c])@ == text_at(
                        board@,
                        previous_idxs@,
                        row as int,
                        bounds.min_col + c,
                    ),
            decreases bounds.max_col + 1 - col,
        {
            let val = board.get_val(row, col);
            let inherited = val != EMPTY_VALUE && previous_idxs.contains(&(row, col));
            let text = cell_to_string(val, inherited);
            row_vec.push(text);
            col += 1;
        }
        proof {
            assert(row_texts(row_vec@) =~= target[row - bounds.min_row]);
        }
        board_vec.push(row_vec);
        row += 1;
    }
    proof {
        assert(board_texts(board_vec@) =~= target);
    }
    board_vec
}

/// Gets the cells in which the previous board and the new board hold the
/// same letter.
pub fn get_board_overlap(
    previous_board: &Board,
    new_board: &Board,
    previous_bounds: Bounds,
    new_bounds: Bounds,
) -> (overlapping_idxs: CellSet)
    requires
        previous_board.wf(),
        new_board.wf(),
        previous_bounds.wf(),
        new_bounds.wf(),
    ensures
        overlapping_idxs@ == overlap(previous_board@, new_board@, previous_bounds, new_bounds),
{
    let ghost target = overlap(previous_board@, new_board@, previous_bounds, new_bounds);
    let mut overlapping_idxs = CellSet::new();
    let first_row = if previous_bounds.min_row > new_bounds.min_row {
        previous_bounds.min_row
    } else {
        new_bounds.min_row
    };
    let last_row = if previous_bounds.max_row < new_bounds.max_row {
        previous_bounds.max_row
    } else {
        new_bounds.max_row
    };
    let first_col = if previous_bounds.min_col > new_bounds.min_col {
        previous_bounds.min_col
    } else {
        new_bounds.min_col
    };
    let last_col = if previous_bounds.max_col < new_bounds.max_col {
        previous_bounds.max_col
    } else {
        new_bounds.max_col
    };
    if first_row > last_row || first_col > last_col {
        assert(overlapping_idxs@ =~= target);
        return overlapping_idxs;
    }
    assert(overlapping_idxs@ =~= overlap_before(
        previous_board@,
        new_board@,
        previous_bounds,
        new_bounds,
        first_row as int,
        first_col as int,
    ));
    let mut row = first_row;
    while row <= last_row
        invariant
            previous_board.wf(),
            new_board.wf(),
            first_row <= row <= last_row + 1,
            last_row < BOARD_SIZE,
            first_col <= last_col < BOARD_SIZE,
            first_row == (if previous_bounds.min_row > new_bounds.min_row {
                previous_bounds.min_row
            } else {
                new_bounds.min_row
            }),
            last_row == (if previous_bounds.max_row < new_bounds.max_row {
                previous_bounds.max_row
            } else {
                new_bounds.max_row
            }),
            first_col == (if previous_bounds.min_col > new_bounds.min_col {
                previous_bounds.min_col
            } else {
                new_bounds.min_col
            }),
            last_col == (if previous_bounds.max_col < new_bounds.max_col {
                previous_bounds.max_col
            } else {
                new_bounds.max_col
            }),
            overlapping_idxs@ == overlap_before(
                previous_board@,
                new_board@,
                previous_bounds,
                new_bounds,
                row as int,
                first_col as int,
            ),
        decreases last_row + 1 - row,
    {
        let mut col = first_col;
        while col <= last_col
            invariant
                previous_board.wf(),
                new_board.wf(),
                first_row <= row <= last_row,
                last_row < BOARD_SIZE,
                first_col <= col <= last_col + 1,
                last_col < BOARD_SIZE,
                previous_bounds.min_row <= row <= previous_bounds.max_row,
                new_bounds.min_row <= row <= new_bounds.max_row,
                previous_bounds.min_col <= first_col && last_col <= previous_bounds.max_col,
                new_bounds.min_col <= first_col && last_col <= new_bounds.max_col,
                overlapping_idxs@ == overlap_before(
                    previous_board@,
                    new_board@,
                    previous_bounds,
                    new_bounds,
                    row as int,
                    col as int,
                ),
            decreases last_col + 1 - col,
        {
            let before = previous_board.get_val(row, col);
            let ghost had = overlapping_idxs@;
            if before != EMPTY_VALUE && before == new_board.get_val(row, col) {
                overlapping_idxs.insert((row, col));
                assert(had.insert((row, col)) =~= overlap_before(
                    previous_board@,
                    new_board@,
                    previous_bounds,
                    new_bounds,
                    row as int,
                    col + 1,
                ));
            } else {
                assert(had =~= overlap_before(
                    previous_board@,
                    new_board@,
                    previous_bounds,
                    new_bounds,
                    row as int,
                    col + 1,
                ));
            }
            col += 1;
        }
        assert(overlapping_idxs@ =~= overlap_before(
            previous_board@,
            new_board@,
            previous_bounds,
            new_bounds,
            row + 1,
            first_col as int,
        ));
        row += 1;
    }
    assert(overlapping_idxs@ =~= target);
    overlapping_idxs
}

/// The character of a cell: a blank for an empty cell, else its letter.
pub open spec fn cell_char(val: usize) -> char {
    if val == EMPTY_VALUE {
        ' '
    } else {
        char_of(val)
    }
}

/// The line of text of a row of the board within the bounds: the characters
/// of its cells and a line feed.
pub open spec fn row_line(g: Seq<usize>, bounds: Bounds, row: int) -> Seq<char> {
    Seq::new(
        (bounds.max_col - bounds.min_col + 1) as nat,
        |c: int| cell_char(g[grid_index(row, bounds.min_col + c)]),
    ).push('\n')
}

/// The lines of text of the first `rows` rows of the board within the bounds.
pub open spec fn row_lines(g: Seq<usize>, bounds: Bounds, rows: int) -> Seq<char>
    decreases rows,
{
    if rows <= 0 {
        Seq::empty()
    } else {
        row_lines(g, bounds, rows - 1) + row_line(g, bounds, bounds.min_row + rows - 1)
    }
}

/// The character is a blank or a line feed.
pub open spec fn is_blank(c: char) -> bool {
    c == ' ' || c == '\n'
}

/// The text without the blanks and line feeds at its end.
pub open spec fn trimmed(text: Seq<char>) -> Seq<char>
    decreases text.len(),
{
    if text.len() > 0 && is_blank(text.last()) {
        trimmed(text.drop_last())
    } else {
        text
    }
}

/// Converts the part of the board within the bounds to a text: one line for
/// each row, a blank for each empty cell, without the blanks and line feeds
/// at the end of the text.
pub fn board_to_string(board: &Board, bounds: Bounds) -> (text: String)
    requires
        board.wf(),
        bounds.wf(),
    ensures
        text@ == trimmed(row_lines(board@, bounds, bounds.max_row - bounds.min_row + 1)),
{
    let mut board_string: Vec<char> = Vec::new();
    let mut row = bounds.min_row;
    while row <= bounds.max_row
        invariant
            board.wf(),
            bounds.wf(),
            bounds.min_row <= row <= bounds.max_row + 1,
            board_string@ == row_lines(board@, bounds, row - bounds.min_row),
        decreases bounds.max_row + 1 - row,
    {
        let ghost before = board_string@;
        let mut col = bounds.min_col;
        while col <= bounds.max_col
            invariant
                board.wf(),
                bounds.wf(),
                bounds.min_row <= row <= bounds.max_row,
                bounds.min_col <= col <= bounds.max_col + 1,
                board_string@ == before + Seq::new(
                    (col - bounds.min_col) as nat,
                    |c: int| cell_char(board@[grid_index(row as int, bounds.min_col + c)]),
                ),
            decreases bounds.max_col + 1 - col,
        {
            let val = board.get_val(row, col);
            let ghost so_far = board_string@;
            if val == EMPTY_VALUE {
                board_string.push(' ');
            } else {
                board_string.push(((val as u8) + 65) as char);
            }
            assert(board_string@ =~= before + Seq::new(
                (col + 1 - bounds.min_col) as nat,
                |c: int| cell_char(board@[grid_index(row as int, bounds.min_col + c)]),
            ));
            col += 1;
        }
        board_string.push('\n');
        assert(board_string@ =~= before + row_line(board@, bounds, row as int));
        row += 1;
    }
    let ghost all = board_string@;
    let mut keep = board_string.len();
    assert(all.take(keep as int) =~= all);
    while keep > 0 && (board_string[keep - 1] == ' ' || board_string[keep - 1] == '\n')
        invariant
            keep <= board_string.len(),
            board_string@ == all,
            trimmed(all.take(keep as int)) == trimmed(all),
        decreases keep,
    {
        assert(all.take(keep as int).drop_last() =~= all.take(keep - 1));
        keep -= 1;
    }
    let mut text = String::new();
    let mut i: usize = 0;
    while i < keep
        invariant
            i <= keep <= board_string.len(),
            text@ == board_string@.take(i as int),
        decreases keep - i,
    {
        text.push(board_string[i]);
        assert(board_string@.take(i + 1) =~= board_string@.take(i as int).push(board_string@[i as int]));
        i += 1;
    }
    text
}

} // verus!
