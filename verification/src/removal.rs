//! Taking letters off a board: the parts of words that can be removed, and
//! the bounds of what is left.
//!
//! A letter of a run is loose when no letter lies beside it, across the run:
//! it belongs to no other word. The loose letters of a run are a removable
//! part, unless they are all there is on the board.

use vstd::prelude::*;
use crate::alphabet::{BOARD_SIZE, EMPTY_VALUE};
use crate::board::{occupied, Board};
use crate::bounds::Bounds;
use crate::line::{filled, line_col, line_row, Direction};
use crate::placement::beside;
use crate::runs::run_start;
use crate::wordset::CellSet;

verus! {

/// The cell (`row`, `col`) holds a letter and is not among the cells of `except`.
pub open spec fn kept(g: Seq<usize>, except: Set<(usize, usize)>, row: int, col: int) -> bool {
    occupied(g, row, col) && !except.contains((row as usize, col as usize))
}

/// The cell at offset `off` of line `line` holds a letter and is not among
/// the cells of `except`.
pub open spec fn kept_at(g: Seq<usize>, except: Set<(usize, usize)>, dir: Direction, line: int, off: int) -> bool {
    kept(g, except, line_row(dir, line, off), line_col(dir, line, off))
}

/// Some cell of line `line`, from offset `from` to offset `to`, holds a
/// letter and is not among the cells of `except`.
pub open spec fn line_keeps(
    g: Seq<usize>,
    except: Set<(usize, usize)>,
    dir: Direction,
    line: int,
    from: int,
    to: int,
) -> bool {
    exists|off: int| from <= off <= to && #[trigger] kept_at(g, except, dir, line, off)
}

/// The bounds are the smallest rectangle that holds every letter of the
/// board but those of the cells of `except`.
pub open spec fn frames_rest(bounds: Bounds, g: Seq<usize>, except: Set<(usize, usize)>) -> bool {
    &&& bounds.wf()
    &&& forall|r: int, c: int| #[trigger] kept(g, except, r, c) ==> bounds.holds(r, c)
    &&& exists|c: int| #[trigger] kept(g, except, bounds.min_row as int, c)
    &&& exists|c: int| #[trigger] kept(g, except, bounds.max_row as int, c)
    &&& exists|r: int| #[trigger] kept(g, except, r, bounds.min_col as int)
    &&& exists|r: int| #[trigger] kept(g, except, r, bounds.max_col as int)
}

/// The board holds a letter in a cell that is not among the cells of `except`.
pub open spec fn leaves_letters(g: Seq<usize>, except: Set<(usize, usize)>) -> bool {
    exists|r: int, c: int| #[trigger] kept(g, except, r, c)
}

/// The cell at offset `off` of line `line` holds a letter, and no letter
/// lies beside it in the neighbouring lines.
pub open spec fn is_loose(g: Seq<usize>, dir: Direction, line: int, off: int) -> bool {
    filled(g, dir, line, off) && !beside(g, dir, line, off)
}

/// The cell at offset `off` of line `line`, as (row, column).
pub open spec fn cell_of(dir: Direction, line: int, off: int) -> (usize, usize) {
    (line_row(dir, line, off) as usize, line_col(dir, line, off) as usize)
}

/// The loose cells of line `line` from offset `from` to offset `to`, in order.
pub open spec fn loose_cells(g: Seq<usize>, dir: Direction, line: int, from: int, to: int) -> Seq<
    (usize, usize),
>
    decreases to - from + 1,
{
    if to < from {
        Seq::empty()
    } else {
        let before = loose_cells(g, dir, line, from, to - 1);
        if is_loose(g, dir, line, to) {
            before.push(cell_of(dir, line, to))
        } else {
            before
        }
    }
}

/// The removable parts of the runs of line `line` that end before offset
/// `upto`, in order: of each run its loose cells, if it has any and they are
/// not all the letters of the board.
pub open spec fn parts_before(g: Seq<usize>, dir: Direction, line: int, upto: int) -> Seq<
    Seq<(usize, usize)>,
>
    decreases upto,
{
    if upto <= 0 {
        Seq::empty()
    } else {
        let before = parts_before(g, dir, line, upto - 1);
        let end = upto - 1;
        if filled(g, dir, line, end) && !filled(g, dir, line, end + 1) {
            let part = loose_cells(g, dir, line, run_start(g, dir, line, end), end);
            if part.len() > 0 && leaves_letters(g, part.to_set()) {
                before.push(part)
            } else {
                before
            }
        } else {
            before
        }
    }
}

/// The removable parts of the runs of the lines before line `upto`, line by line.
pub open spec fn parts_of_lines(g: Seq<usize>, dir: Direction, upto: int) -> Seq<Seq<(usize, usize)>>
    decreases upto,
{
    if upto <= 0 {
        Seq::empty()
    } else {
        parts_of_lines(g, dir, upto - 1) + parts_before(g, dir, upto - 1, BOARD_SIZE as int)
    }
}

/// The removable parts of the board: those of its rows, then those of its columns.
pub open spec fn removable_parts(g: Seq<usize>) -> Seq<Seq<(usize, usize)>> {
    parts_of_lines(g, Direction::Horizontal, BOARD_SIZE as int) + parts_of_lines(
        g,
        Direction::Vertical,
        BOARD_SIZE as int,
    )
}

/// The parts of a list of parts with their bounds.
pub open spec fn parts_in(list: Seq<(Vec<(usize, usize)>, Bounds)>) -> Seq<Seq<(usize, usize)>> {
    list.map_values(|entry: (Vec<(usize, usize)>, Bounds)| entry.0@)
}

/// A run starts no later than any of its cells.
proof fn lemma_run_start_le(g: Seq<usize>, dir: Direction, line: int, off: int)
    requires
        0 <= off,
    ensures
        0 <= run_start(g, dir, line, off) <= off,
    decreases off,
{
    if off > 0 && filled(g, dir, line, off - 1) {
        lemma_run_start_le(g, dir, line, off - 1);
    }
}

/// Where a stretch of a line holds no letter, no run ends in it.
proof fn lemma_parts_skip(g: Seq<usize>, dir: Direction, line: int, from: int, to: int)
    requires
        0 <= from <= to,
        forall|off: int| from <= off < to ==> !filled(g, dir, line, off),
    ensures
        parts_before(g, dir, line, to) == parts_before(g, dir, line, from),
    decreases to - from,
{
    if from < to {
        lemma_parts_skip(g, dir, line, from, to - 1);
    }
}

/// Lines without letters have no removable parts.
proof fn lemma_lines_skip(g: Seq<usize>, dir: Direction, from: int, to: int)
    requires
        0 <= from <= to,
        forall|line: int, off: int| from <= line < to ==> !filled(g, dir, line, off),
    ensures
        parts_of_lines(g, dir, to) == parts_of_lines(g, dir, from),
    decreases to - from,
{
    if from < to {
        lemma_lines_skip(g, dir, from, to - 1);
        lemma_parts_skip(g, dir, to - 1, 0, BOARD_SIZE as int);
        assert(parts_before(g, dir, to - 1, 0) =~= Seq::<Seq<(usize, usize)>>::empty());
        assert(parts_of_lines(g, dir, to) =~= parts_of_lines(g, dir, to - 1));
    }
}

/// Tells whether some cell of line `line`, from offset `from` to offset
/// `to`, holds a letter and is not among the cells of `except`.
pub fn line_has_letter(board: &Board, dir: Direction, line: usize, from: usize, to: usize, except: &CellSet) -> (found:
    bool)
    requires
        board.wf(),
        line < BOARD_SIZE,
        to < BOARD_SIZE,
    ensures
        found == line_keeps(board@, except@, dir, line as int, from as int, to as int),
{
    let mut off = from;
    while off <= to
        invariant
            board.wf(),
            line < BOARD_SIZE,
            to < BOARD_SIZE,
            from <= off,
            forall|o: int| from <= o < off ==> !#[trigger] kept_at(board@, except@, dir, line as int, o),
        decreases to + 1 - off,
    {
        let cell = match dir {
            Direction::Horizontal => (line, off),
            Direction::Vertical => (off, line),
        };
        if board.get_at(dir, line, off) != EMPTY_VALUE && !except.contains(&cell) {
            assert(kept_at(board@, except@, dir, line as int, off as int));
            return true;
        }
        off += 1;
    }
    false
}

/// Gets the bounds of the letters of the board, but for the letters of the
/// cells of `except_vec`, which are to be taken off; or `None` if no other
/// letter is on the board. `old_bounds` are bounds that hold every letter of
/// the board.
pub fn get_new_min_max(board: &Board, old_bounds: Bounds, except_vec: &Vec<(usize, usize)>) -> (res: Option<
    Bounds,
>)
    requires
        board.wf(),
        old_bounds.wf(),
        old_bounds.covers(board@),
    ensures
        match res {
            Some(bounds) => frames_rest(bounds, board@, except_vec@.to_set()),
            None => !leaves_letters(board@, except_vec@.to_set()),
        },
{
    let except_idxs = CellSet::from_cells(except_vec);
    let ghost g = board@;
    let ghost except = except_vec@.to_set();
    let across = Direction::Vertical;
    let along = Direction::Horizontal;
    // Start at the old minimum row and check if that row or any later one has a letter left
    let mut min_row = old_bounds.min_row;
    while min_row <= old_bounds.max_row && !line_has_letter(
        board,
        along,
        min_row,
        old_bounds.min_col,
        old_bounds.max_col,
        &except_idxs,
    )
        invariant
            board.wf(),
            old_bounds.wf(),
            except_idxs@ == except,
            g == board@,
            old_bounds.min_row <= min_row <= old_bounds.max_row + 1,
            forall|r: int|
                old_bounds.min_row <= r < min_row ==> !#[trigger] line_keeps(
                    g,
                    except,
                    along,
                    r,
                    old_bounds.min_col as int,
                    old_bounds.max_col as int,
                ),
        decreases old_bounds.max_row + 1 - min_row,
    {
        min_row += 1;
    }
    if min_row > old_bounds.max_row {
        proof {
            assert forall|r: int, c: int| !#[trigger] kept(g, except, r, c) by {
                if kept(g, except, r, c) {
                    assert(old_bounds.holds(r, c));
                    assert(kept_at(g, except, along, r, c));
                    assert(line_keeps(g, except, along, r, old_bounds.min_col as int, old_bounds.max_col as int));
                }
            }
        }
        return None;
    }
    // Start at the old maximum row and work down
    let mut max_row = old_bounds.max_row;
    while max_row > min_row && !line_has_letter(
        board,
        along,
        max_row,
        old_bounds.min_col,
        old_bounds.max_col,
        &except_idxs,
    )
        invariant
            board.wf(),
            old_bounds.wf(),
            except_idxs@ == except,
            g == board@,
            min_row <= max_row <= old_bounds.max_row,
            line_keeps(g, except, along, min_row as int, old_bounds.min_col as int, old_bounds.max_col as int),
            forall|r: int|
                max_row < r <= old_bounds.max_row ==> !#[trigger] line_keeps(
                    g,
                    except,
                    along,
                    r,
                    old_bounds.min_col as int,
                    old_bounds.max_col as int,
                ),
        decreases max_row,
    {
        max_row -= 1;
    }
    let ghost first: int = choose|c: int|
        old_bounds.min_col <= c <= old_bounds.max_col && #[trigger] kept_at(g, except, along, min_row as int, c);
    proof {
        assert(kept_at(g, except, across, first, min_row as int));
        assert(line_keeps(g, except, across, first, min_row as int, max_row as int));
    }
    // Now the columns
    let mut min_col = old_bounds.min_col;
    while !line_has_letter(board, across, min_col, min_row, max_row, &except_idxs)
        invariant
            board.wf(),
            old_bounds.wf(),
            except_idxs@ == except,
            g == board@,
            min_row <= max_row <= old_bounds.max_row,
            old_bounds.min_col <= min_col <= first <= old_bounds.max_col,
            line_keeps(g, except, across, first, min_row as int, max_row as int),
            forall|c: int|
                old_bounds.min_col <= c < min_col ==> !#[trigger] line_keeps(
                    g,
                    except,
                    across,
                    c,
                    min_row as int,
                    max_row as int,
                ),
        decreases first - min_col,
    {
        min_col += 1;
    }
    let mut max_col = old_bounds.max_col;
    while !line_has_letter(board, across, max_col, min_row, max_row, &except_idxs)
        invariant
            board.wf(),
            old_bounds.wf(),
            except_idxs@ == except,
            g == board@,
            min_row <= max_row <= old_bounds.max_row,
            min_col <= first <= max_col <= old_bounds.max_col,
            line_keeps(g, except, across, first, min_row as int, max_row as int),
            forall|c: int|
                max_col < c <= old_bounds.max_col ==> !#[trigger] line_keeps(
                    g,
                    except,
                    across,
                    c,
                    min_row as int,
                    max_row as int,
                ),
        decreases max_col - first,
    {
        max_col -= 1;
    }
    let bounds = Bounds { min_col, max_col, min_row, max_row };
    proof {
        assert(line_keeps(g, except, along, max_row as int, old_bounds.min_col as int, old_bounds.max_col as int));
        assert forall|r: int, c: int| #[trigger] kept(g, except, r, c) implies bounds.holds(r, c) by {
            assert(old_bounds.holds(r, c));
            assert(kept_at(g, except, along, r, c));
            assert(line_keeps(g, except, along, r, old_bounds.min_col as int, old_bounds.max_col as int));
            assert(min_row <= r <= max_row);
            assert(kept_at(g, except, across, c, r));
            assert(line_keeps(g, except, across, c, min_row as int, max_row as int));
        }
        let c1 = choose|c: int|
            old_bounds.min_col <= c <= old_bounds.max_col && #[trigger] kept_at(g, except, along, min_row as int, c);
        assert(kept(g, except, min_row as int, c1));
        let c2 = choose|c: int|
            old_bounds.min_col <= c <= old_bounds.max_col && #[trigger] kept_at(g, except, along, max_row as int, c);
        assert(kept(g, except, max_row as int, c2));
        let r1 = choose|r: int| min_row <= r <= max_row && #[trigger] kept_at(g, except, across, min_col as int, r);
        assert(kept(g, except, r1, min_col as int));
        let r2 = choose|r: int| min_row <= r <= max_row && #[trigger] kept_at(g, except, across, max_col as int, r);
        assert(kept(g, except, r2, max_col as int));
    }
    Some(bounds)
}

/// Gets the removable parts of the runs of direction `dir`, line by line,
/// each with the bounds of the board without it, and appends them to `removable`.
fn removable_along(board: &Board, dir: Direction, bounds: Bounds, removable: &mut Vec<(Vec<(usize, usize)>, Bounds)>)
    requires
        board.wf(),
        bounds.wf(),
        bounds.covers(board@),
    ensures
        parts_in(final(removable)@) == parts_in(old(removable)@) + parts_of_lines(board@, dir, BOARD_SIZE as int),
        final(removable)@.len() >= old(removable)@.len(),
        forall|k: int|
            0 <= k < old(removable)@.len() ==> final(removable)@[k] == old(removable)@[k],
        forall|k: int|
            old(removable)@.len() <= k < final(removable)@.len() ==> frames_rest(
                (#[trigger] final(removable)@[k]).1,
                board@,
                final(removable)@[k].0@.to_set(),
            ),
{
    let ghost g = board@;
    let ghost start = removable@;
    let (min_line, max_line, min_off, max_off) = bounds.along(dir);
    proof {
        assert forall|line: int, off: int| #[trigger] filled(g, dir, line, off) implies min_line <= line
            <= max_line && min_off <= off <= max_off by {
            assert(occupied(g, line_row(dir, line, off), line_col(dir, line, off)));
        }
        lemma_lines_skip(g, dir, 0, min_line as int);
        assert(parts_of_lines(g, dir, 0) =~= Seq::<Seq<(usize, usize)>>::empty());
        assert(parts_in(removable@) =~= parts_in(start) + parts_of_lines(g, dir, min_line as int));
    }
    let mut line = min_line;
    while line <= max_line
        invariant
            board.wf(),
            g == board@,
            bounds.wf(),
            bounds.covers(g),
            min_line == bounds.min_line(dir),
            max_line == bounds.max_line(dir),
            min_off == bounds.min_off(dir),
            max_off == bounds.max_off(dir),
            min_line <= line <= max_line + 1,
            forall|l: int, off: int| #[trigger]
                filled(g, dir, l, off) ==> min_line <= l <= max_line && min_off <= off <= max_off,
            parts_in(removable@) == parts_in(start) + parts_of_lines(g, dir, line as int),
            removable@.len() >= start.len(),
            forall|k: int| 0 <= k < start.len() ==> removable@[k] == start[k],
            forall|k: int|
                start.len() <= k < removable@.len() ==> frames_rest(
                    (#[trigger] removable@[k]).1,
                    g,
                    removable@[k].0@.to_set(),
                ),
        decreases max_line + 1 - line,
    {
        let ghost before_line = removable@;
        let mut current_word_part: Vec<(usize, usize)> = Vec::new();
        let mut off = min_off;
        proof {
            if min_off > 0 {
                lemma_parts_skip(g, dir, line as int, 0, min_off - 1);
            }
            assert(parts_before(g, dir, line as int, 0) =~= Seq::<Seq<(usize, usize)>>::empty());
            assert(parts_in(removable@) =~= parts_in(before_line) + parts_before(
                g,
                dir,
                line as int,
                min_off - 1,
            ));
        }
        while off <= max_off + 1
            invariant
                board.wf(),
                g == board@,
                bounds.wf(),
                bounds.covers(g),
                line < BOARD_SIZE,
                min_off == bounds.min_off(dir),
                max_off == bounds.max_off(dir),
                min_off <= off <= max_off + 2,
                forall|l: int, o: int| #[trigger]
                    filled(g, dir, l, o) ==> min_off <= o <= max_off,
                parts_in(removable@) == parts_in(before_line) + parts_before(g, dir, line as int, off - 1),
                current_word_part@ == (if filled(g, dir, line as int, off - 1) {
                    loose_cells(g, dir, line as int, run_start(g, dir, line as int, off - 1), off - 1)
                } else {
                    Seq::empty()
                }),
                removable@.len() >= before_line.len(),
                forall|k: int| 0 <= k < before_line.len() ==> removable@[k] == before_line[k],
                forall|k: int|
                    before_line.len() <= k < removable@.len() ==> frames_rest(
                        (#[trigger] removable@[k]).1,
                        g,
                        removable@[k].0@.to_set(),
                    ),
            decreases max_off + 2 - off,
        {
            let here = off <= max_off && board.is_filled(dir, line, off);
            assert(here == filled(g, dir, line as int, off as int));
            if here {
                let loose = !((line > 0 && board.is_filled(dir, line - 1, off)) || board.is_filled(
                    dir,
                    line + 1,
                    off,
                ));
                assert(loose == is_loose(g, dir, line as int, off as int));
                proof {
                    lemma_run_start_le(g, dir, line as int, off as int);
                    let from = run_start(g, dir, line as int, off as int);
                    if !filled(g, dir, line as int, off - 1) {
                        assert(from == off);
                        assert(loose_cells(g, dir, line as int, off as int, off - 1) =~= Seq::<
                            (usize, usize),
                        >::empty());
                    } else {
                        assert(from == run_start(g, dir, line as int, off - 1));
                    }
                    assert(current_word_part@ == loose_cells(g, dir, line as int, from, off - 1));
                    assert(cell_of(dir, line as int, off as int) == (match dir {
                        Direction::Horizontal => (line, off),
                        Direction::Vertical => (off, line),
                    }));
                }
                if loose {
                    let cell = match dir {
                        Direction::Horizontal => (line, off),
                        Direction::Vertical => (off, line),
                    };
                    current_word_part.push(cell);
                }
            } else if current_word_part.len() > 0 {
                let ghost closed = removable@;
                match get_new_min_max(board, bounds, &current_word_part) {
                    Some(new_min_max) => {
                        proof {
                            let r = choose|r: int| #[trigger]
                                kept(g, current_word_part@.to_set(), r, new_min_max.min_col as int);
                            assert(leaves_letters(g, current_word_part@.to_set()));
                            let entry = (current_word_part, new_min_max);
                            assert(parts_in(closed.push(entry)) =~= parts_in(closed).push(current_word_part@));
                        }
                        removable.push((current_word_part, new_min_max));
                    },
                    None => {},
                }
                current_word_part = Vec::new();
            }
            off += 1;
        }
        proof {
            lemma_parts_skip(g, dir, line as int, max_off + 1, BOARD_SIZE as int);
            assert(parts_in(removable@) =~= parts_in(start) + parts_of_lines(g, dir, line + 1));
            assert forall|k: int| start.len() <= k < removable@.len() implies frames_rest(
                (#[trigger] removable@[k]).1,
                g,
                removable@[k].0@.to_set(),
            ) by {
                if k < before_line.len() {
                    assert(removable@[k] == before_line[k]);
                }
            }
        }
        line += 1;
    }
    proof {
        lemma_lines_skip(g, dir, max_line + 1, BOARD_SIZE as int);
    }
}

/// Gets the parts of words that can be removed from the board: of each run
/// of a row, and then of each run of a column, the letters beside which no
/// letter lies, if there are any and they are not all the letters of the
/// board. With each part come the bounds of the board without it.
pub fn get_removable_indices(board: &Board, bounds: Bounds) -> (removable: Vec<(Vec<(usize, usize)>, Bounds)>)
    requires
        board.wf(),
        bounds.wf(),
        bounds.covers(board@),
    ensures
        parts_in(removable@) == removable_parts(board@),
        forall|k: int|
            0 <= k < removable@.len() ==> frames_rest(
                (#[trigger] removable@[k]).1,
                board@,
                removable@[k].0@.to_set(),
            ),
{
    let mut removable: Vec<(Vec<(usize, usize)>, Bounds)> = Vec::new();
    proof {
        assert(parts_in(removable@) =~= Seq::<Seq<(usize, usize)>>::empty());
    }
    // First the removable word parts of the rows
    removable_along(board, Direction::Horizontal, bounds, &mut removable);
    // Then those of the columns
    removable_along(board, Direction::Vertical, bounds, &mut removable);
    removable
}

} // verus!
