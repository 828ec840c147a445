//! Playing a word on the board, and taking a play back.
//!
//! A play writes the letters of a word into the cells of a line, starting at
//! a given cell. A cell that already holds the right letter is a crossing: it
//! costs no tile. Every cell that the play writes is recorded on a trail, so
//! that the play can be undone by emptying exactly those cells.

use vstd::prelude::*;
use crate::alphabet::{is_word, Letters, Word, BOARD_SIZE, EMPTY_VALUE, MAX_WORD_LENGTH};
use crate::board::{grid_index, grid_wf, in_grid, Board};
use crate::hand::{
    all_zero, hand_total, is_used_up, lemma_sum_to_update, lemma_tally_update, tally, LetterUsage,
};
use crate::line::{filled, line_col, line_index, line_row, Direction};

verus! {

/// What a play leaves behind.
pub struct Placement {
    /// The cells of the board after the play.
    pub grid: Seq<usize>,
    /// The number of each letter on the board after the play.
    pub on_board: Seq<usize>,
    /// The cells that the play wrote, as (row, column), in the order of writing.
    pub trail: Seq<(usize, usize)>,
    /// The hand after the play.
    pub remaining: Seq<usize>,
    /// Whether the word was played.
    pub placed: bool,
    /// How the hand was used.
    pub usage: LetterUsage,
}

/// The line along which a word played at (`row`, `col`) lies.
pub open spec fn line_of(dir: Direction, row: int, col: int) -> int {
    match dir {
        Direction::Horizontal => row,
        Direction::Vertical => col,
    }
}

/// The offset within its line of the first letter of a word played at (`row`, `col`).
pub open spec fn start_of(dir: Direction, row: int, col: int) -> int {
    match dir {
        Direction::Horizontal => col,
        Direction::Vertical => row,
    }
}

/// A word of `len` letters that starts at offset `start` of line `line`
/// lies on the board, with a cell to spare behind its last letter.
pub open spec fn fits(line: int, start: int, len: int) -> bool {
    0 <= line < BOARD_SIZE && 0 <= start && start + len < BOARD_SIZE
}

/// The play touches a letter that is on the board: in the cell before its
/// first letter, in the cell behind its last letter, or beside one of its cells.
pub open spec fn anchored(g: Seq<usize>, dir: Direction, line: int, start: int, len: int) -> bool {
    ||| filled(g, dir, line, start - 1)
    ||| filled(g, dir, line, start + len)
    ||| exists|i: int| 0 <= i < len && #[trigger] beside(g, dir, line, start + i)
}

/// One of the two cells beside the cell at offset `off` of line `line`,
/// in the neighbouring lines, holds a letter.
pub open spec fn beside(g: Seq<usize>, dir: Direction, line: int, off: int) -> bool {
    filled(g, dir, line - 1, off) || filled(g, dir, line + 1, off)
}

/// The play of the letters of `word` from the `i`-th on, given what the
/// letters before them have left.
pub open spec fn play_from(
    g: Seq<usize>,
    on_board: Seq<usize>,
    trail: Seq<(usize, usize)>,
    hand: Seq<usize>,
    word: Seq<usize>,
    dir: Direction,
    line: int,
    start: int,
    i: int,
) -> Placement
    decreases word.len() - i,
{
    if i >= word.len() {
        Placement {
            grid: g,
            on_board,
            trail,
            remaining: hand,
            placed: trail.len() > 0,
            usage: if trail.len() > 0 && all_zero(hand) {
                LetterUsage::Finished
            } else {
                LetterUsage::Remaining
            },
        }
    } else {
        let idx = line_index(dir, line, start + i);
        let letter = word[i];
        if g[idx] == EMPTY_VALUE {
            let g2 = g.update(idx, letter);
            let on_board2 = on_board.update(letter as int, (on_board[letter as int] + 1) as usize);
            let trail2 = trail.push(
                (line_row(dir, line, start + i) as usize, line_col(dir, line, start + i) as usize),
            );
            if hand[letter as int] == 0 {
                Placement {
                    grid: g2,
                    on_board: on_board2,
                    trail: trail2,
                    remaining: hand,
                    placed: false,
                    usage: LetterUsage::Overused,
                }
            } else {
                play_from(
                    g2,
                    on_board2,
                    trail2,
                    hand.update(letter as int, (hand[letter as int] - 1) as usize),
                    word,
                    dir,
                    line,
                    start,
                    i + 1,
                )
            }
        } else if g[idx] != letter {
            Placement {
                grid: g,
                on_board,
                trail,
                remaining: hand,
                placed: false,
                usage: LetterUsage::Remaining,
            }
        } else {
            play_from(g, on_board, trail, hand, word, dir, line, start, i + 1)
        }
    }
}

/// What playing `word` at (`row`, `col`) in direction `dir` leaves behind.
///
/// A word that does not fit on the board, or that touches no letter on it, is
/// not played and changes nothing. Otherwise its letters are laid one by one:
/// into an empty cell goes a tile from the hand; a cell with the same letter is
/// crossed; a cell with another letter, or a letter that the hand has run out
/// of, ends the play without success. A word that crossed letters only is not
/// played either.
pub open spec fn play_word_spec(
    g: Seq<usize>,
    on_board: Seq<usize>,
    word: Seq<usize>,
    row: int,
    col: int,
    dir: Direction,
    hand: Seq<usize>,
) -> Placement {
    let line = line_of(dir, row, col);
    let start = start_of(dir, row, col);
    if fits(line, start, word.len() as int) && anchored(g, dir, line, start, word.len() as int) {
        play_from(g, on_board, Seq::empty(), hand, word, dir, line, start, 0)
    } else {
        Placement {
            grid: g,
            on_board,
            trail: Seq::empty(),
            remaining: hand,
            placed: false,
            usage: LetterUsage::Remaining,
        }
    }
}

/// The board and the letters on it after the cell `cell` has been emptied.
pub open spec fn undo_step(g: Seq<usize>, on_board: Seq<usize>, cell: (usize, usize)) -> (
    Seq<usize>,
    Seq<usize>,
) {
    let idx = grid_index(cell.0 as int, cell.1 as int);
    let letter = g[idx];
    (g.update(idx, EMPTY_VALUE), on_board.update(letter as int, (on_board[letter as int] - 1) as usize))
}

/// The cell `cell` holds a letter that is counted among the letters on the board.
pub open spec fn undo_step_safe(g: Seq<usize>, on_board: Seq<usize>, cell: (usize, usize)) -> bool {
    let idx = grid_index(cell.0 as int, cell.1 as int);
    in_grid(cell.0 as int, cell.1 as int) && g[idx] < 26 && on_board[g[idx] as int] > 0
}

/// The board and the letters on it after the cells of the trail have been
/// emptied, last cell first, until `keep` cells of the trail are left.
pub open spec fn undo_to(g: Seq<usize>, on_board: Seq<usize>, trail: Seq<(usize, usize)>, keep: int) -> (
    Seq<usize>,
    Seq<usize>,
)
    decreases trail.len(),
{
    if trail.len() <= keep || trail.len() == 0 {
        (g, on_board)
    } else {
        let next = undo_step(g, on_board, trail.last());
        undo_to(next.0, next.1, trail.drop_last(), keep)
    }
}

/// Each cell of the trail behind the first `keep`, when its turn comes, holds
/// a letter that is counted among the letters on the board.
pub open spec fn undo_safe_to(
    g: Seq<usize>,
    on_board: Seq<usize>,
    trail: Seq<(usize, usize)>,
    keep: int,
) -> bool
    decreases trail.len(),
{
    if trail.len() <= keep || trail.len() == 0 {
        true
    } else {
        let next = undo_step(g, on_board, trail.last());
        undo_step_safe(g, on_board, trail.last()) && undo_safe_to(
            next.0,
            next.1,
            trail.drop_last(),
            keep,
        )
    }
}

/// The board and the letters on it after every cell of the trail has been emptied.
pub open spec fn undo_spec(g: Seq<usize>, on_board: Seq<usize>, trail: Seq<(usize, usize)>) -> (
    Seq<usize>,
    Seq<usize>,
) {
    undo_to(g, on_board, trail, 0)
}

/// The trail can be undone on this board: each of its cells holds a letter
/// that is counted among the letters on the board.
pub open spec fn undo_safe(g: Seq<usize>, on_board: Seq<usize>, trail: Seq<(usize, usize)>) -> bool {
    undo_safe_to(g, on_board, trail, 0)
}

/// The state in which a play goes on from the `i`-th letter of `word`.
pub open spec fn play_state_ok(
    g: Seq<usize>,
    on_board: Seq<usize>,
    hand: Seq<usize>,
    word: Seq<usize>,
    line: int,
    start: int,
    i: int,
) -> bool {
    &&& grid_wf(g)
    &&& on_board.len() == 26
    &&& hand.len() == 26
    &&& is_word(word)
    &&& fits(line, start, word.len() as int)
    &&& 0 <= i <= word.len()
    &&& forall|l: int| 0 <= l < 26 ==> on_board[l] + word.len() - i <= usize::MAX
}

/// Emptying the cells of a trail down to `keep` is emptying them down to
/// `keep + 1` and then emptying the cell at `keep`.
pub proof fn lemma_undo_peel(g: Seq<usize>, on_board: Seq<usize>, trail: Seq<(usize, usize)>, keep: int)
    requires
        0 <= keep < trail.len(),
    ensures
        ({
            let mid = undo_to(g, on_board, trail, keep + 1);
            &&& undo_to(g, on_board, trail, keep) == undo_step(mid.0, mid.1, trail[keep])
            &&& undo_safe_to(g, on_board, trail, keep) == (undo_safe_to(g, on_board, trail, keep + 1)
                && undo_step_safe(mid.0, mid.1, trail[keep]))
        }),
    decreases trail.len(),
{
    let next = undo_step(g, on_board, trail.last());
    let rest = trail.drop_last();
    assert(undo_to(g, on_board, trail, keep) == undo_to(next.0, next.1, rest, keep));
    assert(undo_safe_to(g, on_board, trail, keep) == (undo_step_safe(g, on_board, trail.last())
        && undo_safe_to(next.0, next.1, rest, keep)));
    if trail.len() == keep + 1 {
        assert(undo_to(next.0, next.1, rest, keep) == next);
        assert(undo_safe_to(next.0, next.1, rest, keep));
        assert(undo_to(g, on_board, trail, keep + 1) == (g, on_board));
        assert(undo_safe_to(g, on_board, trail, keep + 1));
    } else {
        lemma_undo_peel(next.0, next.1, rest, keep);
        assert(rest[keep] == trail[keep]);
        assert(undo_to(g, on_board, trail, keep + 1) == undo_to(next.0, next.1, rest, keep + 1));
        assert(undo_safe_to(g, on_board, trail, keep + 1) == (undo_step_safe(
            g,
            on_board,
            trail.last(),
        ) && undo_safe_to(next.0, next.1, rest, keep + 1)));
    }
}

/// Undoing the trail of a play, down to the cells that were on the trail
/// when the play went on from its `i`-th letter, restores the state it went on from.
pub proof fn lemma_play_from_undo(
    g: Seq<usize>,
    on_board: Seq<usize>,
    trail: Seq<(usize, usize)>,
    hand: Seq<usize>,
    word: Seq<usize>,
    dir: Direction,
    line: int,
    start: int,
    i: int,
)
    requires
        play_state_ok(g, on_board, hand, word, line, start, i),
    ensures
        ({
            let p = play_from(g, on_board, trail, hand, word, dir, line, start, i);
            &&& trail.len() <= p.trail.len()
            &&& p.trail.take(trail.len() as int) == trail
            &&& undo_safe_to(p.grid, p.on_board, p.trail, trail.len() as int)
            &&& undo_to(p.grid, p.on_board, p.trail, trail.len() as int) == (g, on_board)
        }),
    decreases word.len() - i,
{
    let p = play_from(g, on_board, trail, hand, word, dir, line, start, i);
    let keep = trail.len() as int;
    if i >= word.len() {
        assert(p.trail.take(keep) =~= trail);
    } else {
        let idx = line_index(dir, line, start + i);
        let letter = word[i];
        let cell = (line_row(dir, line, start + i) as usize, line_col(dir, line, start + i) as usize);
        assert(grid_index(cell.0 as int, cell.1 as int) == idx);
        if g[idx] == EMPTY_VALUE {
            let g2 = g.update(idx, letter);
            let on_board2 = on_board.update(letter as int, (on_board[letter as int] + 1) as usize);
            let trail2 = trail.push(cell);
            assert(g2.update(idx, EMPTY_VALUE) =~= g);
            assert(on_board2.update(letter as int, (on_board2[letter as int] - 1) as usize)
                =~= on_board);
            assert(undo_step(g2, on_board2, cell) == (g, on_board));
            assert(undo_step_safe(g2, on_board2, cell));
            assert(trail2.take(keep) =~= trail);
            if hand[letter as int] == 0 {
                assert(p.trail == trail2);
                assert(trail2.drop_last() =~= trail);
                assert(trail2.last() == cell);
                assert(undo_to(g, on_board, trail, keep) == (g, on_board));
                assert(undo_safe_to(g, on_board, trail, keep));
                assert(undo_to(g2, on_board2, trail2, keep) == undo_to(g, on_board, trail, keep));
                assert(undo_safe_to(g2, on_board2, trail2, keep));
            } else {
                let hand2 = hand.update(letter as int, (hand[letter as int] - 1) as usize);
                lemma_play_from_undo(g2, on_board2, trail2, hand2, word, dir, line, start, i + 1);
                assert(p == play_from(g2, on_board2, trail2, hand2, word, dir, line, start, i + 1));
                assert(p.trail.take(keep + 1) == trail2);
                assert(p.trail[keep] == p.trail.take(keep + 1)[keep]);
                assert(p.trail.take(keep) =~= p.trail.take(keep + 1).take(keep));
                lemma_undo_peel(p.grid, p.on_board, p.trail, keep);
            }
        } else if g[idx] != letter {
            assert(p.trail.take(keep) =~= trail);
        } else {
            lemma_play_from_undo(g, on_board, trail, hand, word, dir, line, start, i + 1);
        }
    }
}

/// A play followed by the undoing of its trail leaves the board and the
/// letters on it exactly as they were, whether the word was played or not.
pub proof fn lemma_play_then_undo(
    g: Seq<usize>,
    on_board: Seq<usize>,
    word: Seq<usize>,
    row: int,
    col: int,
    dir: Direction,
    hand: Seq<usize>,
)
    requires
        grid_wf(g),
        on_board.len() == 26,
        hand.len() == 26,
        is_word(word),
        forall|l: int| 0 <= l < 26 ==> on_board[l] + BOARD_SIZE <= usize::MAX,
    ensures
        ({
            let p = play_word_spec(g, on_board, word, row, col, dir, hand);
            &&& undo_safe(p.grid, p.on_board, p.trail)
            &&& undo_spec(p.grid, p.on_board, p.trail) == (g, on_board)
        }),
{
    let line = line_of(dir, row, col);
    let start = start_of(dir, row, col);
    if fits(line, start, word.len() as int) && anchored(g, dir, line, start, word.len() as int) {
        lemma_play_from_undo(g, on_board, Seq::empty(), hand, word, dir, line, start, 0);
    }
}

/// What a play does to the board, to the hand and to the count of letters.
///
/// Cells off the word's line keep their value; a cell of the word either
/// keeps its value or was empty and now holds the word's letter. The letters
/// that came onto the board are those that were counted onto it. Where the
/// word was played, each of its cells holds its letter, the letters that came
/// onto the board are those that left the hand, and at least one did.
pub proof fn lemma_play_from_props(
    g: Seq<usize>,
    on_board: Seq<usize>,
    trail: Seq<(usize, usize)>,
    hand: Seq<usize>,
    word: Seq<usize>,
    dir: Direction,
    line: int,
    start: int,
    i: int,
)
    requires
        play_state_ok(g, on_board, hand, word, line, start, i),
    ensures
        ({
            let p = play_from(g, on_board, trail, hand, word, dir, line, start, i);
            &&& grid_wf(p.grid)
            &&& p.on_board.len() == 26
            &&& p.remaining.len() == 26
            &&& trail.len() <= p.trail.len()
            &&& forall|l2: int, o2: int|
                in_grid(l2, o2) && !(l2 == line && start + i <= o2 < start + word.len())
                    ==> #[trigger] p.grid[line_index(dir, l2, o2)] == g[line_index(dir, l2, o2)]
            &&& forall|j: int|
                i <= j < word.len() ==> {
                    let idx = #[trigger] line_index(dir, line, start + j);
                    p.grid[idx] == g[idx] || (g[idx] == EMPTY_VALUE && p.grid[idx] == word[j])
                }
            &&& p.placed ==> forall|j: int|
                i <= j < word.len() ==> p.grid[#[trigger] line_index(dir, line, start + j)] == word[j]
            &&& forall|l: usize|
                l < 26 ==> p.on_board[l as int] + tally(g, l) == on_board[l as int] + #[trigger] tally(
                    p.grid,
                    l,
                )
            &&& p.placed ==> forall|l: usize|
                l < 26 ==> hand[l as int] + tally(g, l) == p.remaining[l as int] + #[trigger] tally(
                    p.grid,
                    l,
                )
            &&& p.placed ==> hand_total(p.remaining) + p.trail.len() == hand_total(hand) + trail.len()
            &&& p.placed ==> p.trail.len() > 0 && p.usage != LetterUsage::Overused && (p.usage
                == LetterUsage::Finished <==> all_zero(p.remaining))
            &&& !p.placed ==> p.usage != LetterUsage::Finished
        }),
    decreases word.len() - i,
{
    let p = play_from(g, on_board, trail, hand, word, dir, line, start, i);
    if i >= word.len() {
    } else {
        let idx = line_index(dir, line, start + i);
        let letter = word[i];
        if g[idx] == EMPTY_VALUE {
            let g2 = g.update(idx, letter);
            let on_board2 = on_board.update(letter as int, (on_board[letter as int] + 1) as usize);
            let cell = (line_row(dir, line, start + i) as usize, line_col(dir, line, start + i) as usize);
            let trail2 = trail.push(cell);
            assert forall|l: usize| l < 26 implies tally(g2, l) == tally(g, l) + (if l == letter {
                1nat
            } else {
                0nat
            }) by {
                lemma_tally_update(g, idx, letter, l);
            }
            assert forall|l2: int, o2: int|
                in_grid(l2, o2) && !(l2 == line && o2 == start + i) implies #[trigger] g2[line_index(
                dir,
                l2,
                o2,
            )] == g[line_index(dir, l2, o2)] by {
                assert(line_index(dir, l2, o2) != idx);
            }
            if hand[letter as int] == 0 {
                assert forall|j: int| i <= j < word.len() implies {
                    let idx = #[trigger] line_index(dir, line, start + j);
                    p.grid[idx] == g[idx] || (g[idx] == EMPTY_VALUE && p.grid[idx] == word[j])
                } by {
                    if j != i {
                        assert(in_grid(line, start + j));
                    }
                }
            } else {
                let hand2 = hand.update(letter as int, (hand[letter as int] - 1) as usize);
                lemma_play_from_props(g2, on_board2, trail2, hand2, word, dir, line, start, i + 1);
                lemma_sum_to_update(hand, letter as int, (hand[letter as int] - 1) as usize, 26);
                assert forall|j: int| i <= j < word.len() implies {
                    let idx = #[trigger] line_index(dir, line, start + j);
                    p.grid[idx] == g[idx] || (g[idx] == EMPTY_VALUE && p.grid[idx] == word[j])
                } by {
                    if j != i {
                        assert(in_grid(line, start + j));
                    } else {
                        assert(in_grid(line, start + i));
                        assert(p.grid[line_index(dir, line, start + i)] == g2[line_index(
                            dir,
                            line,
                            start + i,
                        )]);
                    }
                }
                if p.placed {
                    assert forall|j: int| i <= j < word.len() implies p.grid[#[trigger] line_index(
                        dir,
                        line,
                        start + j,
                    )] == word[j] by {
                        if j == i {
                            assert(in_grid(line, start + i));
                            assert(p.grid[line_index(dir, line, start + i)] == g2[line_index(
                                dir,
                                line,
                                start + i,
                            )]);
                        }
                    }
                }
            }
        } else if g[idx] != letter {
        } else {
            lemma_play_from_props(g, on_board, trail, hand, word, dir, line, start, i + 1);
            if p.placed {
                assert forall|j: int| i <= j < word.len() implies p.grid[#[trigger] line_index(
                    dir,
                    line,
                    start + j,
                )] == word[j] by {
                    if j == i {
                        assert(in_grid(line, start + i));
                        assert(p.grid[line_index(dir, line, start + i)] == g[line_index(
                            dir,
                            line,
                            start + i,
                        )]);
                    }
                }
            }
            assert forall|j: int| i <= j < word.len() implies {
                let idx = #[trigger] line_index(dir, line, start + j);
                p.grid[idx] == g[idx] || (g[idx] == EMPTY_VALUE && p.grid[idx] == word[j])
            } by {
                if j == i {
                    assert(in_grid(line, start + i));
                    assert(p.grid[line_index(dir, line, start + i)] == g[line_index(
                        dir,
                        line,
                        start + i,
                    )]);
                }
            }
        }
    }
}

impl Board {
    /// Plays a word on the board, starting at (`row_idx`, `col_idx`) and going
    /// in `direction`, with the tiles of `letters`. `letters_on_board` counts
    /// the letters on the board and is kept up to date.
    ///
    /// Returns whether the word was played, the cells that were written, the
    /// remaining letters, and how the letters were used. The cells are written
    /// even where the play fails half-way: `undo_play` takes them back.
    pub fn play_word(
        &mut self,
        word: &Word,
        row_idx: usize,
        col_idx: usize,
        direction: Direction,
        letters: &Letters,
        letters_on_board: &mut Letters,
    ) -> (res: (bool, Vec<(usize, usize)>, Letters, LetterUsage))
        requires
            old(self).wf(),
            is_word(word@),
            forall|l: int| 0 <= l < 26 ==> old(letters_on_board)@[l] + BOARD_SIZE <= usize::MAX,
        ensures
            final(self).wf(),
            ({
                let p = play_word_spec(
                    old(self)@,
                    old(letters_on_board)@,
                    word@,
                    row_idx as int,
                    col_idx as int,
                    direction,
                    letters@,
                );
                &&& final(self)@ == p.grid
                &&& final(letters_on_board)@ == p.on_board
                &&& res.0 == p.placed
                &&& res.1@ == p.trail
                &&& res.2@ == p.remaining
                &&& res.3 == p.usage
            }),
    {
        let mut played_indices: Vec<(usize, usize)> = Vec::with_capacity(MAX_WORD_LENGTH);
        let mut remaining_letters: Letters = *letters;
        let (line, start) = match direction {
            Direction::Horizontal => (row_idx, col_idx),
            Direction::Vertical => (col_idx, row_idx),
        };
        let len = word.len();
        if line >= BOARD_SIZE || start >= BOARD_SIZE || len >= BOARD_SIZE - start {
            return (false, played_indices, remaining_letters, LetterUsage::Remaining);
        }
        // Check if the word will start or end at a letter
        let mut valid_loc = (start != 0 && self.is_filled(direction, line, start - 1))
            || self.is_filled(direction, line, start + len);
        // Check if the word will border any letters in the lines beside it
        let mut j: usize = 0;
        while j < len
            invariant
                j <= len,
                self.wf(),
                fits(line as int, start as int, len as int),
                valid_loc == (filled(self@, direction, line as int, start - 1) || filled(
                    self@,
                    direction,
                    line as int,
                    start + len,
                ) || exists|i: int| 0 <= i < j && #[trigger] beside(self@, direction, line as int, start + i)),
            decreases len - j,
        {
            if (line > 0 && self.is_filled(direction, line - 1, start + j)) || self.is_filled(
                direction,
                line + 1,
                start + j,
            ) {
                assert(beside(self@, direction, line as int, start + j));
                valid_loc = true;
            }
            j += 1;
        }
        if !valid_loc {
            return (false, played_indices, remaining_letters, LetterUsage::Remaining);
        }
        let ghost target = play_from(
            self@,
            letters_on_board@,
            Seq::empty(),
            letters@,
            word@,
            direction,
            line as int,
            start as int,
            0,
        );
        let mut i: usize = 0;
        while i < len
            invariant
                i <= len,
                len == word.len(),
                self.wf(),
                is_word(word@),
                fits(line as int, start as int, len as int),
                forall|l: int| 0 <= l < 26 ==> letters_on_board@[l] + BOARD_SIZE - i <= usize::MAX,
                target == play_word_spec(
                    old(self)@,
                    old(letters_on_board)@,
                    word@,
                    row_idx as int,
                    col_idx as int,
                    direction,
                    letters@,
                ),
                play_from(
                    self@,
                    letters_on_board@,
                    played_indices@,
                    remaining_letters@,
                    word@,
                    direction,
                    line as int,
                    start as int,
                    i as int,
                ) == target,
            decreases len - i,
        {
            let letter = word[i];
            let here = self.get_at(direction, line, start + i);
            if here == EMPTY_VALUE {
                self.set_at(direction, line, start + i, letter);
                letters_on_board[letter] += 1;
                let cell = match direction {
                    Direction::Horizontal => (line, start + i),
                    Direction::Vertical => (start + i, line),
                };
                played_indices.push(cell);
                if remaining_letters[letter] == 0 {
                    return (false, played_indices, remaining_letters, LetterUsage::Overused);
                }
                remaining_letters[letter] -= 1;
            } else if here != letter {
                return (false, played_indices, remaining_letters, LetterUsage::Remaining);
            }
            i += 1;
        }
        let entirely_overlaps = played_indices.len() == 0;
        if !entirely_overlaps && is_used_up(&remaining_letters) {
            (true, played_indices, remaining_letters, LetterUsage::Finished)
        } else {
            (!entirely_overlaps, played_indices, remaining_letters, LetterUsage::Remaining)
        }
    }

    /// Undoes a play: empties the cells of `played_indices` and takes their
    /// letters off `letters_on_board`.
    pub fn undo_play(&mut self, played_indices: &Vec<(usize, usize)>, letters_on_board: &mut Letters)
        requires
            old(self).wf(),
            undo_safe(old(self)@, old(letters_on_board)@, played_indices@),
        ensures
            final(self).wf(),
            (final(self)@, final(letters_on_board)@) == undo_spec(
                old(self)@,
                old(letters_on_board)@,
                played_indices@,
            ),
    {
        let mut i: usize = played_indices.len();
        assert(played_indices@.take(i as int) =~= played_indices@);
        while i > 0
            invariant
                i <= played_indices.len(),
                self.wf(),
                undo_safe_to(self@, letters_on_board@, played_indices@.take(i as int), 0),
                undo_to(self@, letters_on_board@, played_indices@.take(i as int), 0) == undo_spec(
                    old(self)@,
                    old(letters_on_board)@,
                    played_indices@,
                ),
            decreases i,
        {
            proof {
                assert(played_indices@.take(i as int).last() == played_indices@[i - 1]);
                assert(played_indices@.take(i as int).drop_last() =~= played_indices@.take(i - 1));
            }
            i -= 1;
            let index = played_indices[i];
            let letter = self.get_val(index.0, index.1);
            letters_on_board[letter] -= 1;
            self.set_val(index.0, index.1, EMPTY_VALUE);
        }
    }
}

} // verus!
