//! The search: recursive backtracking over the words that can still be played.
//!
//! At each node the search tries every word of its list at every place near
//! the letters of the board, first along one direction and then along the
//! other. A play that forms only words either finishes the hand or leads to a
//! deeper node with a smaller hand and a shorter list. A play that leads
//! nowhere is taken back, so that a node without a solution leaves the board
//! as it found it.

use vstd::prelude::*;
use std::sync::atomic::AtomicBool;
use crate::alphabet::{is_word, Letters, Word, BOARD_SIZE};
use crate::board::{grid_index, grid_wf, in_grid, occupied, Board};
use crate::bounds::{lemma_widen_frames, Bounds};
use crate::connectivity::{connected, lemma_play_keeps_connected};
use crate::filters::{check_filter_after_play_later, passes_later};
use crate::hand::{all_zero, hand_total, lemma_tally_le_len, tally, LetterUsage};
use crate::line::{filled, line_col, line_index, line_row, Direction};
use crate::placement::{
    anchored, beside, fits, lemma_play_from_props, lemma_play_then_undo, line_of, play_word_spec, start_of,
};
use crate::runs::{
    board_valid, differs_on_play, is_run, lemma_play_keeps_valid, lines_valid, play_is_valid, read_line, run_ok,
};
use crate::stop::should_stop;
use crate::validator::is_play_valid;
use crate::wordset::WordSet;

verus! {

/// How a search ended.
#[derive(Clone, Copy, PartialEq, Eq, Structural, Debug)]
pub enum SearchOutcome {
    /// Every tile of the hand lies on the board; with it come the bounds of the board.
    Solved(Bounds),
    /// No play from this node leads to a solution.
    NotFoundAtThisNode,
    /// The search was stopped: by the stop flag, or because too many words were checked.
    Aborted,
}

/// `on_board` counts the letters of the board.
pub open spec fn tallied(g: Seq<usize>, on_board: Seq<usize>) -> bool {
    &&& on_board.len() == 26
    &&& forall|l: usize| l < 26 ==> on_board[l as int] == #[trigger] tally(g, l)
}

/// Every word of the list consists of letters.
pub open spec fn words_ok(words: Seq<&Word>) -> bool {
    forall|i: int| 0 <= i < words.len() ==> is_word((#[trigger] words[i])@)
}

/// The board is one that a search can start from: it holds at least one
/// letter, its letters hang together, and they are framed by the bounds and
/// counted by `on_board`.
pub open spec fn search_ready(g: Seq<usize>, on_board: Seq<usize>, bounds: Bounds) -> bool {
    &&& grid_wf(g)
    &&& connected(g)
    &&& bounds.frames(g)
    &&& tallied(g, on_board)
}

/// Whatever set of words holds the words of `dict`: if the board `g` is
/// valid with respect to it, so is the board `g2`.
pub open spec fn keeps_valid(dict: Set<Seq<usize>>, g: Seq<usize>, g2: Seq<usize>) -> bool {
    forall|all: Set<Seq<usize>>|
        dict.subset_of(all) && #[trigger] board_valid(g, all) ==> board_valid(g2, all)
}

/// Every letter of `g` is in `g2`, in its cell.
pub open spec fn extends(g: Seq<usize>, g2: Seq<usize>) -> bool {
    forall|r: int, c: int| #[trigger] occupied(g, r, c) ==> g2[grid_index(r, c)] == g[grid_index(r, c)]
}

/// The board `g2` solves the hand `hand` from the board `g`: it holds the
/// letters of `g` and, besides them, exactly the tiles of the hand; its
/// letters hang together; and each of its runs of two or more letters is a
/// word of `dict` or a run of `g`, so that it is valid if `g` was.
pub open spec fn solves(
    g: Seq<usize>,
    g2: Seq<usize>,
    on_board2: Seq<usize>,
    dict: Set<Seq<usize>>,
    hand: Seq<usize>,
    bounds2: Bounds,
) -> bool {
    &&& search_ready(g2, on_board2, bounds2)
    &&& extends(g, g2)
    &&& keeps_valid(dict, g, g2)
    &&& forall|l: usize| l < 26 ==> #[trigger] tally(g2, l) == tally(g, l) + hand[l as int]
}

/// Runs that may stand on the board with respect to a set of words may
/// stand on it with respect to a larger one.
pub proof fn lemma_play_is_valid_grows(
    g: Seq<usize>,
    dict: Set<Seq<usize>>,
    all: Set<Seq<usize>>,
    dir: Direction,
    line: int,
    start: int,
    end: int,
)
    requires
        dict.subset_of(all),
        play_is_valid(g, dict, dir, line, start, end),
    ensures
        play_is_valid(g, all, dir, line, start, end),
{
    assert forall|off: int| start <= off <= end implies #[trigger] run_ok(g, all, dir.flip(), off, line) by {
        assert(run_ok(g, dict, dir.flip(), off, line));
    }
}

/// A board that is valid with respect to a set of words is valid with
/// respect to a larger one.
pub proof fn lemma_board_valid_grows(g: Seq<usize>, dict: Set<Seq<usize>>, all: Set<Seq<usize>>)
    requires
        dict.subset_of(all),
        board_valid(g, dict),
    ensures
        board_valid(g, all),
{
    assert forall|dir: Direction, line: int, from: int, to: int| #[trigger]
        is_run(g, dir, line, from, to) && from < to implies all.contains(
        read_line(g, dir, line, from, to),
    ) by {
        assert(lines_valid(g, dict, dir));
        assert(dict.contains(read_line(g, dir, line, from, to)));
    }
}

/// The words of the list that pass the later filter, in their order.
pub open spec fn filtered_later(
    words: Seq<&Word>,
    hand: Seq<usize>,
    on_board: Seq<usize>,
    limit: usize,
) -> Seq<&Word> {
    words.filter(|w: &Word| passes_later(hand, on_board, w@, limit))
}

/// A play on a board that a search can start from, if the word was played
/// and the runs of the play may stand, gives a board that a search can start
/// from. The letters that came onto the board are those that left the hand,
/// and at least one did.
pub proof fn lemma_play_step(
    g: Seq<usize>,
    on_board: Seq<usize>,
    dict: Set<Seq<usize>>,
    bounds: Bounds,
    word: Seq<usize>,
    row: usize,
    col: usize,
    dir: Direction,
    hand: Seq<usize>,
)
    requires
        search_ready(g, on_board, bounds),
        is_word(word),
        hand.len() == 26,
        play_word_spec(g, on_board, word, row as int, col as int, dir, hand).placed,
        play_is_valid(
            play_word_spec(g, on_board, word, row as int, col as int, dir, hand).grid,
            dict,
            dir,
            line_of(dir, row as int, col as int),
            start_of(dir, row as int, col as int),
            start_of(dir, row as int, col as int) + word.len() - 1,
        ),
    ensures
        ({
            let p = play_word_spec(g, on_board, word, row as int, col as int, dir, hand);
            let line = line_of(dir, row as int, col as int) as usize;
            let start = start_of(dir, row as int, col as int) as usize;
            let end = (start + word.len() - 1) as usize;
            &&& word.len() > 0
            &&& fits(line as int, start as int, word.len() as int)
            &&& search_ready(p.grid, p.on_board, bounds.widen(dir, line, start, end))
            &&& extends(g, p.grid)
            &&& keeps_valid(dict, g, p.grid)
            &&& p.remaining.len() == 26
            &&& forall|l: usize|
                l < 26 ==> #[trigger] tally(p.grid, l) + p.remaining[l as int] == tally(g, l)
                    + hand[l as int]
            &&& hand_total(p.remaining) < hand_total(hand)
            &&& p.usage != LetterUsage::Overused
            &&& p.usage == LetterUsage::Finished <==> all_zero(p.remaining)
        }),
{
    let p = play_word_spec(g, on_board, word, row as int, col as int, dir, hand);
    let line = line_of(dir, row as int, col as int);
    let start = start_of(dir, row as int, col as int);
    let len = word.len() as int;
    let end = start + len - 1;
    assert(fits(line, start, len) && anchored(g, dir, line, start, len));
    assert forall|l: int| 0 <= l < 26 implies on_board[l] + word.len() <= usize::MAX by {
        lemma_tally_le_len(g, l as usize);
    }
    lemma_play_from_props(g, on_board, Seq::empty(), hand, word, dir, line, start, 0);
    assert(len > 0);
    assert forall|off: int| start <= off <= end implies #[trigger] filled(p.grid, dir, line, off) by {
        let j = off - start;
        assert(p.grid[line_index(dir, line, start + j)] == word[j]);
    }
    assert(differs_on_play(g, p.grid, dir, line, start, end));
    assert forall|all: Set<Seq<usize>>|
        dict.subset_of(all) && #[trigger] board_valid(g, all) implies board_valid(p.grid, all) by {
        lemma_play_is_valid_grows(p.grid, dict, all, dir, line, start, end);
        lemma_play_keeps_valid(g, p.grid, all, dir, line, start, end);
    }
    lemma_play_keeps_connected(g, p.grid, dir, line, start, end);
    assert forall|l2: int, o2: int| in_grid(l2, o2) && filled(g, dir, l2, o2) implies p.grid[line_index(
        dir,
        l2,
        o2,
    )] == g[line_index(dir, l2, o2)] by {
        if l2 == line && start <= o2 <= end {
            let j = o2 - start;
            assert(line_index(dir, line, start + j) == line_index(dir, l2, o2));
        }
    }
    assert forall|r: int, c: int| #[trigger] occupied(g, r, c) implies p.grid[grid_index(r, c)]
        == g[grid_index(r, c)] by {
        let (l2, o2) = match dir {
            Direction::Horizontal => (r, c),
            Direction::Vertical => (c, r),
        };
        assert(filled(g, dir, l2, o2));
        assert(line_index(dir, l2, o2) == grid_index(r, c));
    }
    assert forall|r: int, c: int| occupied(g, r, c) implies occupied(p.grid, r, c) by {}
    assert forall|l2: int, o2: int| #[trigger] filled(p.grid, dir, l2, o2) implies filled(g, dir, l2, o2)
        || (l2 == line && start <= o2 <= end) by {
        if !(l2 == line && start <= o2 <= end) {
            assert(p.grid[line_index(dir, l2, o2)] == g[line_index(dir, l2, o2)]);
        }
    }
    lemma_widen_frames(bounds, g, p.grid, dir, line as usize, start as usize, end as usize);
}

/// Some cell at offset `off`, in line `line` or in one of the two lines
/// beside it, holds a letter.
pub open spec fn near(g: Seq<usize>, dir: Direction, line: int, off: int) -> bool {
    filled(g, dir, line - 1, off) || filled(g, dir, line, off) || filled(g, dir, line + 1, off)
}

/// No offset from `from` up to, but not including, `to` is near a letter.
pub open spec fn none_near(g: Seq<usize>, dir: Direction, line: int, from: int, to: int) -> bool {
    forall|off: int| from <= off < to ==> !#[trigger] near(g, dir, line, off)
}

/// Tells whether some cell at offset `off`, in line `line` or in one of the
/// two lines beside it, holds a letter.
pub fn is_near(board: &Board, dir: Direction, line: usize, off: usize) -> (res: bool)
    requires
        board.wf(),
    ensures
        res == near(board@, dir, line as int, off as int),
{
    (line > 0 && board.is_filled(dir, line - 1, off)) || board.is_filled(dir, line, off) || (line
        < BOARD_SIZE && board.is_filled(dir, line + 1, off))
}

/// Gets the least and the greatest offset, from `min_off` to `max_off`, at
/// which line `line` or a line beside it holds a letter. Where there is no
/// such offset, the result is (`max_off`, `min_off`).
pub fn get_line_limits(board: &Board, dir: Direction, line: usize, min_off: usize, max_off: usize) -> (res: (
    usize,
    usize,
))
    requires
        board.wf(),
        line < BOARD_SIZE,
        min_off <= max_off < BOARD_SIZE,
    ensures
        min_off <= res.0 <= max_off,
        min_off <= res.1 <= max_off,
        none_near(board@, dir, line as int, min_off as int, max_off + 1) ==> res == (max_off, min_off),
        !none_near(board@, dir, line as int, min_off as int, max_off + 1) ==> {
            &&& res.0 <= res.1
            &&& near(board@, dir, line as int, res.0 as int)
            &&& near(board@, dir, line as int, res.1 as int)
            &&& none_near(board@, dir, line as int, min_off as int, res.0 as int)
            &&& none_near(board@, dir, line as int, res.1 + 1, max_off + 1)
        },
        are_limits(board@, dir, line as int, min_off as int, max_off as int, res.0 as int, res.1 as int),
{
    let mut lowest = min_off;
    while lowest <= max_off && !is_near(board, dir, line, lowest)
        invariant
            board.wf(),
            min_off <= lowest <= max_off + 1,
            max_off < BOARD_SIZE,
            none_near(board@, dir, line as int, min_off as int, lowest as int),
        decreases max_off + 1 - lowest,
    {
        lowest += 1;
    }
    if lowest > max_off {
        return (max_off, min_off);
    }
    let mut highest = max_off;
    while highest > lowest && !is_near(board, dir, line, highest)
        invariant
            board.wf(),
            lowest <= highest <= max_off,
            none_near(board@, dir, line as int, highest + 1, max_off + 1),
        decreases highest,
    {
        highest -= 1;
    }
    assert(!none_near(board@, dir, line as int, min_off as int, max_off + 1)) by {
        assert(near(board@, dir, line as int, lowest as int));
    }
    (lowest, highest)
}

/// Gets the minimum and maximum columns, from `min_col` to `max_col`, at
/// which row `row` or a row beside it holds a letter.
pub fn get_col_limits(board: &Board, row: usize, min_col: usize, max_col: usize) -> (res: (usize, usize))
    requires
        board.wf(),
        row < BOARD_SIZE,
        min_col <= max_col < BOARD_SIZE,
    ensures
        min_col <= res.0 <= max_col,
        min_col <= res.1 <= max_col,
        none_near(board@, Direction::Horizontal, row as int, min_col as int, max_col + 1) ==> res == (
            max_col,
            min_col,
        ),
        !none_near(board@, Direction::Horizontal, row as int, min_col as int, max_col + 1) ==> {
            &&& res.0 <= res.1
            &&& near(board@, Direction::Horizontal, row as int, res.0 as int)
            &&& near(board@, Direction::Horizontal, row as int, res.1 as int)
            &&& none_near(board@, Direction::Horizontal, row as int, min_col as int, res.0 as int)
            &&& none_near(board@, Direction::Horizontal, row as int, res.1 + 1, max_col + 1)
        },
{
    get_line_limits(board, Direction::Horizontal, row, min_col, max_col)
}

/// Gets the minimum and maximum rows, from `min_row` to `max_row`, at which
/// column `col` or a column beside it holds a letter.
pub fn get_row_limits(board: &Board, col: usize, min_row: usize, max_row: usize) -> (res: (usize, usize))
    requires
        board.wf(),
        col < BOARD_SIZE,
        min_row <= max_row < BOARD_SIZE,
    ensures
        min_row <= res.0 <= max_row,
        min_row <= res.1 <= max_row,
        none_near(board@, Direction::Vertical, col as int, min_row as int, max_row + 1) ==> res == (
            max_row,
            min_row,
        ),
        !none_near(board@, Direction::Vertical, col as int, min_row as int, max_row + 1) ==> {
            &&& res.0 <= res.1
            &&& near(board@, Direction::Vertical, col as int, res.0 as int)
            &&& near(board@, Direction::Vertical, col as int, res.1 as int)
            &&& none_near(board@, Direction::Vertical, col as int, min_row as int, res.0 as int)
            &&& none_near(board@, Direction::Vertical, col as int, res.1 + 1, max_row + 1)
        },
{
    get_line_limits(board, Direction::Vertical, col, min_row, max_row)
}

/// Keeps the words of the list that can be formed from the hand and at most
/// `filter_letters_on_board` letters of the board, in their order.
pub fn filter_words_later<'a>(
    valid_words_vec: &Vec<&'a Word>,
    letters: Letters,
    letters_on_board: Letters,
    filter_letters_on_board: usize,
) -> (kept: Vec<&'a Word>)
    requires
        words_ok(valid_words_vec@),
    ensures
        kept@ == filtered_later(valid_words_vec@, letters@, letters_on_board@, filter_letters_on_board),
        words_ok(kept@),
{
    let ghost pass = |w: &Word| passes_later(letters@, letters_on_board@, w@, filter_letters_on_board);
    let mut new_valid_words_vec: Vec<&Word> = Vec::with_capacity(valid_words_vec.len() / 2);
    let mut i: usize = 0;
    proof {
        reveal(Seq::filter);
        assert(valid_words_vec@.take(0).filter(pass) =~= Seq::<&Word>::empty());
    }
    while i < valid_words_vec.len()
        invariant
            i <= valid_words_vec.len(),
            words_ok(valid_words_vec@),
            words_ok(new_valid_words_vec@),
            pass == (|w: &Word| passes_later(letters@, letters_on_board@, w@, filter_letters_on_board)),
            new_valid_words_vec@ == valid_words_vec@.take(i as int).filter(pass),
        decreases valid_words_vec.len() - i,
    {
        let word = valid_words_vec[i];
        proof {
            let before = valid_words_vec@.take(i as int);
            assert(valid_words_vec@.take(i + 1) =~= before.push(word));
            before.lemma_filter_push(word, pass);
        }
        if check_filter_after_play_later(letters, letters_on_board, word, filter_letters_on_board) {
            new_valid_words_vec.push(word);
        }
        i += 1;
    }
    proof {
        assert(valid_words_vec@.take(valid_words_vec.len() as int) =~= valid_words_vec@);
    }
    new_valid_words_vec
}

/// Playing the word from offset `start` of line `line` lays every tile
/// of the hand and forms only words.
pub open spec fn finishes_at(
    g: Seq<usize>,
    on_board: Seq<usize>,
    dict: Set<Seq<usize>>,
    word: Seq<usize>,
    dir: Direction,
    line: int,
    start: int,
    hand: Seq<usize>,
) -> bool {
    let p = play_word_spec(g, on_board, word, line_row(dir, line, start), line_col(dir, line, start), dir, hand);
    &&& p.placed
    &&& p.usage == LetterUsage::Finished
    &&& play_is_valid(p.grid, dict, dir, line, start, start + word.len() - 1)
}

/// Nowhere on the board does a play of the word along direction `dir` lay
/// every tile of the hand and form only words.
pub open spec fn no_finishing_play(
    g: Seq<usize>,
    on_board: Seq<usize>,
    dict: Set<Seq<usize>>,
    word: Seq<usize>,
    dir: Direction,
    hand: Seq<usize>,
) -> bool {
    forall|line: int, start: int| !#[trigger] finishes_at(g, on_board, dict, word, dir, line, start, hand)
}

/// The word can be played from offset `start` of line `line`, and the
/// play forms only words.
pub open spec fn playable_at(
    g: Seq<usize>,
    on_board: Seq<usize>,
    dict: Set<Seq<usize>>,
    word: Seq<usize>,
    dir: Direction,
    line: int,
    start: int,
    hand: Seq<usize>,
) -> bool {
    let p = play_word_spec(g, on_board, word, line_row(dir, line, start), line_col(dir, line, start), dir, hand);
    p.placed && play_is_valid(p.grid, dict, dir, line, start, start + word.len() - 1)
}

/// The place at offset `start` of line `line` comes before the place at
/// offset `start2` of line `line2` when places are tried line by line.
pub open spec fn place_before(line: int, start: int, line2: int, start2: int) -> bool {
    line < line2 || (line == line2 && start < start2)
}

/// The place at offset `start` of line `line` is the first, line by line,
/// at which the word can be played so that it forms only words.
pub open spec fn is_first_play(
    g: Seq<usize>,
    on_board: Seq<usize>,
    dict: Set<Seq<usize>>,
    word: Seq<usize>,
    dir: Direction,
    line: int,
    start: int,
    hand: Seq<usize>,
) -> bool {
    &&& playable_at(g, on_board, dict, word, dir, line, start, hand)
    &&& forall|l: int, s: int|
        place_before(l, s, line, start) ==> !#[trigger] playable_at(g, on_board, dict, word, dir, l, s, hand)
}

/// Nowhere on the board can the word be played along direction `dir` so
/// that it forms only words.
pub open spec fn no_play(
    g: Seq<usize>,
    on_board: Seq<usize>,
    dict: Set<Seq<usize>>,
    word: Seq<usize>,
    dir: Direction,
    hand: Seq<usize>,
) -> bool {
    forall|l: int, s: int| !#[trigger] playable_at(g, on_board, dict, word, dir, l, s, hand)
}

/// What trying a word comes to where no deeper search is made.
///
/// A word that can be played nowhere is not found. A word whose first play,
/// line by line, lays every tile of the hand solves the board with that
/// play: the board and the count of its letters are those that the play
/// leaves, and the bounds are widened by it.
pub open spec fn first_play_post(
    outcome: SearchOutcome,
    g: Seq<usize>,
    on_board: Seq<usize>,
    g2: Seq<usize>,
    on_board2: Seq<usize>,
    dict: Set<Seq<usize>>,
    bounds: Bounds,
    word: Seq<usize>,
    dir: Direction,
    hand: Seq<usize>,
) -> bool {
    &&& no_play(g, on_board, dict, word, dir, hand) ==> outcome == SearchOutcome::NotFoundAtThisNode
    &&& forall|line: int, start: int| #[trigger]
        is_first_play(g, on_board, dict, word, dir, line, start, hand) && finishes_at(
            g,
            on_board,
            dict,
            word,
            dir,
            line,
            start,
            hand,
        ) ==> {
            let p = play_word_spec(
                g,
                on_board,
                word,
                line_row(dir, line, start),
                line_col(dir, line, start),
                dir,
                hand,
            );
            &&& outcome == SearchOutcome::Solved(
                bounds.widen(dir, line as usize, start as usize, (start + word.len() - 1) as usize),
            )
            &&& g2 == p.grid
            &&& on_board2 == p.on_board
        }
}

/// The word cannot be played, so that it forms only words, at any place
/// that comes before offset `start` of line `line`.
pub open spec fn no_play_before(
    g: Seq<usize>,
    on_board: Seq<usize>,
    dict: Set<Seq<usize>>,
    word: Seq<usize>,
    dir: Direction,
    hand: Seq<usize>,
    line: int,
    start: int,
) -> bool {
    forall|l: int, s: int|
        place_before(l, s, line, start) ==> !#[trigger] playable_at(g, on_board, dict, word, dir, l, s, hand)
}

/// Where the first play of a word is known, and the outcome is the one that
/// this play asks for if it lays every tile of the hand, the outcome is what
/// trying the word comes to.
pub proof fn lemma_first_play_decides(
    outcome: SearchOutcome,
    g: Seq<usize>,
    on_board: Seq<usize>,
    g2: Seq<usize>,
    on_board2: Seq<usize>,
    dict: Set<Seq<usize>>,
    bounds: Bounds,
    word: Seq<usize>,
    dir: Direction,
    hand: Seq<usize>,
    line: int,
    start: int,
)
    requires
        is_first_play(g, on_board, dict, word, dir, line, start, hand),
        finishes_at(g, on_board, dict, word, dir, line, start, hand) ==> {
            let p = play_word_spec(
                g,
                on_board,
                word,
                line_row(dir, line, start),
                line_col(dir, line, start),
                dir,
                hand,
            );
            &&& outcome == SearchOutcome::Solved(
                bounds.widen(dir, line as usize, start as usize, (start + word.len() - 1) as usize),
            )
            &&& g2 == p.grid
            &&& on_board2 == p.on_board
        },
    ensures
        first_play_post(outcome, g, on_board, g2, on_board2, dict, bounds, word, dir, hand),
{
    assert(playable_at(g, on_board, dict, word, dir, line, start, hand));
    assert forall|l: int, s: int| #[trigger]
        is_first_play(g, on_board, dict, word, dir, l, s, hand) && finishes_at(
            g,
            on_board,
            dict,
            word,
            dir,
            l,
            s,
            hand,
        ) implies {
        let p = play_word_spec(g, on_board, word, line_row(dir, l, s), line_col(dir, l, s), dir, hand);
        &&& outcome == SearchOutcome::Solved(
            bounds.widen(dir, l as usize, s as usize, (s + word.len() - 1) as usize),
        )
        &&& g2 == p.grid
        &&& on_board2 == p.on_board
    } by {
        lemma_first_play_is_one(g, on_board, dict, word, dir, hand, l, s, line, start);
    }
}

/// There is one first play at most.
pub proof fn lemma_first_play_is_one(
    g: Seq<usize>,
    on_board: Seq<usize>,
    dict: Set<Seq<usize>>,
    word: Seq<usize>,
    dir: Direction,
    hand: Seq<usize>,
    line: int,
    start: int,
    line2: int,
    start2: int,
)
    requires
        is_first_play(g, on_board, dict, word, dir, line, start, hand),
        is_first_play(g, on_board, dict, word, dir, line2, start2, hand),
    ensures
        line == line2,
        start == start2,
{
    if place_before(line, start, line2, start2) {
        assert(!playable_at(g, on_board, dict, word, dir, line, start, hand));
    }
    if place_before(line2, start2, line, start) {
        assert(!playable_at(g, on_board, dict, word, dir, line2, start2, hand));
    }
}

/// The direction that is tried first at a depth of the search: the
/// horizontal one at an odd depth, the vertical one at an even depth.
pub open spec fn first_direction(depth: usize) -> Direction {
    if depth % 2 == 1 {
        Direction::Horizontal
    } else {
        Direction::Vertical
    }
}

/// `lowest` and `highest` are the least and the greatest offset, from
/// `min_off` to `max_off`, at which line `line` or a line beside it holds a letter.
pub open spec fn are_limits(
    g: Seq<usize>,
    dir: Direction,
    line: int,
    min_off: int,
    max_off: int,
    lowest: int,
    highest: int,
) -> bool {
    &&& none_near(g, dir, line, min_off, max_off + 1) ==> lowest == max_off && highest == min_off
    &&& !none_near(g, dir, line, min_off, max_off + 1) ==> {
        &&& lowest <= highest
        &&& none_near(g, dir, line, min_off, lowest)
        &&& none_near(g, dir, line, highest + 1, max_off + 1)
    }
}

/// A word that is played touches a letter: its line is the line of a
/// letter or lies beside one.
pub proof fn lemma_play_line_is_near(
    g: Seq<usize>,
    on_board: Seq<usize>,
    bounds: Bounds,
    word: Seq<usize>,
    dir: Direction,
    line: int,
    start: int,
    hand: Seq<usize>,
)
    requires
        bounds.wf(),
        bounds.covers(g),
        play_word_spec(g, on_board, word, line_row(dir, line, start), line_col(dir, line, start), dir, hand).placed,
    ensures
        bounds.min_line(dir) - 1 <= line <= bounds.max_line(dir) + 1,
        0 <= line < BOARD_SIZE,
{
    let len = word.len() as int;
    assert(fits(line, start, len) && anchored(g, dir, line, start, len));
    assert forall|l: int, o: int| #[trigger] filled(g, dir, l, o) implies bounds.min_line(dir) <= l
        <= bounds.max_line(dir) by {
        assert(occupied(g, line_row(dir, l, o), line_col(dir, l, o)));
    }
    if !filled(g, dir, line, start - 1) && !filled(g, dir, line, start + len) {
        let i = choose|i: int| 0 <= i < len && #[trigger] beside(g, dir, line, start + i);
    }
}

/// A word that is played touches a letter: it starts no more than its
/// length before the first letter near its line, and no later than right
/// behind the last.
pub proof fn lemma_play_is_near(
    g: Seq<usize>,
    on_board: Seq<usize>,
    bounds: Bounds,
    word: Seq<usize>,
    dir: Direction,
    line: int,
    start: int,
    hand: Seq<usize>,
    lowest: int,
    highest: int,
)
    requires
        bounds.wf(),
        bounds.covers(g),
        are_limits(g, dir, line, bounds.min_off(dir) as int, bounds.max_off(dir) as int, lowest, highest),
        play_word_spec(g, on_board, word, line_row(dir, line, start), line_col(dir, line, start), dir, hand).placed,
    ensures
        lowest - word.len() <= start <= highest + 1,
        0 <= start < BOARD_SIZE,
{
    let len = word.len() as int;
    assert(fits(line, start, len) && anchored(g, dir, line, start, len));
    assert forall|l: int, o: int| #[trigger] filled(g, dir, l, o) implies bounds.min_line(dir) <= l
        <= bounds.max_line(dir) && bounds.min_off(dir) <= o <= bounds.max_off(dir) by {
        assert(occupied(g, line_row(dir, l, o), line_col(dir, l, o)));
    }
    // An offset of the line that is near a letter and that the play touches
    let touch: int = if filled(g, dir, line, start - 1) {
        start - 1
    } else if filled(g, dir, line, start + len) {
        start + len
    } else {
        let i = choose|i: int| 0 <= i < len && #[trigger] beside(g, dir, line, start + i);
        start + i
    };
    assert(near(g, dir, line, touch));
    assert(bounds.min_off(dir) <= touch <= bounds.max_off(dir));
    assert(!none_near(g, dir, line, bounds.min_off(dir) as int, bounds.max_off(dir) + 1));
    if touch < lowest {
        assert(!near(g, dir, line, touch));
    }
    if touch > highest {
        assert(!near(g, dir, line, touch));
    }
}

/// What a search may leave behind.
///
/// A search that ends with `Solved` has laid every tile of the hand on the
/// board. One that ends with `NotFoundAtThisNode` has left the board and the
/// count of its letters as it found them. One that was stopped leaves a
/// board of which nothing is known but that it is a board.
pub open spec fn search_post(
    outcome: SearchOutcome,
    g: Seq<usize>,
    on_board: Seq<usize>,
    g2: Seq<usize>,
    on_board2: Seq<usize>,
    dict: Set<Seq<usize>>,
    hand: Seq<usize>,
) -> bool {
    match outcome {
        SearchOutcome::Solved(bounds2) => solves(g, g2, on_board2, dict, hand, bounds2),
        SearchOutcome::NotFoundAtThisNode => g2 == g && on_board2 == on_board,
        SearchOutcome::Aborted => grid_wf(g2),
    }
}

/// Tries to play a word along direction `dir` anywhere near the letters of
/// the board, line by line. A play that forms only words and uses up the
/// hand solves the board; one that leaves tiles in the hand is followed by a
/// deeper search, and is taken back if that search finds nothing. A word
/// that can be played nowhere is not found, and a word whose first play uses
/// up the hand solves the board with that play, whatever the stop flag holds.
pub fn try_play_word(
    board: &mut Board,
    word: &Word,
    dir: Direction,
    bounds: Bounds,
    valid_words_vec: &Vec<&Word>,
    valid_words_set: &WordSet,
    letters: Letters,
    depth: usize,
    words_checked: &mut usize,
    letters_on_board: &mut Letters,
    filter_letters_on_board: usize,
    max_words_to_check: usize,
    stop: &AtomicBool,
) -> (outcome: SearchOutcome)
    requires
        old(board).wf(),
        search_ready(old(board)@, old(letters_on_board)@, bounds),
        is_word(word@),
        words_ok(valid_words_vec@),
    ensures
        final(board).wf(),
        *final(words_checked) >= *old(words_checked),
        search_post(
            outcome,
            old(board)@,
            old(letters_on_board)@,
            final(board)@,
            final(letters_on_board)@,
            valid_words_set@,
            letters@,
        ),
        first_play_post(
            outcome,
            old(board)@,
            old(letters_on_board)@,
            final(board)@,
            final(letters_on_board)@,
            valid_words_set@,
            bounds,
            word@,
            dir,
            letters@,
        ),
        outcome == SearchOutcome::NotFoundAtThisNode ==> no_finishing_play(
            old(board)@,
            old(letters_on_board)@,
            valid_words_set@,
            word@,
            dir,
            letters@,
        ),
    decreases hand_total(letters@), 0int,
{
    let ghost g = board@;
    let ghost on_board = letters_on_board@;
    let ghost dict = valid_words_set@;
    let len = word.len();
    let (min_line, max_line, min_off, max_off) = bounds.along(dir);
    // Try all lines, from the one before the letters to the one after them
    let first_line = if min_line > 0 {
        min_line - 1
    } else {
        0
    };
    let last_line = if max_line + 1 < BOARD_SIZE {
        max_line + 1
    } else {
        BOARD_SIZE - 1
    };
    proof {
        assert forall|l: int| 0 <= l < 26 implies on_board[l] + BOARD_SIZE <= usize::MAX by {
            lemma_tally_le_len(g, l as usize);
        }
    }
    let ghost mut passed = false;
    let ghost mut first_at: (int, int) = (0, 0);
    proof {
        assert forall|l: int, s: int| place_before(l, s, first_line as int, 0) implies !#[trigger] playable_at(
            g,
            on_board,
            dict,
            word@,
            dir,
            l,
            s,
            letters@,
        ) by {
            if playable_at(g, on_board, dict, word@, dir, l, s, letters@) {
                lemma_play_line_is_near(g, on_board, bounds, word@, dir, l, s, letters@);
                assert(fits(l, s, len as int));
            }
        }
    }
    let mut line = first_line;
    while line <= last_line
        invariant
            board.wf(),
            board@ == g,
            letters_on_board@ == on_board,
            g == old(board)@,
            on_board == old(letters_on_board)@,
            search_ready(g, on_board, bounds),
            dict == valid_words_set@,
            is_word(word@),
            words_ok(valid_words_vec@),
            len == word.len(),
            last_line < BOARD_SIZE,
            first_line <= line <= last_line + 1,
            *words_checked >= *old(words_checked),
            min_off == bounds.min_off(dir),
            max_off == bounds.max_off(dir),
            forall|l: int| 0 <= l < 26 ==> on_board[l] + BOARD_SIZE <= usize::MAX,
            forall|l: int, s: int|
                first_line <= l < line ==> !#[trigger] finishes_at(g, on_board, dict, word@, dir, l, s, letters@),
            !passed ==> no_play_before(g, on_board, dict, word@, dir, letters@, line as int, 0),
            passed ==> is_first_play(g, on_board, dict, word@, dir, first_at.0, first_at.1, letters@)
                && !finishes_at(g, on_board, dict, word@, dir, first_at.0, first_at.1, letters@),
        decreases last_line + 1 - line,
    {
        let (lowest, highest) = get_line_limits(board, dir, line, min_off, max_off);
        // For each line, try all offsets, starting from the farthest out the word could be played
        let first_off = if lowest > len {
            lowest - len
        } else {
            0
        };
        let last_off = if highest + 1 < BOARD_SIZE {
            highest + 1
        } else {
            BOARD_SIZE - 1
        };
        proof {
            if !passed {
                assert forall|l: int, s: int| place_before(l, s, line as int, first_off as int) implies !#[trigger] playable_at(
                    g,
                    on_board,
                    dict,
                    word@,
                    dir,
                    l,
                    s,
                    letters@,
                ) by {
                    if playable_at(g, on_board, dict, word@, dir, l, s, letters@) {
                        if l == line {
                            lemma_play_is_near(
                                g,
                                on_board,
                                bounds,
                                word@,
                                dir,
                                l,
                                s,
                                letters@,
                                lowest as int,
                                highest as int,
                            );
                        } else {
                            assert(place_before(l, s, line as int, 0));
                        }
                    }
                }
            }
        }
        let mut off = first_off;
        while off <= last_off
            invariant
                board.wf(),
                board@ == g,
                letters_on_board@ == on_board,
                g == old(board)@,
                on_board == old(letters_on_board)@,
                search_ready(g, on_board, bounds),
                dict == valid_words_set@,
                is_word(word@),
                words_ok(valid_words_vec@),
                len == word.len(),
                line < BOARD_SIZE,
                last_off < BOARD_SIZE,
                first_off <= off,
                *words_checked >= *old(words_checked),
                off <= last_off + 1 || off == first_off,
                forall|l: int| 0 <= l < 26 ==> on_board[l] + BOARD_SIZE <= usize::MAX,
                forall|s: int|
                    first_off <= s < off ==> !#[trigger] finishes_at(
                        g,
                        on_board,
                        dict,
                        word@,
                        dir,
                        line as int,
                        s,
                        letters@,
                    ),
                are_limits(g, dir, line as int, min_off as int, max_off as int, lowest as int, highest as int),
                min_off == bounds.min_off(dir),
                max_off == bounds.max_off(dir),
                !passed ==> no_play_before(g, on_board, dict, word@, dir, letters@, line as int, off as int),
                passed ==> is_first_play(g, on_board, dict, word@, dir, first_at.0, first_at.1, letters@)
                    && !finishes_at(g, on_board, dict, word@, dir, first_at.0, first_at.1, letters@),
            decreases last_off + 1 - off,
        {
            let (row_idx, col_idx) = match dir {
                Direction::Horizontal => (line, off),
                Direction::Vertical => (off, line),
            };
            let ghost p = play_word_spec(g, on_board, word@, row_idx as int, col_idx as int, dir, letters@);
            proof {
                lemma_play_then_undo(g, on_board, word@, row_idx as int, col_idx as int, dir, letters@);
            }
            let res = board.play_word(word, row_idx, col_idx, dir, &letters, letters_on_board);
            if res.0 {
                // The word was played: check the validity of the words that it forms
                proof {
                    assert(fits(line as int, off as int, len as int));
                    lemma_play_from_props(
                        g,
                        on_board,
                        Seq::empty(),
                        letters@,
                        word@,
                        dir,
                        line as int,
                        off as int,
                        0,
                    );
                }
                let end = off + len - 1;
                let new_bounds = bounds.widened(dir, line, off, end);
                if is_play_valid(board, dir, line, off, end, valid_words_set) {
                    proof {
                        lemma_play_step(g, on_board, dict, bounds, word@, row_idx, col_idx, dir, letters@);
                    }
                    proof {
                        assert(playable_at(g, on_board, dict, word@, dir, line as int, off as int, letters@));
                        if !passed {
                            assert(is_first_play(g, on_board, dict, word@, dir, line as int, off as int, letters@));
                        }
                    }
                    if res.3 == LetterUsage::Finished {
                        proof {
                            let at = if passed {
                                first_at
                            } else {
                                (line as int, off as int)
                            };
                            lemma_first_play_decides(
                                SearchOutcome::Solved(new_bounds),
                                g,
                                on_board,
                                board@,
                                letters_on_board@,
                                dict,
                                bounds,
                                word@,
                                dir,
                                letters@,
                                at.0,
                                at.1,
                            );
                        }
                        return SearchOutcome::Solved(new_bounds);
                    } else {
                        assert(!finishes_at(g, on_board, dict, word@, dir, line as int, off as int, letters@));
                        proof {
                            if !passed {
                                passed = true;
                                first_at = (line as int, off as int);
                            }
                        }
                        let new_valid_words_vec = filter_words_later(
                            valid_words_vec,
                            letters,
                            *letters_on_board,
                            filter_letters_on_board,
                        );
                        let next_depth = if depth < usize::MAX {
                            depth + 1
                        } else {
                            depth
                        };
                        let res2 = play_further(
                            board,
                            new_bounds,
                            &new_valid_words_vec,
                            valid_words_set,
                            res.2,
                            next_depth,
                            words_checked,
                            letters_on_board,
                            filter_letters_on_board,
                            max_words_to_check,
                            stop,
                        );
                        match res2 {
                            SearchOutcome::Solved(found) => {
                                proof {
                                    let g2 = board@;
                                    assert forall|r: int, c: int| #[trigger]
                                        occupied(g, r, c) implies g2[grid_index(r, c)] == g[grid_index(
                                        r,
                                        c,
                                    )] by {
                                        assert(occupied(p.grid, r, c));
                                    }
                                    assert forall|l: usize| l < 26 implies #[trigger] tally(g2, l)
                                        == tally(g, l) + letters@[l as int] by {
                                        assert(tally(p.grid, l) + p.remaining[l as int] == tally(g, l)
                                            + letters@[l as int]);
                                    }
                                    lemma_first_play_decides(
                                        SearchOutcome::Solved(found),
                                        g,
                                        on_board,
                                        g2,
                                        letters_on_board@,
                                        dict,
                                        bounds,
                                        word@,
                                        dir,
                                        letters@,
                                        first_at.0,
                                        first_at.1,
                                    );
                                }
                                return SearchOutcome::Solved(found);
                            },
                            SearchOutcome::Aborted => {
                                proof {
                                    lemma_first_play_decides(
                                        SearchOutcome::Aborted,
                                        g,
                                        on_board,
                                        board@,
                                        letters_on_board@,
                                        dict,
                                        bounds,
                                        word@,
                                        dir,
                                        letters@,
                                        first_at.0,
                                        first_at.1,
                                    );
                                }
                                return SearchOutcome::Aborted;
                            },
                            SearchOutcome::NotFoundAtThisNode => {
                                // Undo the play (cloning the board before each play would be far slower)
                                board.undo_play(&res.1, letters_on_board);
                            },
                        }
                    }
                } else {
                    // The play formed some invalid words
                    assert(!finishes_at(g, on_board, dict, word@, dir, line as int, off as int, letters@));
                    board.undo_play(&res.1, letters_on_board);
                }
            } else {
                assert(!finishes_at(g, on_board, dict, word@, dir, line as int, off as int, letters@));
                board.undo_play(&res.1, letters_on_board);
            }
            off += 1;
        }
        proof {
            assert forall|s: int| !#[trigger] finishes_at(
                g,
                on_board,
                dict,
                word@,
                dir,
                line as int,
                s,
                letters@,
            ) by {
                if finishes_at(g, on_board, dict, word@, dir, line as int, s, letters@) {
                    lemma_play_is_near(
                        g,
                        on_board,
                        bounds,
                        word@,
                        dir,
                        line as int,
                        s,
                        letters@,
                        lowest as int,
                        highest as int,
                    );
                    assert(first_off <= s <= last_off);
                }
            }
            if !passed {
                assert forall|l: int, s: int| place_before(l, s, line + 1, 0) implies !#[trigger] playable_at(
                    g,
                    on_board,
                    dict,
                    word@,
                    dir,
                    l,
                    s,
                    letters@,
                ) by {
                    if playable_at(g, on_board, dict, word@, dir, l, s, letters@) {
                        if l == line {
                            lemma_play_is_near(
                                g,
                                on_board,
                                bounds,
                                word@,
                                dir,
                                l,
                                s,
                                letters@,
                                lowest as int,
                                highest as int,
                            );
                            assert(place_before(l, s, line as int, off as int));
                        } else {
                            assert(place_before(l, s, line as int, 0));
                        }
                    }
                }
            }
        }
        line += 1;
    }
    proof {
        assert forall|l: int, s: int| !#[trigger] finishes_at(g, on_board, dict, word@, dir, l, s, letters@) by {
            if finishes_at(g, on_board, dict, word@, dir, l, s, letters@) {
                lemma_play_line_is_near(g, on_board, bounds, word@, dir, l, s, letters@);
                assert(first_line <= l <= last_line);
            }
        }
        assert forall|l: int, s: int| #[trigger]
            is_first_play(g, on_board, dict, word@, dir, l, s, letters@) implies !finishes_at(
            g,
            on_board,
            dict,
            word@,
            dir,
            l,
            s,
            letters@,
        ) by {}
    }
    SearchOutcome::NotFoundAtThisNode
}

/// Tries to play a word horizontally anywhere near the letters of the board.
pub fn try_play_word_horizontal(
    board: &mut Board,
    word: &Word,
    bounds: Bounds,
    valid_words_vec: &Vec<&Word>,
    valid_words_set: &WordSet,
    letters: Letters,
    depth: usize,
    words_checked: &mut usize,
    letters_on_board: &mut Letters,
    filter_letters_on_board: usize,
    max_words_to_check: usize,
    stop: &AtomicBool,
) -> (outcome: SearchOutcome)
    requires
        old(board).wf(),
        search_ready(old(board)@, old(letters_on_board)@, bounds),
        is_word(word@),
        words_ok(valid_words_vec@),
    ensures
        final(board).wf(),
        *final(words_checked) >= *old(words_checked),
        search_post(
            outcome,
            old(board)@,
            old(letters_on_board)@,
            final(board)@,
            final(letters_on_board)@,
            valid_words_set@,
            letters@,
        ),
        first_play_post(
            outcome,
            old(board)@,
            old(letters_on_board)@,
            final(board)@,
            final(letters_on_board)@,
            valid_words_set@,
            bounds,
            word@,
            Direction::Horizontal,
            letters@,
        ),
        outcome == SearchOutcome::NotFoundAtThisNode ==> no_finishing_play(
            old(board)@,
            old(letters_on_board)@,
            valid_words_set@,
            word@,
            Direction::Horizontal,
            letters@,
        ),
{
    try_play_word(
        board,
        word,
        Direction::Horizontal,
        bounds,
        valid_words_vec,
        valid_words_set,
        letters,
        depth,
        words_checked,
        letters_on_board,
        filter_letters_on_board,
        max_words_to_check,
        stop,
    )
}

/// Tries to play a word vertically anywhere near the letters of the board.
pub fn try_play_word_vertically(
    board: &mut Board,
    word: &Word,
    bounds: Bounds,
    valid_words_vec: &Vec<&Word>,
    valid_words_set: &WordSet,
    letters: Letters,
    depth: usize,
    words_checked: &mut usize,
    letters_on_board: &mut Letters,
    filter_letters_on_board: usize,
    max_words_to_check: usize,
    stop: &AtomicBool,
) -> (outcome: SearchOutcome)
    requires
        old(board).wf(),
        search_ready(old(board)@, old(letters_on_board)@, bounds),
        is_word(word@),
        words_ok(valid_words_vec@),
    ensures
        final(board).wf(),
        *final(words_checked) >= *old(words_checked),
        search_post(
            outcome,
            old(board)@,
            old(letters_on_board)@,
            final(board)@,
            final(letters_on_board)@,
            valid_words_set@,
            letters@,
        ),
        first_play_post(
            outcome,
            old(board)@,
            old(letters_on_board)@,
            final(board)@,
            final(letters_on_board)@,
            valid_words_set@,
            bounds,
            word@,
            Direction::Vertical,
            letters@,
        ),
        outcome == SearchOutcome::NotFoundAtThisNode ==> no_finishing_play(
            old(board)@,
            old(letters_on_board)@,
            valid_words_set@,
            word@,
            Direction::Vertical,
            letters@,
        ),
{
    try_play_word(
        board,
        word,
        Direction::Vertical,
        bounds,
        valid_words_vec,
        valid_words_set,
        letters,
        depth,
        words_checked,
        letters_on_board,
        filter_letters_on_board,
        max_words_to_check,
        stop,
    )
}

/// Tries a word along direction `dir`, unless the search was told to stop:
/// then nothing is tried and nothing changes.
pub fn try_word_unless_stopped(
    stopped: bool,
    board: &mut Board,
    word: &Word,
    dir: Direction,
    bounds: Bounds,
    valid_words_vec: &Vec<&Word>,
    valid_words_set: &WordSet,
    letters: Letters,
    depth: usize,
    words_checked: &mut usize,
    letters_on_board: &mut Letters,
    filter_letters_on_board: usize,
    max_words_to_check: usize,
    stop: &AtomicBool,
) -> (outcome: SearchOutcome)
    requires
        old(board).wf(),
        search_ready(old(board)@, old(letters_on_board)@, bounds),
        is_word(word@),
        words_ok(valid_words_vec@),
    ensures
        final(board).wf(),
        *final(words_checked) >= *old(words_checked),
        stopped ==> {
            &&& outcome == SearchOutcome::Aborted
            &&& final(board)@ == old(board)@
            &&& final(letters_on_board)@ == old(letters_on_board)@
            &&& *final(words_checked) == *old(words_checked)
        },
        !stopped ==> {
            &&& search_post(
                outcome,
                old(board)@,
                old(letters_on_board)@,
                final(board)@,
                final(letters_on_board)@,
                valid_words_set@,
                letters@,
            )
            &&& first_play_post(
                outcome,
                old(board)@,
                old(letters_on_board)@,
                final(board)@,
                final(letters_on_board)@,
                valid_words_set@,
                bounds,
                word@,
                dir,
                letters@,
            )
            &&& outcome == SearchOutcome::NotFoundAtThisNode ==> no_finishing_play(
                old(board)@,
                old(letters_on_board)@,
                valid_words_set@,
                word@,
                dir,
                letters@,
            )
        },
    decreases hand_total(letters@), 1int,
{
    if stopped {
        return SearchOutcome::Aborted;
    }
    try_play_word(
        board,
        word,
        dir,
        bounds,
        valid_words_vec,
        valid_words_set,
        letters,
        depth,
        words_checked,
        letters_on_board,
        filter_letters_on_board,
        max_words_to_check,
        stop,
    )
}

/// The count of words checked after `more` words were counted: the count
/// stops at the greatest number that it can hold.
pub open spec fn counted_up(count: usize, more: int) -> int {
    if count + more > usize::MAX {
        usize::MAX as int
    } else {
        count + more
    }
}

/// Tries every word of the list along direction `dir`, in the order of the
/// list. Each word is counted, and before it is tried the stop flag is read.
/// Without words, nothing is found. Where nothing is found, every word of
/// the list was counted and tried.
fn play_along(
    board: &mut Board,
    dir: Direction,
    bounds: Bounds,
    valid_words_vec: &Vec<&Word>,
    valid_words_set: &WordSet,
    letters: Letters,
    depth: usize,
    words_checked: &mut usize,
    letters_on_board: &mut Letters,
    filter_letters_on_board: usize,
    max_words_to_check: usize,
    stop: &AtomicBool,
) -> (outcome: SearchOutcome)
    requires
        old(board).wf(),
        search_ready(old(board)@, old(letters_on_board)@, bounds),
        words_ok(valid_words_vec@),
    ensures
        final(board).wf(),
        *final(words_checked) >= *old(words_checked),
        search_post(
            outcome,
            old(board)@,
            old(letters_on_board)@,
            final(board)@,
            final(letters_on_board)@,
            valid_words_set@,
            letters@,
        ),
        valid_words_vec@.len() == 0 ==> outcome == SearchOutcome::NotFoundAtThisNode && *final(words_checked)
            == *old(words_checked),
        outcome == SearchOutcome::NotFoundAtThisNode ==> *final(words_checked) >= counted_up(
            *old(words_checked),
            valid_words_vec@.len() as int,
        ),
        outcome == SearchOutcome::NotFoundAtThisNode ==> forall|i: int|
            0 <= i < valid_words_vec@.len() ==> no_finishing_play(
                old(board)@,
                old(letters_on_board)@,
                valid_words_set@,
                (#[trigger] valid_words_vec@[i])@,
                dir,
                letters@,
            ),
    decreases hand_total(letters@), 2int,
{
    let ghost g = board@;
    let ghost on_board = letters_on_board@;
    let mut i: usize = 0;
    while i < valid_words_vec.len()
        invariant
            board.wf(),
            board@ == g,
            letters_on_board@ == on_board,
            g == old(board)@,
            on_board == old(letters_on_board)@,
            search_ready(g, on_board, bounds),
            words_ok(valid_words_vec@),
            *words_checked >= *old(words_checked),
            *words_checked >= counted_up(*old(words_checked), i as int),
            i == 0 ==> *words_checked == *old(words_checked),
            i <= valid_words_vec.len(),
            forall|k: int|
                0 <= k < i ==> no_finishing_play(
                    g,
                    on_board,
                    valid_words_set@,
                    (#[trigger] valid_words_vec@[k])@,
                    dir,
                    letters@,
                ),
        decreases valid_words_vec.len() - i,
    {
        if *words_checked < usize::MAX {
            *words_checked += 1;
        }
        let stopped = should_stop(stop);
        let word = valid_words_vec[i];
        let res = try_word_unless_stopped(
            stopped,
            board,
            word,
            dir,
            bounds,
            valid_words_vec,
            valid_words_set,
            letters,
            depth,
            words_checked,
            letters_on_board,
            filter_letters_on_board,
            max_words_to_check,
            stop,
        );
        match res {
            SearchOutcome::Solved(found) => {
                return SearchOutcome::Solved(found);
            },
            SearchOutcome::Aborted => {
                return SearchOutcome::Aborted;
            },
            SearchOutcome::NotFoundAtThisNode => {},
        }
        i += 1;
    }
    SearchOutcome::NotFoundAtThisNode
}

/// Searches from a node, unless the search was told to stop: then nothing
/// is tried and nothing changes. Else every word of the list is tried, first
/// along one direction and then along the other; at depth 0 only along the
/// first. Without words, nothing is found.
pub fn search_unless_stopped(
    stopped: bool,
    board: &mut Board,
    bounds: Bounds,
    valid_words_vec: &Vec<&Word>,
    valid_words_set: &WordSet,
    letters: Letters,
    depth: usize,
    words_checked: &mut usize,
    letters_on_board: &mut Letters,
    filter_letters_on_board: usize,
    max_words_to_check: usize,
    stop: &AtomicBool,
) -> (outcome: SearchOutcome)
    requires
        old(board).wf(),
        search_ready(old(board)@, old(letters_on_board)@, bounds),
        words_ok(valid_words_vec@),
    ensures
        final(board).wf(),
        *final(words_checked) >= *old(words_checked),
        stopped ==> {
            &&& outcome == SearchOutcome::Aborted
            &&& final(board)@ == old(board)@
            &&& final(letters_on_board)@ == old(letters_on_board)@
            &&& *final(words_checked) == *old(words_checked)
        },
        !stopped ==> search_post(
            outcome,
            old(board)@,
            old(letters_on_board)@,
            final(board)@,
            final(letters_on_board)@,
            valid_words_set@,
            letters@,
        ),
        !stopped && valid_words_vec@.len() == 0 ==> outcome == SearchOutcome::NotFoundAtThisNode
            && *final(words_checked) == *old(words_checked),
        !stopped && outcome == SearchOutcome::NotFoundAtThisNode ==> forall|i: int|
            0 <= i < valid_words_vec@.len() ==> {
                &&& no_finishing_play(
                    old(board)@,
                    old(letters_on_board)@,
                    valid_words_set@,
                    (#[trigger] valid_words_vec@[i])@,
                    first_direction(depth),
                    letters@,
                )
                &&& depth != 0 ==> no_finishing_play(
                    old(board)@,
                    old(letters_on_board)@,
                    valid_words_set@,
                    valid_words_vec@[i]@,
                    first_direction(depth).flip(),
                    letters@,
                )
            },
    decreases hand_total(letters@), 3int,
{
    if stopped {
        return SearchOutcome::Aborted;
    }
    // At an odd depth, play horizontally first (alternating the direction is a heuristic)
    let first = if depth % 2 == 1 {
        Direction::Horizontal
    } else {
        Direction::Vertical
    };
    let res = play_along(
        board,
        first,
        bounds,
        valid_words_vec,
        valid_words_set,
        letters,
        depth,
        words_checked,
        letters_on_board,
        filter_letters_on_board,
        max_words_to_check,
        stop,
    );
    match res {
        SearchOutcome::Solved(found) => {
            return SearchOutcome::Solved(found);
        },
        SearchOutcome::Aborted => {
            return SearchOutcome::Aborted;
        },
        SearchOutcome::NotFoundAtThisNode => {},
    }
    // No point in trying the other direction at the first depth: the word that it
    // would form across the first word was already tried as a first word
    if depth == 0 {
        return SearchOutcome::NotFoundAtThisNode;
    }
    play_along(
        board,
        first.flipped(),
        bounds,
        valid_words_vec,
        valid_words_set,
        letters,
        depth,
        words_checked,
        letters_on_board,
        filter_letters_on_board,
        max_words_to_check,
        stop,
    )
}

/// Recursively solves the board: tries every word of the list, first along
/// one direction and then along the other. At an odd depth the first
/// direction is the horizontal one, at an even depth the vertical one; at
/// depth 0 only the vertical direction is tried. The search is stopped when
/// more than `max_words_to_check` words have been checked or the stop flag is
/// set. A search that was not stopped and found nothing has tried every word
/// at every place where it touches a letter: no single play lays the hand.
pub fn play_further(
    board: &mut Board,
    bounds: Bounds,
    valid_words_vec: &Vec<&Word>,
    valid_words_set: &WordSet,
    letters: Letters,
    depth: usize,
    words_checked: &mut usize,
    letters_on_board: &mut Letters,
    filter_letters_on_board: usize,
    max_words_to_check: usize,
    stop: &AtomicBool,
) -> (outcome: SearchOutcome)
    requires
        old(board).wf(),
        search_ready(old(board)@, old(letters_on_board)@, bounds),
        words_ok(valid_words_vec@),
    ensures
        final(board).wf(),
        *final(words_checked) >= *old(words_checked),
        search_post(
            outcome,
            old(board)@,
            old(letters_on_board)@,
            final(board)@,
            final(letters_on_board)@,
            valid_words_set@,
            letters@,
        ),
        *old(words_checked) > max_words_to_check ==> {
            &&& outcome == SearchOutcome::Aborted
            &&& final(board)@ == old(board)@
            &&& final(letters_on_board)@ == old(letters_on_board)@
            &&& *final(words_checked) == *old(words_checked)
        },
        valid_words_vec@.len() == 0 ==> {
            &&& !(outcome is Solved)
            &&& final(board)@ == old(board)@
            &&& final(letters_on_board)@ == old(letters_on_board)@
            &&& *final(words_checked) == *old(words_checked)
        },
        outcome == SearchOutcome::NotFoundAtThisNode ==> forall|i: int|
            0 <= i < valid_words_vec@.len() ==> {
                &&& no_finishing_play(
                    old(board)@,
                    old(letters_on_board)@,
                    valid_words_set@,
                    (#[trigger] valid_words_vec@[i])@,
                    first_direction(depth),
                    letters@,
                )
                &&& depth != 0 ==> no_finishing_play(
                    old(board)@,
                    old(letters_on_board)@,
                    valid_words_set@,
                    valid_words_vec@[i]@,
                    first_direction(depth).flip(),
                    letters@,
                )
            },
    decreases hand_total(letters@), 4int,
{
    if *words_checked > max_words_to_check {
        return SearchOutcome::Aborted;
    }
    let stopped = should_stop(stop);
    search_unless_stopped(
        stopped,
        board,
        bounds,
        valid_words_vec,
        valid_words_set,
        letters,
        depth,
        words_checked,
        letters_on_board,
        filter_letters_on_board,
        max_words_to_check,
        stop,
    )
}

} // verus!
