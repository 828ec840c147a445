//! Solving a hand from an empty board.
//!
//! The words that can be made from the hand are dealt out to workers. Each
//! worker lays the words of its share, one after the other, as the first
//! word in the middle of an empty board, and searches on from there. The
//! first board on which every tile lies wins.

use vstd::prelude::*;
use std::sync::atomic::AtomicBool;
use crate::alphabet::{is_word, Letters, Word, BOARD_SIZE, EMPTY_VALUE};
use crate::board::{grid_is_empty, grid_wf, in_grid, occupied, Board};
use crate::bounds::{lemma_play_alone_frames, Bounds};
use crate::connectivity::{connected, lemma_play_keeps_connected};
use crate::filters::{check_filter_after_play, passes_first};
use crate::hand::{
    is_makeable, is_used_up, lemma_tally_empty, lemma_tally_push, lemma_tally_take_le, lemma_tally_update, lemma_tally_zero, makeable, tally,
};
use crate::line::{filled, line_index, Direction};
use crate::runs::{board_valid, differs_on_play, is_run, lines_valid, read_line};
use crate::search::{play_further, search_ready, tallied, words_ok, SearchOutcome};
use crate::stop::{should_stop, signal_stop};
use crate::wordset::{words_of, LetterSet, WordSet};

verus! {

/// The board `g` is a solution of the hand `hand`: every run of two or more
/// letters is a word of the set, the letters hang together, the bounds frame
/// them, and they are exactly the tiles of the hand.
pub open spec fn is_solution(g: Seq<usize>, dict: Set<Seq<usize>>, hand: Seq<usize>, bounds: Bounds) -> bool {
    &&& grid_wf(g)
    &&& board_valid(g, dict)
    &&& connected(g)
    &&& bounds.frames(g)
    &&& forall|l: usize| l < 26 ==> #[trigger] tally(g, l) == hand[l as int]
}

/// The row in which the first word is laid.
pub open spec fn seed_row() -> int {
    (BOARD_SIZE / 2) as int
}

/// The column in which a first word of `len` letters starts.
pub open spec fn seed_start(len: int) -> int {
    BOARD_SIZE / 2 - len / 2
}

/// A first word of `len` letters can be laid in the middle of the board.
pub open spec fn seed_fits(len: int) -> bool {
    0 < len <= BOARD_SIZE && seed_start(len) + len < BOARD_SIZE
}

/// The bounds of the board that holds nothing but a first word of `len` letters.
pub open spec fn seed_bounds(len: int) -> Bounds {
    Bounds {
        min_col: seed_start(len) as usize,
        max_col: (seed_start(len) + len - 1) as usize,
        min_row: seed_row() as usize,
        max_row: seed_row() as usize,
    }
}

/// The board `g` holds the first `upto` letters of `word`, laid as a first
/// word, and nothing else.
pub open spec fn is_seed_grid(g: Seq<usize>, word: Seq<usize>, upto: int) -> bool {
    &&& grid_wf(g)
    &&& forall|r: int, c: int|
        in_grid(r, c) ==> #[trigger] g[line_index(Direction::Horizontal, r, c)] == (if r == seed_row()
            && seed_start(word.len() as int) <= c < seed_start(word.len() as int) + upto {
            word[c - seed_start(word.len() as int)]
        } else {
            EMPTY_VALUE
        })
}

/// The words of the list that can be made from the hand, in their order.
pub open spec fn makeable_of(dict: Seq<Word>, hand: Seq<usize>) -> Seq<Seq<usize>> {
    dict.map_values(|w: Word| w@).filter(|w: Seq<usize>| makeable(w, hand))
}

/// The words of a list of references.
pub open spec fn views_of(list: Seq<&Word>) -> Seq<Seq<usize>> {
    list.map_values(|w: &Word| w@)
}

/// The words of the list that pass the first filter and are not among the
/// words that were tried, in their order.
pub open spec fn filtered_first(
    words: Seq<&Word>,
    hand: Seq<usize>,
    first_word: Set<usize>,
    tried: Set<Seq<usize>>,
) -> Seq<&Word> {
    words.filter(|w: &Word| passes_first(hand, w@, first_word) && !tried.contains(w@))
}

/// A board without letters counts no letter.
pub proof fn lemma_tally_of_empty_grid(g: Seq<usize>, letter: usize)
    requires
        grid_is_empty(g),
        letter < 26,
    ensures
        tally(g, letter) == 0,
{
    lemma_tally_zero(g, letter);
    if g.contains(letter) {
        let i = choose|i: int| 0 <= i < g.len() && g[i] == letter;
        assert(g[i] == EMPTY_VALUE);
    }
}

/// A board that holds no letter at any row and column holds no letter at all.
pub proof fn lemma_grid_is_empty(g: Seq<usize>)
    requires
        grid_wf(g),
        forall|r: int, c: int|
            in_grid(r, c) ==> #[trigger] g[line_index(Direction::Horizontal, r, c)] == EMPTY_VALUE,
    ensures
        grid_is_empty(g),
{
    assert forall|i: int| 0 <= i < g.len() implies #[trigger] g[i] == EMPTY_VALUE by {
        let r = i / (BOARD_SIZE as int);
        let c = i % (BOARD_SIZE as int);
        assert(in_grid(r, c));
        assert(line_index(Direction::Horizontal, r, c) == i);
    }
}

/// The board that holds a first word of the set, and nothing else, is one
/// that a search can start from.
pub proof fn lemma_seed_ready(g: Seq<usize>, on_board: Seq<usize>, word: Seq<usize>, dict: Set<Seq<usize>>)
    requires
        is_seed_grid(g, word, word.len() as int),
        is_word(word),
        seed_fits(word.len() as int),
        dict.contains(word),
        tallied(g, on_board),
    ensures
        search_ready(g, on_board, seed_bounds(word.len() as int)),
        board_valid(g, dict),
{
    let across = Direction::Vertical;
    let along = Direction::Horizontal;
    let len = word.len() as int;
    let row = seed_row();
    let start = seed_start(len);
    let end = start + len - 1;
    assert forall|l2: int, o2: int| #[trigger] filled(g, along, l2, o2) implies l2 == row && start <= o2
        <= end by {
        assert(g[line_index(along, l2, o2)] != EMPTY_VALUE);
    }
    assert forall|off: int| start <= off <= end implies #[trigger] filled(g, along, row, off) by {
        assert(g[line_index(along, row, off)] == word[off - start]);
    }
    assert forall|line: int, from: int, to: int| #[trigger]
        is_run(g, along, line, from, to) && from < to implies dict.contains(
        read_line(g, along, line, from, to),
    ) by {
        assert(filled(g, along, line, from));
        assert(filled(g, along, line, to));
        if from > start {
            assert(filled(g, along, row, from - 1));
        }
        if to < end {
            assert(filled(g, along, row, to + 1));
        }
        assert forall|k: int| 0 <= k < len implies read_line(g, along, line, from, to)[k] == word[k] by {
            assert(g[line_index(along, row, start + k)] == word[k]);
        }
        assert(read_line(g, along, line, from, to) =~= word);
    }
    assert forall|line: int, from: int, to: int| #[trigger]
        is_run(g, across, line, from, to) && from < to implies dict.contains(
        read_line(g, across, line, from, to),
    ) by {
        assert(filled(g, across, line, from));
        assert(filled(g, across, line, to));
        assert(filled(g, along, from, line));
        assert(filled(g, along, to, line));
    }
    assert(lines_valid(g, dict, along) && lines_valid(g, dict, across));
    let empty = Seq::new((BOARD_SIZE * BOARD_SIZE) as nat, |i: int| EMPTY_VALUE);
    assert(differs_on_play(empty, g, along, row, start, end)) by {
        assert forall|l2: int, o2: int|
            in_grid(l2, o2) && !(l2 == row && start <= o2 <= end) implies #[trigger] g[line_index(
            along,
            l2,
            o2,
        )] == empty[line_index(along, l2, o2)] by {}
    }
    lemma_play_keeps_connected(empty, g, along, row, start, end);
    lemma_play_alone_frames(g, along, row as usize, start as usize, end as usize);
}

/// Lays `word` as the first word on an empty board: horizontally, in the
/// middle row, centred. Returns the bounds of the board, the letters that
/// are left of the hand, and the count of the letters on the board.
pub fn play_first_word(board: &mut Board, word: &Word, letters: &Letters) -> (res: (Bounds, Letters, Letters))
    requires
        old(board).wf(),
        grid_is_empty(old(board)@),
        is_word(word@),
        seed_fits(word.len() as int),
        makeable(word@, letters@),
    ensures
        is_seed_grid(final(board)@, word@, word.len() as int),
        res.0 == seed_bounds(word.len() as int),
        tallied(final(board)@, res.2@),
        forall|l: usize|
            l < 26 ==> {
                &&& res.1@[l as int] + #[trigger] tally(word@, l) == letters@[l as int]
                &&& res.2@[l as int] == tally(word@, l)
            },
{
    let col_start = BOARD_SIZE / 2 - word.len() / 2;
    let row = BOARD_SIZE / 2;
    let mut use_letters: Letters = *letters;
    let mut letters_on_board: Letters = [0usize;26];
    proof {
        assert(word@.take(0) =~= Seq::<usize>::empty());
        assert forall|l: usize| l < 26 implies #[trigger] tally(word@.take(0), l) == 0 && tally(
            board@,
            l,
        ) == 0 && letters_on_board@[l as int] == 0 && use_letters@[l as int] == letters@[l as int] by {
            lemma_tally_empty(l);
            lemma_tally_of_empty_grid(board@, l);
        }
        assert forall|r: int, c: int| in_grid(r, c) implies #[trigger] board@[line_index(
            Direction::Horizontal,
            r,
            c,
        )] == EMPTY_VALUE by {}
    }
    let mut i: usize = 0;
    while i < word.len()
        invariant
            i <= word.len(),
            board.wf(),
            is_word(word@),
            seed_fits(word.len() as int),
            makeable(word@, letters@),
            col_start == seed_start(word.len() as int),
            row == seed_row(),
            is_seed_grid(board@, word@, i as int),
            forall|l: usize|
                l < 26 ==> {
                    &&& use_letters@[l as int] + #[trigger] tally(word@.take(i as int), l)
                        == letters@[l as int]
                    &&& letters_on_board@[l as int] == tally(word@.take(i as int), l)
                    &&& tally(board@, l) == tally(word@.take(i as int), l)
                },
        decreases word.len() - i,
    {
        let letter = word[i];
        proof {
            let idx = line_index(Direction::Horizontal, row as int, col_start + i);
            assert(in_grid(row as int, col_start + i));
            assert(board@[idx] == EMPTY_VALUE);
            assert(word@.take(i + 1) =~= word@.take(i as int).push(letter));
            assert forall|l: usize| l < 26 implies #[trigger] tally(word@.take(i + 1), l) == tally(
                word@.take(i as int),
                l,
            ) + (if letter == l {
                1nat
            } else {
                0nat
            }) && tally(board@.update(idx, letter), l) == tally(board@, l) + (if letter == l {
                1nat
            } else {
                0nat
            }) by {
                lemma_tally_push(word@.take(i as int), letter, l);
                lemma_tally_update(board@, idx, letter, l);
            }
            lemma_tally_take_le(word@, i + 1, letter);
            assert(tally(word@, letter) <= letters@[letter as int]);
        }
        board.set_val(row, col_start + i, letter);
        letters_on_board[letter] += 1;
        use_letters[letter] -= 1;
        i += 1;
    }
    proof {
        assert(word@.take(word.len() as int) =~= word@);
        assert forall|l: usize| l < 26 implies letters_on_board@[l as int] == #[trigger] tally(board@, l) by {
            assert(letters_on_board@[l as int] == tally(word@.take(word.len() as int), l));
        }
    }
    let bounds = Bounds {
        min_col: col_start,
        max_col: col_start + (word.len() - 1),
        min_row: row,
        max_row: row,
    };
    (bounds, use_letters, letters_on_board)
}

/// Takes a first word off the board, which holds nothing else.
pub fn clear_first_word(board: &mut Board, word: &Word)
    requires
        is_seed_grid(old(board)@, word@, word.len() as int),
        seed_fits(word.len() as int),
    ensures
        final(board).wf(),
        grid_is_empty(final(board)@),
{
    let col_start = BOARD_SIZE / 2 - word.len() / 2;
    let row = BOARD_SIZE / 2;
    let mut i: usize = word.len();
    while i > 0
        invariant
            i <= word.len(),
            seed_fits(word.len() as int),
            col_start == seed_start(word.len() as int),
            row == seed_row(),
            is_seed_grid(board@, word@, i as int),
        decreases i,
    {
        i -= 1;
        board.set_val(row, col_start + i, EMPTY_VALUE);
    }
    proof {
        lemma_grid_is_empty(board@);
    }
}

/// Gets the words of the dictionary that can be made from the hand, in their order.
pub fn makeable_words<'a>(dict: &'a Vec<Word>, letters: &Letters) -> (kept: Vec<&'a Word>)
    requires
        forall|i: int| 0 <= i < dict.len() ==> is_word(#[trigger] dict@[i]@),
    ensures
        views_of(kept@) == makeable_of(dict@, letters@),
        words_ok(kept@),
        forall|i: int|
            0 <= i < kept.len() ==> makeable((#[trigger] kept@[i])@, letters@) && words_of(dict@).contains(
                kept@[i]@,
            ),
{
    let ghost can = |w: Seq<usize>| makeable(w, letters@);
    let ghost view = |w: Word| w@;
    let mut kept: Vec<&Word> = Vec::new();
    let mut i: usize = 0;
    proof {
        reveal(Seq::filter);
        assert(dict@.take(0).map_values(view).filter(can) =~= Seq::<Seq<usize>>::empty());
        assert(views_of(kept@) =~= Seq::<Seq<usize>>::empty());
    }
    while i < dict.len()
        invariant
            i <= dict.len(),
            forall|k: int| 0 <= k < dict.len() ==> is_word(#[trigger] dict@[k]@),
            can == (|w: Seq<usize>| makeable(w, letters@)),
            view == (|w: Word| w@),
            views_of(kept@) == dict@.take(i as int).map_values(view).filter(can),
            words_ok(kept@),
            forall|k: int|
                0 <= k < kept.len() ==> makeable((#[trigger] kept@[k])@, letters@) && words_of(
                    dict@,
                ).contains(kept@[k]@),
        decreases dict.len() - i,
    {
        let word = &dict[i];
        proof {
            let before = dict@.take(i as int);
            assert(dict@.take(i + 1) =~= before.push(dict@[i as int]));
            assert(before.push(dict@[i as int]).map_values(view) =~= before.map_values(view).push(word@));
            before.map_values(view).lemma_filter_push(word@, can);
            assert(views_of(kept@.push(word)) =~= views_of(kept@).push(word@));
        }
        if is_makeable(word, letters) {
            assert(words_of(dict@).contains(dict@[i as int]@));
            kept.push(word);
        }
        i += 1;
    }
    proof {
        assert(dict@.take(dict.len() as int) =~= dict@);
    }
    kept
}

/// Keeps the words of the list that can be formed from the hand and at most
/// one letter of the first word, and that are not among the words that were
/// tried, in their order.
pub fn filter_words_first<'a>(
    valid_words_vec: &Vec<&'a Word>,
    letters: Letters,
    played_on_board: &LetterSet,
    tried: &WordSet,
) -> (kept: Vec<&'a Word>)
    requires
        words_ok(valid_words_vec@),
    ensures
        kept@ == filtered_first(valid_words_vec@, letters@, played_on_board@, tried@),
        words_ok(kept@),
{
    let ghost pass = |w: &Word| passes_first(letters@, w@, played_on_board@) && !tried@.contains(w@);
    let mut kept: Vec<&Word> = Vec::with_capacity(valid_words_vec.len());
    let mut i: usize = 0;
    proof {
        reveal(Seq::filter);
        assert(valid_words_vec@.take(0).filter(pass) =~= Seq::<&Word>::empty());
    }
    while i < valid_words_vec.len()
        invariant
            i <= valid_words_vec.len(),
            words_ok(valid_words_vec@),
            words_ok(kept@),
            pass == (|w: &Word| passes_first(letters@, w@, played_on_board@) && !tried@.contains(w@)),
            kept@ == valid_words_vec@.take(i as int).filter(pass),
        decreases valid_words_vec.len() - i,
    {
        let word = valid_words_vec[i];
        proof {
            let before = valid_words_vec@.take(i as int);
            assert(valid_words_vec@.take(i + 1) =~= before.push(word));
            before.lemma_filter_push(word, pass);
        }
        if check_filter_after_play(letters, word, played_on_board) && !tried.contains(word) {
            kept.push(word);
        }
        i += 1;
    }
    proof {
        assert(valid_words_vec@.take(valid_words_vec.len() as int) =~= valid_words_vec@);
    }
    kept
}

/// The number of shares that the words are dealt into: one for each
/// worker, but no more than there are words.
pub fn shard_count(parallelism: usize, words: usize) -> (parts: usize)
    ensures
        parts == (if parallelism < words {
            parallelism
        } else {
            words
        }),
{
    if parallelism < words {
        parallelism
    } else {
        words
    }
}

/// The words are dealt into the shares one by one, in turn: the `m`-th word
/// of share `j` is the word at place `m * parts + j` of the list, and each
/// share holds as many words as there are such places in the list.
pub open spec fn is_dealt(words: Seq<&Word>, parts: int, shards: Seq<Vec<&Word>>) -> bool {
    &&& shards.len() == parts
    &&& forall|j: int, m: int|
        0 <= j < parts && 0 <= m < shards[j]@.len() ==> (#[trigger] shards[j]@[m]) == words[m * parts
            + j]
    &&& forall|j: int|
        0 <= j < parts ==> {
            let len = (#[trigger] shards[j])@.len();
            len * parts + j >= words.len() && (len == 0 || (len - 1) * parts + j < words.len())
        }
}

/// Deals the words into `parts` shares, one by one, in turn. As the list
/// is sorted by length, each share gets long words and short ones.
pub fn shard_words<'a>(words: &Vec<&'a Word>, parts: usize) -> (shards: Vec<Vec<&'a Word>>)
    requires
        parts > 0,
    ensures
        is_dealt(words@, parts as int, shards@),
{
    let n = words.len();
    let mut shards: Vec<Vec<&Word>> = Vec::with_capacity(parts);
    let mut j: usize = 0;
    while j < parts
        invariant
            j <= parts,
            n == words.len(),
            shards.len() == j,
            forall|a: int, m: int|
                0 <= a < j && 0 <= m < shards@[a]@.len() ==> (#[trigger] shards@[a]@[m]) == words@[m
                    * parts + a],
            forall|a: int|
                0 <= a < j ==> {
                    let len = (#[trigger] shards@[a])@.len();
                    len * parts + a >= n && (len == 0 || (len - 1) * parts + a < n)
                },
        decreases parts - j,
    {
        let mut shard: Vec<&Word> = Vec::new();
        let mut k: usize = if j < n {
            j
        } else {
            n
        };
        let ghost mut m: int = 0;
        proof {
            assert(0 * parts + j == j) by (nonlinear_arith);
        }
        while k < n
            invariant
                j < parts,
                n == words.len(),
                k <= n,
                k < n ==> k == m * parts + j,
                k == n ==> m * parts + j >= n,
                0 <= m,
                m == 0 || (m - 1) * parts + j < n,
                shard@.len() == m,
                forall|b: int| 0 <= b < m ==> (#[trigger] shard@[b]) == words@[b * parts + j],
            decreases n - k,
        {
            shard.push(words[k]);
            proof {
                assert((m + 1) * parts + j == m * parts + j + parts) by (nonlinear_arith);
                m = m + 1;
            }
            if n - k <= parts {
                k = n;
            } else {
                k += parts;
            }
        }
        proof {
            let done = shards@;
            let all = done.push(shard);
            assert forall|a: int, m2: int| 0 <= a < j + 1 && 0 <= m2 < all[a]@.len() implies (
            #[trigger] all[a]@[m2]) == words@[m2 * parts + a] by {
                if a < j {
                    assert(all[a] == done[a]);
                    assert(done[a]@[m2] == words@[m2 * parts + a]);
                }
            }
            assert forall|a: int| 0 <= a < j + 1 implies {
                let len = (#[trigger] all[a])@.len();
                len * parts + a >= n && (len == 0 || (len - 1) * parts + a < n)
            } by {
                if a < j {
                    assert(all[a] == done[a]);
                }
            }
        }
        shards.push(shard);
        j += 1;
    }
    shards
}

/// Decides what a worker hands in when it has found a board: the board
/// with its bounds, unless the search was told to stop before, by a worker
/// that found a board earlier; then nothing.
pub fn claim_board(stopped: bool, board: Board, bounds: Bounds) -> (found: Option<(Board, Bounds)>)
    ensures
        stopped ==> found is None,
        !stopped ==> found == Some((board, bounds)),
{
    if stopped {
        None
    } else {
        Some((board, bounds))
    }
}

/// The hand holds the tiles of the word and no others.
pub open spec fn uses_up(word: Seq<usize>, hand: Seq<usize>) -> bool {
    forall|l: usize| l < 26 ==> #[trigger] tally(word, l) == hand[l as int]
}

/// The word at place `i` of the share is the first that can be laid as a
/// first word in the middle of the board.
pub open spec fn is_first_seed(chunk: Seq<&Word>, i: int) -> bool {
    &&& 0 <= i < chunk.len()
    &&& seed_fits(chunk[i]@.len() as int)
    &&& forall|k: int| 0 <= k < i ==> !seed_fits((#[trigger] chunk[k])@.len() as int)
}

/// The board holds the word where a first word is laid: in the middle row,
/// centred.
pub open spec fn holds_seed(g: Seq<usize>, word: Seq<usize>) -> bool {
    &&& seed_fits(word.len() as int)
    &&& forall|c: int|
        seed_start(word.len() as int) <= c < seed_start(word.len() as int) + word.len() ==> #[trigger] g[line_index(
            Direction::Horizontal,
            seed_row(),
            c,
        )] == word[c - seed_start(word.len() as int)]
}

/// What a board that a share hands in looks like: it holds a word of the
/// share as its first word; and where the first word of the share that can
/// be laid uses up the hand, the board holds that word and nothing else,
/// within the bounds of that word.
pub open spec fn is_handed_in(chunk: Seq<&Word>, hand: Seq<usize>, g: Seq<usize>, bounds: Bounds) -> bool {
    &&& exists|i: int| 0 <= i < chunk.len() && holds_seed(g, (#[trigger] chunk[i])@)
    &&& forall|i: int| #[trigger]
        is_first_seed(chunk, i) && uses_up(chunk[i]@, hand) ==> is_seed_grid(
            g,
            chunk[i]@,
            chunk[i]@.len() as int,
        ) && bounds == seed_bounds(chunk[i]@.len() as int)
}

/// A share has one first word that can be laid at most.
pub proof fn lemma_first_seed_is_one(chunk: Seq<&Word>, i: int, j: int)
    requires
        is_first_seed(chunk, i),
        is_first_seed(chunk, j),
    ensures
        i == j,
{
    if i < j {
        assert(!seed_fits(chunk[i]@.len() as int));
    }
    if j < i {
        assert(!seed_fits(chunk[j]@.len() as int));
    }
}

/// Where the first word of a share that can be laid is known, and the
/// board holds a word of the share, and is the board of that first word
/// alone if it uses up the hand, the board looks as a board that the share
/// hands in.
pub proof fn lemma_handed_in(
    chunk: Seq<&Word>,
    hand: Seq<usize>,
    g: Seq<usize>,
    bounds: Bounds,
    first: int,
    laid: int,
)
    requires
        is_first_seed(chunk, first),
        0 <= laid < chunk.len(),
        holds_seed(g, chunk[laid]@),
        uses_up(chunk[first]@, hand) ==> is_seed_grid(g, chunk[first]@, chunk[first]@.len() as int) && bounds
            == seed_bounds(chunk[first]@.len() as int),
    ensures
        is_handed_in(chunk, hand, g, bounds),
{
    assert forall|i: int| #[trigger] is_first_seed(chunk, i) && uses_up(chunk[i]@, hand) implies is_seed_grid(
        g,
        chunk[i]@,
        chunk[i]@.len() as int,
    ) && bounds == seed_bounds(chunk[i]@.len() as int) by {
        lemma_first_seed_is_one(chunk, i, first);
    }
}

/// No word of the share can be laid as a first word in the middle of the board.
pub open spec fn no_seed_fits(chunk: Seq<&Word>) -> bool {
    forall|i: int| 0 <= i < chunk.len() ==> !seed_fits((#[trigger] chunk[i])@.len() as int)
}

/// Works through a share of the first words. Each word of `chunk` is laid
/// in the middle of an empty board; if that uses up the hand, the board is
/// the solution; otherwise the search goes on from there with the words of
/// `valid_words_vec` that can still be played. The worker that finds a
/// solution sets the stop flag and returns the board with its bounds. A
/// worker that finds the flag set gives up. A share without a word that can
/// be laid in the middle of the board gives nothing. A board that is handed
/// in holds a word of the share in the middle row; where the first word of
/// the share that can be laid uses up the hand, it holds that word alone.
pub fn run_shard(
    chunk: &Vec<&Word>,
    valid_words_vec: &Vec<&Word>,
    valid_words_set: &WordSet,
    letters: &Letters,
    filter_letters_on_board: usize,
    max_words_to_check: usize,
    stop: &AtomicBool,
) -> (found: Option<(Board, Bounds)>)
    requires
        words_ok(chunk@),
        words_ok(valid_words_vec@),
        forall|i: int|
            0 <= i < chunk.len() ==> valid_words_set@.contains((#[trigger] chunk@[i])@) && makeable(
                chunk@[i]@,
                letters@,
            ),
    ensures
        found matches Some(pair) ==> pair.0.wf() && is_solution(
            pair.0@,
            valid_words_set@,
            letters@,
            pair.1,
        ),
        found matches Some(pair) ==> is_handed_in(chunk@, letters@, pair.0@, pair.1),
        no_seed_fits(chunk@) ==> found is None,
{
    let ghost mut passed = false;
    let ghost mut first: int = 0;
    let mut words_checked: usize = 0;
    let mut board = Board::new();
    let mut tried = WordSet::new();
    let mut i: usize = 0;
    while i < chunk.len()
        invariant
            board.wf(),
            grid_is_empty(board@),
            words_ok(chunk@),
            words_ok(valid_words_vec@),
            forall|k: int|
                0 <= k < chunk.len() ==> valid_words_set@.contains((#[trigger] chunk@[k])@) && makeable(
                    chunk@[k]@,
                    letters@,
                ),
            i <= chunk.len(),
            !passed ==> forall|k: int| 0 <= k < i ==> !seed_fits((#[trigger] chunk@[k])@.len() as int),
            passed ==> is_first_seed(chunk@, first) && first < i && !uses_up(chunk@[first]@, letters@),
        decreases chunk.len() - i,
    {
        let word = chunk[i];
        i += 1;
        let len = word.len();
        if len == 0 || len > BOARD_SIZE || BOARD_SIZE / 2 - len / 2 + len >= BOARD_SIZE {
            // The word cannot be laid in the middle of the board
            continue ;
        }
        assert(seed_fits(chunk@[i - 1]@.len() as int));
        let (bounds, use_letters, mut letters_on_board) = play_first_word(&mut board, word, letters);
        proof {
            lemma_seed_ready(board@, letters_on_board@, word@, valid_words_set@);
        }
        proof {
            assert forall|c: int|
                seed_start(word@.len() as int) <= c < seed_start(word@.len() as int) + word@.len() implies #[trigger] board@[line_index(
                Direction::Horizontal,
                seed_row(),
                c,
            )] == word@[c - seed_start(word@.len() as int)] by {
                assert(in_grid(seed_row(), c));
            }
            assert(holds_seed(board@, chunk@[i - 1]@));
            if !passed {
                assert(is_first_seed(chunk@, i - 1));
            }
        }
        if is_used_up(&use_letters) {
            proof {
                assert forall|l: usize| l < 26 implies #[trigger] tally(board@, l) == letters@[l as int] by {
                    assert(use_letters@[l as int] + tally(word@, l) == letters@[l as int]);
                }
                lemma_handed_in(chunk@, letters@, board@, bounds, if passed {
                    first
                } else {
                    i - 1
                }, i - 1);
            }
            let stopped = should_stop(stop);
            let found = claim_board(stopped, board, bounds);
            if found.is_some() {
                signal_stop(stop);
            }
            return found;
        } else {
            // Reduce the words to check to those that can be played with the letters
            // not in the first word, plus one of the tiles of the first word
            proof {
                if !passed {
                    let l = choose|l: int| 0 <= l < 26 && use_letters@[l] != 0;
                    assert(use_letters@[l] + tally(word@, l as usize) == letters@[l]);
                    assert(!uses_up(word@, letters@));
                    passed = true;
                    first = i - 1;
                }
            }
            let word_letters = LetterSet::from_word(word);
            let new_valid_words_vec = filter_words_first(valid_words_vec, use_letters, &word_letters, &tried);
            let ghost seeded = board@;
            let result = play_further(
                &mut board,
                bounds,
                &new_valid_words_vec,
                valid_words_set,
                use_letters,
                0,
                &mut words_checked,
                &mut letters_on_board,
                filter_letters_on_board,
                max_words_to_check,
                stop,
            );
            match result {
                SearchOutcome::Solved(found_bounds) => {
                    proof {
                        assert forall|l: usize| l < 26 implies #[trigger] tally(board@, l)
                            == letters@[l as int] by {
                            assert(use_letters@[l as int] + tally(word@, l) == letters@[l as int]);
                            assert(tally(seeded, l) == tally(word@, l));
                        }
                        assert forall|c: int|
                            seed_start(word@.len() as int) <= c < seed_start(word@.len() as int)
                                + word@.len() implies #[trigger] board@[line_index(
                            Direction::Horizontal,
                            seed_row(),
                            c,
                        )] == word@[c - seed_start(word@.len() as int)] by {
                            assert(in_grid(seed_row(), c));
                            assert(seeded[line_index(Direction::Horizontal, seed_row(), c)] == word@[c
                                - seed_start(word@.len() as int)]);
                            assert(occupied(seeded, seed_row(), c));
                        }
                        lemma_handed_in(chunk@, letters@, board@, found_bounds, first, i - 1);
                    }
                    let stopped = should_stop(stop);
                    let found = claim_board(stopped, board, found_bounds);
                    if found.is_some() {
                        signal_stop(stop);
                    }
                    return found;
                },
                SearchOutcome::NotFoundAtThisNode => {
                    tried.insert(word.clone());
                },
                SearchOutcome::Aborted => {
                    return None;
                },
            }
        }
        clear_first_word(&mut board, word);
    }
    None
}

} // verus!
