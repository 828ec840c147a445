//! Laws of the session: what follows from the contracts of `start` and `finish`.

use vstd::prelude::*;
use crate::alphabet::{char_of, is_word, Word};
use crate::board::{in_grid, occupied};
use crate::connectivity::{connected, linked};
use crate::line::{line_index, Direction};
use crate::runs::{board_valid, is_run, lines_valid, read_line};
use crate::dictionary::Dictionaries;
use crate::driver::{is_seed_grid, makeable_of, seed_bounds, seed_fits, seed_row};
use crate::engine::{
    holds_last_board, is_finish, is_rebuild_plan, is_start, makeable_set, Found, Job, JobKind, Session,
    Step,
};
use crate::hand::{
    comparison, hand_total, lemma_tally_push, lemma_tally_take_le, makeable, one_more, same_hand,
    some_less, sum_to, tally, LetterComparison,
};
use crate::incremental::accepts;
use crate::input::SolveError;
use crate::render::{board_texts, rendered, text_at};

verus! {

/// On the board of the last game, every run of two or more letters, along
/// a row or along a column, is a word of the dictionaries.
pub proof fn lemma_runs_of_the_last_game_are_words(
    session: Session,
    dicts: &Dictionaries,
    dir: Direction,
    line: int,
    from: int,
    to: int,
)
    requires
        session.wf(dicts),
        session.last_game is Some,
        is_run(session.last_game->0.board@, dir, line, from, to),
        from < to,
    ensures
        dicts.all_words().contains(read_line(session.last_game->0.board@, dir, line, from, to)),
{
    let g = session.last_game->0.board@;
    assert(lines_valid(g, dicts.all_words(), dir));
}

/// On the board of the last game, a walk over neighbouring letters leads
/// from every letter to every other.
pub proof fn lemma_letters_of_the_last_game_hang_together(
    session: Session,
    dicts: &Dictionaries,
    a: (int, int),
    b: (int, int),
)
    requires
        session.wf(dicts),
        session.last_game is Some,
        occupied(session.last_game->0.board@, a.0, a.1),
        occupied(session.last_game->0.board@, b.0, b.1),
    ensures
        linked(session.last_game->0.board@, a, b),
{
}

/// The board of the last game holds of each letter as many tiles as the
/// hand of the last game, no more and no fewer.
pub proof fn lemma_last_game_holds_its_hand(session: Session, dicts: &Dictionaries, letter: usize)
    requires
        session.wf(dicts),
        session.last_game is Some,
        letter < 26,
    ensures
        tally(session.last_game->0.board@, letter) == session.last_game->0.letters@[letter as int],
{
}

/// A board that a share of a job has found is a solution of the hand of the
/// job: its runs are words of the dictionaries, its letters hang together,
/// and they are the tiles of the hand.
pub proof fn lemma_found_board_is_a_solution(job: Job, found: Found)
    requires
        job.admits(found),
    ensures
        board_valid(found.board@, job.dicts.all_words()),
        connected(found.board@),
        forall|l: usize| l < 26 ==> #[trigger] tally(found.board@, l) == job.letters@[l as int],
{
}

/// The board that holds a first word and nothing else is answered as one
/// row: the letters of the word in order, without a blank and without a mark.
pub proof fn lemma_first_word_alone_is_one_row(g: Seq<usize>, word: Seq<usize>)
    requires
        is_word(word),
        seed_fits(word.len() as int),
        is_seed_grid(g, word, word.len() as int),
    ensures
        rendered(g, seed_bounds(word.len() as int), Set::empty()) == seq![
            word.map_values(|letter: usize| seq![char_of(letter)]),
        ],
{
    let bounds = seed_bounds(word.len() as int);
    let rows = rendered(g, bounds, Set::empty());
    let row = word.map_values(|letter: usize| seq![char_of(letter)]);
    assert(rows.len() == 1);
    assert(rows[0].len() == word.len());
    assert forall|c: int| 0 <= c < word.len() implies rows[0][c] == row[c] by {
        let col = bounds.min_col + c;
        assert(in_grid(seed_row(), col));
        assert(g[line_index(Direction::Horizontal, seed_row(), col)] == word[c]);
        assert(text_at(g, Set::empty(), seed_row(), col) =~= seq![char_of(word[c])]);
    }
    assert(rows[0] =~= row);
    assert(rows =~= seq![row]);
}

/// A hand compares to itself as the same hand.
pub proof fn lemma_same_hand(letters: Seq<usize>)
    ensures
        comparison(letters, letters) == LetterComparison::Same,
{
}

/// A hand with one tile more than another compares to it as greater by one,
/// and the letter of the tile is the only one of which it has one more.
pub proof fn lemma_one_more(letters: Seq<usize>, previous: Seq<usize>, letter: int)
    requires
        one_more(letters, previous, letter),
    ensures
        comparison(letters, previous) == LetterComparison::GreaterByOne,
        forall|other: int| one_more(letters, previous, other) ==> other == letter,
{
    assert(!some_less(letters, previous));
    assert(!same_hand(letters, previous));
}

/// With the hand of the last game, `start` answers with the board of the
/// last game, marked as it was when it was answered, without a job, and
/// leaves the last game as it is.
pub proof fn lemma_same_hand_is_answered_from_the_last_game(
    before: Session,
    after: Session,
    step: Step,
    dicts: &Dictionaries,
    letters: Seq<usize>,
    workers: usize,
)
    requires
        before.last_game is Some,
        before.last_game->0.letters@ == letters,
        is_start(before, after, step, dicts, letters, workers),
    ensures
        after.last_game == before.last_game,
        step matches Step::Done(Ok(rows)) && board_texts(rows@) == rendered(
            before.last_game->0.board@,
            before.last_game->0.bounds,
            before.last_game->0.marks@,
        ),
{
    lemma_same_hand(letters);
}

/// A hand that was solved by a job is answered with the same rows, marks
/// and all, when it is asked for again, and the last game stays as it is.
pub proof fn lemma_solving_again_gives_the_same_board(
    before: Session,
    solved: Session,
    after: Session,
    first: Step,
    second: Step,
    job: Job,
    found: Found,
    workers: usize,
    workers_again: usize,
)
    requires
        is_finish(before, solved, first, job, Some(found), workers),
        is_start(solved, after, second, job.dicts, job.letters@, workers_again),
    ensures
        after.last_game == solved.last_game,
        first matches Step::Done(Ok(rows)) && second matches Step::Done(Ok(rows_again)) && board_texts(
            rows_again@,
        ) == board_texts(rows@),
{
    lemma_same_hand(job.letters@);
}

/// A hand that `start` has answered with a board, from the last game or by
/// laying one more tile, is answered with the same rows, marks and all, when
/// it is asked for again, and the last game stays as it is.
pub proof fn lemma_asking_again_gives_the_same_board(
    before: Session,
    between: Session,
    after: Session,
    first: Step,
    second: Step,
    dicts: &Dictionaries,
    letters: Seq<usize>,
    workers: usize,
    workers_again: usize,
)
    requires
        is_start(before, between, first, dicts, letters, workers),
        first matches Step::Done(Ok(_)),
        is_start(between, after, second, dicts, letters, workers_again),
    ensures
        after.last_game == between.last_game,
        first matches Step::Done(Ok(rows)) && second matches Step::Done(Ok(rows_again)) && board_texts(
            rows_again@,
        ) == board_texts(rows@),
{
    lemma_same_hand(letters);
    let game = before.last_game->0;
    if before.last_game is Some && comparison(letters, game.letters@) == LetterComparison::Same {
        assert(between.last_game == before.last_game);
    }
}

/// With one tile more than the hand of the last game, and a cell of the
/// board that takes the tile, `start` answers at once: no job is handed out,
/// so no search is made. The hand of the last game is then the new hand.
pub proof fn lemma_one_more_tile_needs_no_search(
    before: Session,
    after: Session,
    step: Step,
    dicts: &Dictionaries,
    letters: Seq<usize>,
    workers: usize,
    letter: int,
    row: int,
    col: int,
)
    requires
        before.last_game is Some,
        one_more(letters, before.last_game->0.letters@, letter),
        accepts(before.last_game->0.board@, makeable_set(dicts.short@, letters), letter as usize, row, col),
        is_start(before, after, step, dicts, letters, workers),
    ensures
        step matches Step::Done(Ok(_)),
        after.last_game matches Some(game) && game.letters@ == letters,
{
    let previous = before.last_game->0.letters@;
    lemma_one_more(letters, previous, letter);
    let chosen = choose|chosen: int| one_more(letters, previous, chosen);
    assert(chosen == letter);
}

/// With fewer tiles of some letter than the hand of the last game, `start`
/// gives the board of the last game up: the board is rebuilt from nothing.
/// The last game itself stays until a new board is found, and the job holds
/// its board only to mark the letters that the new board inherits.
pub proof fn lemma_fewer_tiles_give_the_board_up(
    before: Session,
    after: Session,
    step: Step,
    dicts: &Dictionaries,
    letters: Seq<usize>,
    workers: usize,
)
    requires
        before.last_game is Some,
        some_less(letters, before.last_game->0.letters@),
        is_start(before, after, step, dicts, letters, workers),
    ensures
        after.last_game == before.last_game,
        is_rebuild_plan(step, dicts, letters, before.settings.use_long_dictionary, before.settings, workers),
        step matches Step::Run(job) ==> job.kind == JobKind::Rebuild && holds_last_board(
            job,
            before.last_game->0,
        ),
{
}

/// A hand of one tile has at most one tile of each letter, and a tile of
/// one letter only.
proof fn lemma_single_tile(hand: Seq<usize>, n: int)
    requires
        0 <= n <= 26 <= hand.len(),
        sum_to(hand, n) <= 1,
    ensures
        forall|l: int| 0 <= l < n ==> hand[l] <= 1,
        forall|a: int, b: int| 0 <= a < b < n ==> hand[a] == 0 || hand[b] == 0,
    decreases n,
{
    if n > 0 {
        lemma_single_tile(hand, n - 1);
        if hand[n - 1] > 0 {
            crate::hand::lemma_sum_to_zero(hand, n - 1);
        }
    }
}

/// A word of two or more letters cannot be made from a hand of one tile.
pub proof fn lemma_one_tile_makes_no_word(word: Seq<usize>, hand: Seq<usize>)
    requires
        hand.len() == 26,
        hand_total(hand) == 1,
        word.len() >= 2,
        word[0] < 26,
        word[1] < 26,
    ensures
        !makeable(word, hand),
{
    lemma_single_tile(hand, 26);
    let a = word[0];
    let b = word[1];
    let start = word.take(2);
    assert(start =~= Seq::<usize>::empty().push(a).push(b));
    crate::hand::lemma_tally_empty(a);
    crate::hand::lemma_tally_empty(b);
    lemma_tally_push(Seq::<usize>::empty(), a, a);
    lemma_tally_push(Seq::<usize>::empty(), a, b);
    lemma_tally_push(Seq::<usize>::empty().push(a), b, a);
    lemma_tally_push(Seq::<usize>::empty().push(a), b, b);
    lemma_tally_take_le(word, 2, a);
    lemma_tally_take_le(word, 2, b);
    if makeable(word, hand) {
        assert(tally(word, a) <= hand[a as int]);
        assert(tally(word, b) <= hand[b as int]);
        if a != b {
            if a < b {
                assert(hand[a as int] == 0 || hand[b as int] == 0);
            } else {
                assert(hand[b as int] == 0 || hand[a as int] == 0);
            }
        }
    }
}

/// Where no word of the dictionaries has fewer than two letters, a hand of
/// one tile, in a session without a last game, has no valid words.
pub proof fn lemma_one_tile_has_no_valid_words(
    before: Session,
    after: Session,
    step: Step,
    dicts: &Dictionaries,
    letters: Seq<usize>,
    workers: usize,
)
    requires
        dicts.wf(),
        forall|i: int| 0 <= i < dicts.short@.len() ==> (#[trigger] dicts.short@[i])@.len() >= 2,
        forall|i: int| 0 <= i < dicts.long@.len() ==> (#[trigger] dicts.long@[i])@.len() >= 2,
        letters.len() == 26,
        hand_total(letters) == 1,
        before.last_game is None,
        is_start(before, after, step, dicts, letters, workers),
    ensures
        step matches Step::Done(Err(SolveError::NoValidWords)),
        after.last_game is None,
{
    let dict = if before.settings.use_long_dictionary {
        dicts.long@
    } else {
        dicts.short@
    };
    let views = dict.map_values(|w: Word| w@);
    let can = |w: Seq<usize>| makeable(w, letters);
    let words = makeable_of(dict, letters);
    if words.len() > 0 {
        views.lemma_filter_pred(can, 0);
        assert(views.filter(can).contains(words[0]));
        views.lemma_filter_contains_rev(can, words[0]);
        let i = choose|i: int| 0 <= i < views.len() && views[i] == words[0];
        assert(dict[i]@.len() >= 2);
        assert(is_word(dict[i]@));
        lemma_one_tile_makes_no_word(dict[i]@, letters);
    }
}

} // verus!
