//! The session: the last solved board, the settings, and the steps of a solve.
//!
//! A solve goes in steps. `Session::start` looks at the hand and at the last
//! solved board and either answers at once or hands out a job. A job is a
//! list of shares of first words; the caller runs `Job::run_shard` on each
//! share, on as many threads as it likes, and gives the first board that a
//! share found, or none, to `Session::finish`. That answers, or hands out the
//! next job.

use vstd::prelude::*;
use std::sync::atomic::AtomicBool;
use crate::alphabet::{is_word, Letters, Word};
use crate::board::{grid_index, Board};
use crate::bounds::Bounds;
use crate::dictionary::{all_words_ok, Dictionaries};
use crate::driver::{
    is_dealt, is_handed_in, is_solution, makeable_of, makeable_words, no_seed_fits, run_shard,
    shard_count, shard_words, views_of,
};
use crate::filters::passes_first;
use crate::hand::{
    compare_letters, comparison, lemma_tally_le_len, makeable, one_more, tally, LetterComparison,
};
use crate::incremental::{
    accepts, comes_before, lemma_one_letter_step, nothing_to_play, play_existing, play_one_letter,
};
use crate::usage::letters_off_board;
use crate::input::SolveError;
use crate::line::Direction;
use crate::render::{board_texts, board_to_vec, get_board_overlap, overlap, rendered};
use crate::runs::board_valid;
use crate::search::{extends, lemma_board_valid_grows, search_ready, solves, words_ok};
use crate::wordset::{words_of, words_of_refs, CellSet, WordSet};

verus! {

/// The current settings.
#[derive(Clone, Copy, PartialEq, Eq, Structural, Debug)]
pub struct CurrentSettings {
    /// Number of letters on the board that can be used in a word when the
    /// words to try are filtered (a higher number filters out fewer words).
    pub filter_letters_on_board: usize,
    /// Maximum number of words to check before a search is stopped.
    pub maximum_words_to_check: usize,
    /// Whether to use the long dictionary or the short one.
    pub use_long_dictionary: bool,
}

impl Default for CurrentSettings {
    /// The settings of a new session.
    fn default() -> (settings: CurrentSettings)
        ensures
            settings == (CurrentSettings {
                filter_letters_on_board: 2,
                maximum_words_to_check: 50_000,
                use_long_dictionary: false,
            }),
    {
        CurrentSettings {
            filter_letters_on_board: 2,
            maximum_words_to_check: 50_000,
            use_long_dictionary: false,
        }
    }
}

/// The previous game state.
pub struct GameState {
    /// The previous board.
    pub board: Board,
    /// The bounds of the letters of the board.
    pub bounds: Bounds,
    /// The hand that the board was made from.
    pub letters: Letters,
    /// The cells of the board that were marked when the board was answered:
    /// those in which the board before it held the same letter.
    pub marks: CellSet,
}

/// A board that a share of a job has found, with its bounds.
pub struct Found {
    /// The board.
    pub board: Board,
    /// The bounds of the letters of the board.
    pub bounds: Bounds,
}

/// What the workers of a job do.
#[derive(Clone, Copy, PartialEq, Eq, Structural, Debug)]
pub enum JobKind {
    /// Play the new tiles onto the previous board.
    Extend,
    /// Build a board from nothing.
    Rebuild,
}

/// A piece of work for the caller: shares of words for workers to try.
pub struct Job<'a> {
    /// What the workers do.
    pub kind: JobKind,
    /// Whether the words of the job come from the long dictionary.
    pub long: bool,
    /// The dictionaries.
    pub dicts: &'a Dictionaries,
    /// The hand to solve.
    pub letters: Letters,
    /// The tiles to play: for a rebuild the hand, else the tiles of the hand
    /// that are not on the previous board.
    pub hand_letters: Letters,
    /// The count of the letters on the previous board, for a job that extends it.
    pub letters_on_board: Letters,
    /// The previous board and its bounds, if there is one.
    pub previous: Option<(Board, Bounds)>,
    /// The words to try.
    pub valid_words_vec: Vec<&'a Word>,
    /// The words that a run on the board may spell.
    pub valid_words_set: WordSet,
    /// The words to try first, dealt into shares.
    pub shards: Vec<Vec<&'a Word>>,
    /// The setting of the same name, as it was when the job was made.
    pub filter_letters_on_board: usize,
    /// The setting `maximum_words_to_check`, as it was when the job was made.
    pub max_words_to_check: usize,
}

/// The next step of a solve.
pub enum Step<'a> {
    /// The solve has ended: with the rows of the board, or with an error.
    Done(Result<Vec<Vec<String>>, SolveError>),
    /// The caller is to run the shares of the job and to hand what they find to `finish`.
    Run(Job<'a>),
}

/// The session: the last game and the settings.
pub struct Session {
    /// The last game state (if `None`, no game has been solved since the last reset).
    pub last_game: Option<GameState>,
    /// The settings.
    pub settings: CurrentSettings,
}

/// The words of the list that can be made from the hand.
pub open spec fn makeable_set(dict: Seq<Word>, hand: Seq<usize>) -> Set<Seq<usize>> {
    Set::new(|w: Seq<usize>| words_of(dict).contains(w) && makeable(w, hand))
}

/// Every word of every share consists of letters.
pub open spec fn shards_ok(shards: Seq<Vec<&Word>>) -> bool {
    forall|j: int| 0 <= j < shards.len() ==> words_ok((#[trigger] shards[j])@)
}

/// Every word of every share is in the set and can be made from the hand.
pub open spec fn shards_are_seeds(shards: Seq<Vec<&Word>>, dict: Set<Seq<usize>>, hand: Seq<usize>) -> bool {
    forall|j: int, m: int|
        0 <= j < shards.len() && 0 <= m < shards[j]@.len() ==> dict.contains((#[trigger] shards[j]@[m])@)
            && makeable(shards[j]@[m]@, hand)
}

impl GameState {
    /// The board is a solution of the hand, with respect to the words of the dictionaries.
    pub open spec fn wf(&self, dicts: &Dictionaries) -> bool {
        self.board.wf() && is_solution(self.board@, dicts.all_words(), self.letters@, self.bounds)
    }
}

impl<'a> Job<'a> {
    /// The job is one that `Session` has handed out.
    pub open spec fn wf(&self) -> bool {
        &&& self.dicts.wf()
        &&& words_ok(self.valid_words_vec@)
        &&& shards_ok(self.shards@)
        &&& self.valid_words_set@.subset_of(self.dicts.all_words())
        &&& self.previous matches Some(pair) ==> pair.0.wf() && pair.1.wf()
        &&& self.kind == JobKind::Rebuild ==> shards_are_seeds(
            self.shards@,
            self.valid_words_set@,
            self.letters@,
        )
        &&& self.kind == JobKind::Extend ==> {
            &&& self.previous matches Some(pair)
            &&& search_ready(pair.0@, self.letters_on_board@, pair.1)
            &&& board_valid(pair.0@, self.dicts.all_words())
            &&& forall|l: usize|
                l < 26 ==> self.hand_letters@[l as int] + #[trigger] tally(pair.0@, l)
                    == self.letters@[l as int]
        }
    }

    /// The board is a solution of the hand of the job.
    pub open spec fn admits(&self, found: Found) -> bool {
        found.board.wf() && is_solution(found.board@, self.dicts.all_words(), self.letters@, found.bounds)
    }

    /// The share `index` of the job gives nothing, whatever the other workers
    /// do: in a job that rebuilds the board, no word of the share can be laid
    /// as a first word; in a job that extends the board, no word of the share
    /// can be played on it.
    pub open spec fn gives_nothing(&self, index: int) -> bool {
        match self.kind {
            JobKind::Rebuild => no_seed_fits(self.shards@[index]@),
            JobKind::Extend => self.previous matches Some(pair) && nothing_to_play(
                self.shards@[index]@,
                pair.0@,
                self.letters_on_board@,
                self.valid_words_set@,
                self.hand_letters@,
            ),
        }
    }

    /// What a board that the share `index` hands in looks like. In a job
    /// that rebuilds the board, it holds a word of the share as its first
    /// word, in the middle row; and where the first word of the share that
    /// can be laid uses up the hand, it holds that word and nothing else. In
    /// a job that extends the board, it holds every letter of the board
    /// before in its cell.
    pub open spec fn hands_in(&self, index: int, found: Found) -> bool {
        match self.kind {
            JobKind::Rebuild => is_handed_in(self.shards@[index]@, self.letters@, found.board@, found.bounds),
            JobKind::Extend => self.previous matches Some(pair) && extends(pair.0@, found.board@),
        }
    }

    /// The number of shares of the job.
    pub fn shard_total(&self) -> (n: usize)
        ensures
            n == self.shards@.len(),
    {
        self.shards.len()
    }

    /// Works through the share `index` of the job. Returns the board that the
    /// share has found, if it has found one; the stop flag is then set. A share
    /// of which no word can be played gives nothing. In a job that rebuilds the
    /// board, a share whose first word uses up the hand hands in that word
    /// alone, in the middle row, or nothing.
    pub fn run_shard(&self, index: usize, stop: &AtomicBool) -> (found: Option<Found>)
        requires
            self.wf(),
            index < self.shards@.len(),
        ensures
            found matches Some(f) ==> self.admits(f) && self.hands_in(index as int, f),
            self.gives_nothing(index as int) ==> found is None,
    {
        let chunk = &self.shards[index];
        assert(words_ok(chunk@));
        match self.kind {
            JobKind::Rebuild => {
                assert forall|i: int| 0 <= i < chunk@.len() implies self.valid_words_set@.contains(
                    (#[trigger] chunk@[i])@,
                ) && makeable(chunk@[i]@, self.letters@) by {
                    assert(chunk@[i] == self.shards@[index as int]@[i]);
                }
                let res = run_shard(
                    chunk,
                    &self.valid_words_vec,
                    &self.valid_words_set,
                    &self.letters,
                    self.filter_letters_on_board,
                    self.max_words_to_check,
                    stop,
                );
                match res {
                    Some((board, bounds)) => {
                        proof {
                            lemma_board_valid_grows(
                                board@,
                                self.valid_words_set@,
                                self.dicts.all_words(),
                            );
                        }
                        Some(Found { board, bounds })
                    },
                    None => None,
                }
            },
            JobKind::Extend => {
                match &self.previous {
                    Some((old_board, old_bounds)) => {
                        let res = play_existing(
                            chunk,
                            old_board,
                            *old_bounds,
                            &self.valid_words_vec,
                            &self.valid_words_set,
                            self.hand_letters,
                            self.letters_on_board,
                            self.filter_letters_on_board,
                            self.max_words_to_check,
                            stop,
                        );
                        match res {
                            Some((board, bounds)) => {
                                proof {
                                    let on_board = choose|on_board: Seq<usize>| #[trigger]
                                        solves(
                                            old_board@,
                                            board@,
                                            on_board,
                                            self.valid_words_set@,
                                            self.hand_letters@,
                                            bounds,
                                        );
                                    assert(board_valid(old_board@, self.dicts.all_words()));
                                    assert(board_valid(board@, self.dicts.all_words()));
                                    assert forall|l: usize| l < 26 implies #[trigger] tally(board@, l)
                                        == self.letters@[l as int] by {
                                        assert(self.hand_letters@[l as int] + tally(old_board@, l)
                                            == self.letters@[l as int]);
                                    }
                                }
                                Some(Found { board, bounds })
                            },
                            None => None,
                        }
                    },
                    None => None,
                }
            },
        }
    }
}

/// The number of shares for a number of workers and a number of words: one
/// for each worker, but no more than there are words. No worker counts as one.
pub open spec fn share_total(workers: usize, words: nat) -> int {
    let wanted = if workers == 0 {
        1
    } else {
        workers as int
    };
    if wanted < words {
        wanted
    } else {
        words as int
    }
}

/// What a plan to rebuild the board comes to: an error if no word of the
/// dictionary can be made from the hand, else a job whose words are the
/// words of the dictionary that can be made from the hand, dealt into as
/// many shares as there are workers, but no more than there are words.
pub open spec fn is_rebuild_plan(
    step: Step,
    dicts: &Dictionaries,
    letters: Seq<usize>,
    long: bool,
    settings: CurrentSettings,
    workers: usize,
) -> bool {
    let dict = if long {
        dicts.long@
    } else {
        dicts.short@
    };
    let words = makeable_of(dict, letters);
    match step {
        Step::Done(res) => words.len() == 0 && res == Err::<Vec<Vec<String>>, SolveError>(
            SolveError::NoValidWords,
        ),
        Step::Run(job) => {
            &&& words.len() > 0
            &&& job.wf()
            &&& job.kind == JobKind::Rebuild
            &&& job.long == long
            &&& job.dicts == dicts
            &&& job.letters@ == letters
            &&& job.hand_letters@ == letters
            &&& views_of(job.valid_words_vec@) == words
            &&& job.valid_words_set@ == makeable_set(dict, letters)
            &&& job.shards@.len() > 0
            &&& is_dealt(job.valid_words_vec@, share_total(workers, words.len()), job.shards@)
            &&& job.filter_letters_on_board == settings.filter_letters_on_board
            &&& job.max_words_to_check == settings.maximum_words_to_check
        },
    }
}

/// Plans to build a board from nothing, with the words of one dictionary.
pub fn plan_rebuild<'a>(
    dicts: &'a Dictionaries,
    letters: &Letters,
    long: bool,
    previous: Option<(Board, Bounds)>,
    settings: CurrentSettings,
    workers: usize,
) -> (step: Step<'a>)
    requires
        dicts.wf(),
        previous matches Some(pair) ==> pair.0.wf() && pair.1.wf(),
    ensures
        is_rebuild_plan(step, dicts, letters@, long, settings, workers),
        step matches Step::Run(job) ==> job.previous == previous,
{
    let dict_to_use = dicts.active(long);
    // Get a vector of all valid words
    let valid_words_vec = makeable_words(dict_to_use, letters);
    if valid_words_vec.len() == 0 {
        proof {
            assert(views_of(valid_words_vec@).len() == 0);
        }
        return Step::Done(Err(SolveError::NoValidWords));
    }
    proof {
        assert(views_of(valid_words_vec@).len() == valid_words_vec@.len());
    }
    let valid_words_set = WordSet::from_refs(&valid_words_vec);
    // Split the words to check up into shares, one for each worker
    let parts = shard_count(if workers == 0 {
        1
    } else {
        workers
    }, valid_words_vec.len());
    let shards = shard_words(&valid_words_vec, parts);
    proof {
        let words = valid_words_vec@;
        let n = words.len() as int;
        assert forall|w: Seq<usize>| valid_words_set@.contains(w) == makeable_set(
            dict_to_use@,
            letters@,
        ).contains(w) by {
            if valid_words_set@.contains(w) {
                let k = choose|k: int| 0 <= k < words.len() && (#[trigger] words[k])@ == w;
                assert(makeable(words[k]@, letters@));
            }
            if makeable_set(dict_to_use@, letters@).contains(w) {
                let i = choose|i: int| 0 <= i < dict_to_use@.len() && #[trigger] dict_to_use@[i]@ == w;
                let views = dict_to_use@.map_values(|w: Word| w@);
                let can = |w: Seq<usize>| makeable(w, letters@);
                assert(views[i] == w);
                views.lemma_filter_contains(can, i);
                let k = choose|k: int| 0 <= k < views_of(words).len() && views_of(words)[k] == w;
                assert(words[k]@ == w);
            }
        }
        assert(valid_words_set@ =~= makeable_set(dict_to_use@, letters@));
        assert forall|j: int, m: int| 0 <= j < shards@.len() && 0 <= m < shards@[j]@.len() implies is_word(
            (#[trigger] shards@[j]@[m])@,
        ) && valid_words_set@.contains(shards@[j]@[m]@) && makeable(shards@[j]@[m]@, letters@) by {
            let len = shards@[j]@.len() as int;
            assert((len - 1) * parts + j < n);
            assert(m * parts <= (len - 1) * parts) by (nonlinear_arith)
                requires
                    0 <= m <= len - 1,
                    parts >= 0,
            ;
            assert(0 <= m * parts) by (nonlinear_arith)
                requires
                    0 <= m,
                    parts >= 0,
            ;
            let k = m * parts + j;
            assert(shards@[j]@[m] == words[k]);
            assert(is_word(words[k]@));
            assert(makeable(words[k]@, letters@));
        }
        assert forall|j: int| 0 <= j < shards@.len() implies words_ok((#[trigger] shards@[j])@) by {
            assert forall|m: int| 0 <= m < shards@[j]@.len() implies is_word((#[trigger] shards@[j]@[m])@) by {}
        }
        assert forall|w: Seq<usize>| valid_words_set@.contains(w) implies dicts.all_words().contains(w) by {
            assert(words_of(dict_to_use@).contains(w));
        }
    }
    Step::Run(
        Job {
            kind: JobKind::Rebuild,
            long,
            dicts,
            letters: *letters,
            hand_letters: *letters,
            letters_on_board: [0usize;26],
            previous,
            valid_words_vec,
            valid_words_set,
            shards,
            filter_letters_on_board: settings.filter_letters_on_board,
            max_words_to_check: settings.maximum_words_to_check,
        },
    )
}

/// The references to the words of a list, in their order.
pub fn word_refs<'a>(dict: &'a Vec<Word>) -> (refs: Vec<&'a Word>)
    requires
        all_words_ok(dict@),
    ensures
        refs@.len() == dict@.len(),
        forall|i: int| 0 <= i < refs@.len() ==> *(#[trigger] refs@[i]) == dict@[i],
        words_ok(refs@),
{
    let mut refs: Vec<&Word> = Vec::with_capacity(dict.len());
    let mut i: usize = 0;
    while i < dict.len()
        invariant
            i <= dict.len(),
            all_words_ok(dict@),
            refs@.len() == i,
            forall|k: int| 0 <= k < i ==> *(#[trigger] refs@[k]) == dict@[k],
            words_ok(refs@),
        decreases dict.len() - i,
    {
        refs.push(&dict[i]);
        i += 1;
    }
    refs
}

/// The cells of a new board that are marked as taken over from the board before.
pub open spec fn marks(previous: Option<(Board, Bounds)>, board: Seq<usize>, bounds: Bounds) -> Set<
    (usize, usize),
> {
    match previous {
        Some(pair) => overlap(pair.0@, board, pair.1, bounds),
        None => Set::empty(),
    }
}

/// The tiles of the hand that are not on the board.
pub open spec fn tiles_to_play(board: Seq<usize>, hand: Seq<usize>) -> Seq<usize> {
    Seq::new(26, |l: int| (hand[l] - tally(board, l as usize)) as usize)
}

/// The letters that are on the board.
pub open spec fn letters_played(board: Seq<usize>) -> Set<usize> {
    Set::new(|l: usize| l < 26 && tally(board, l) > 0)
}

/// The words of the list that can be formed from the tiles that are not on
/// the board and at most one letter of the board, in their order.
pub open spec fn extension_words(dict: Seq<Word>, board: Seq<usize>, hand: Seq<usize>) -> Seq<Seq<usize>> {
    dict.map_values(|w: Word| w@).filter(
        |w: Seq<usize>| passes_first(tiles_to_play(board, hand), w, letters_played(board)),
    )
}

/// The job holds the board of the game and its bounds as the board before:
/// the board to mark the inherited letters by and, in a job that extends the
/// board, the board to play onto.
pub open spec fn holds_last_board(job: Job, game: GameState) -> bool {
    job.previous matches Some(pair) && pair.0@ == game.board@ && pair.1 == game.bounds
}

/// What a plan to extend the board comes to: if no word of the dictionary
/// can be formed from the new tiles and one letter of the board, a plan to
/// rebuild the board; else a job that plays the new tiles onto the board,
/// with those words dealt into shares, and with the set `allowed` for the
/// words that a run may spell. Either job holds the board of the game as the
/// board before.
pub open spec fn is_extend_plan(
    step: Step,
    dicts: &Dictionaries,
    letters: Seq<usize>,
    game: GameState,
    allowed: Set<Seq<usize>>,
    settings: CurrentSettings,
    workers: usize,
) -> bool {
    let long = settings.use_long_dictionary;
    let dict = if long {
        dicts.long@
    } else {
        dicts.short@
    };
    let words = extension_words(dict, game.board@, letters);
    if words.len() == 0 {
        &&& is_rebuild_plan(step, dicts, letters, long, settings, workers)
        &&& step matches Step::Run(job) ==> holds_last_board(job, game)
    } else {
        &&& step matches Step::Run(job)
        &&& holds_last_board(job, game)
        &&& job.wf()
        &&& job.kind == JobKind::Extend
        &&& job.long == long
        &&& job.dicts == dicts
        &&& job.letters@ == letters
        &&& job.hand_letters@ == tiles_to_play(game.board@, letters)
        &&& views_of(job.valid_words_vec@) == words
        &&& job.valid_words_set@ == allowed
        &&& is_dealt(job.valid_words_vec@, share_total(workers, words.len()), job.shards@)
        &&& job.filter_letters_on_board == settings.filter_letters_on_board
        &&& job.max_words_to_check == settings.maximum_words_to_check
    }
}

/// Plans to play the new tiles of the hand onto the board of the last game.
pub fn plan_extend<'a>(
    dicts: &'a Dictionaries,
    letters: &Letters,
    game: &GameState,
    valid_words_set: WordSet,
    settings: CurrentSettings,
    workers: usize,
) -> (step: Step<'a>)
    requires
        dicts.wf(),
        game.wf(dicts),
        valid_words_set@.subset_of(dicts.all_words()),
        forall|l: int| 0 <= l < 26 ==> letters@[l] >= game.letters@[l],
    ensures
        is_extend_plan(step, dicts, letters@, *game, valid_words_set@, settings, workers),
        step matches Step::Run(job) ==> job.previous matches Some(pair) && pair.0@ == game.board@
            && pair.1 == game.bounds,
{
    let long = settings.use_long_dictionary;
    let previous = (game.board.clone(), game.bounds);
    let prepared = letters_off_board(&game.board, game.bounds, letters);
    proof {
        if prepared is None {
            let l = choose|l: usize| l < 26 && #[trigger] tally(game.board@, l) > letters@[l as int];
            assert(tally(game.board@, l) == game.letters@[l as int]);
        }
    }
    match prepared {
        Some((hand_letters, old_letters_on_board, played_on_board)) => {
            let dict_to_use = dicts.active(long);
            let refs = word_refs(dict_to_use);
            let tried = WordSet::new();
            let valid_words_vec = crate::driver::filter_words_first(
                &refs,
                hand_letters,
                &played_on_board,
                &tried,
            );
            proof {
                let board = game.board@;
                let hand = tiles_to_play(board, letters@);
                assert(hand_letters@ =~= hand);
                let played = letters_played(board);
                let pass = |w: &Word| passes_first(hand_letters@, w@, played_on_board@) && !tried@.contains(w@);
                let pass2 = |w: Seq<usize>| passes_first(hand, w, played);
                assert forall|w: Seq<usize>| passes_first(hand, w, played_on_board@) == passes_first(
                    hand,
                    w,
                    played,
                ) by {
                    assert forall|l: usize| l < 26 implies (played_on_board@.contains(l)
                        <==> played.contains(l)) by {
                        assert(played_on_board@.contains(l) <==> tally(board, l) > 0);
                    }
                }
                lemma_filter_views(refs@, dict_to_use@, pass, pass2);
            }
            if valid_words_vec.len() == 0 {
                return plan_rebuild(dicts, letters, long, Some(previous), settings, workers);
            }
            let parts = shard_count(if workers == 0 {
                1
            } else {
                workers
            }, valid_words_vec.len());
            let shards = shard_words(&valid_words_vec, parts);
            proof {
                let words = valid_words_vec@;
                let n = words.len() as int;
                assert forall|j: int| 0 <= j < shards@.len() implies words_ok((#[trigger] shards@[j])@) by {
                    assert forall|m: int| 0 <= m < shards@[j]@.len() implies is_word(
                        (#[trigger] shards@[j]@[m])@,
                    ) by {
                        let len = shards@[j]@.len() as int;
                        assert((len - 1) * parts + j < n);
                        assert(m * parts <= (len - 1) * parts) by (nonlinear_arith)
                            requires
                                0 <= m <= len - 1,
                                parts >= 0,
                        ;
                        assert(0 <= m * parts) by (nonlinear_arith)
                            requires
                                0 <= m,
                                parts >= 0,
                        ;
                        let k = m * parts + j;
                        assert(shards@[j]@[m] == words[k]);
                        assert(is_word(words[k]@));
                    }
                }
            }
            Step::Run(
                Job {
                    kind: JobKind::Extend,
                    long,
                    dicts,
                    letters: *letters,
                    hand_letters,
                    letters_on_board: old_letters_on_board,
                    previous: Some(previous),
                    valid_words_vec,
                    valid_words_set,
                    shards,
                    filter_letters_on_board: settings.filter_letters_on_board,
                    max_words_to_check: settings.maximum_words_to_check,
                },
            )
        },
        None => Step::Done(Err(SolveError::NoSolution)),
    }
}

/// Filtering a list of references by a test on the words is filtering the
/// words of the list by the same test.
pub proof fn lemma_filter_views(
    refs: Seq<&Word>,
    dict: Seq<Word>,
    pass: spec_fn(&Word) -> bool,
    pass_view: spec_fn(Seq<usize>) -> bool,
)
    requires
        refs.len() == dict.len(),
        forall|i: int| 0 <= i < refs.len() ==> *(#[trigger] refs[i]) == dict[i],
        forall|w: &Word| #[trigger] pass(w) == pass_view(w@),
    ensures
        views_of(refs.filter(pass)) == dict.map_values(|w: Word| w@).filter(pass_view),
    decreases refs.len(),
{
    reveal(Seq::filter);
    let view = |w: Word| w@;
    if refs.len() == 0 {
        assert(views_of(refs.filter(pass)) =~= Seq::<Seq<usize>>::empty());
        assert(dict.map_values(view).filter(pass_view) =~= Seq::<Seq<usize>>::empty());
    } else {
        lemma_filter_views(refs.drop_last(), dict.drop_last(), pass, pass_view);
        assert(dict.map_values(view).drop_last() =~= dict.drop_last().map_values(view));
        assert(dict.map_values(view).last() == refs.last()@);
        assert(pass(refs.last()) == pass_view(refs.last()@));
        if pass(refs.last()) {
            assert(views_of(refs.drop_last().filter(pass).push(refs.last())) =~= views_of(
                refs.drop_last().filter(pass),
            ).push(refs.last()@));
        }
    }
}

impl Session {
    /// The board of the last game, if there is one, is a solution of its hand.
    pub open spec fn wf(&self, dicts: &Dictionaries) -> bool {
        self.last_game matches Some(game) ==> game.wf(dicts)
    }

    /// A session without a last game, with the settings of a new session.
    pub fn new() -> (session: Session)
        ensures
            session.last_game is None,
            session.settings == (CurrentSettings {
                filter_letters_on_board: 2,
                maximum_words_to_check: 50_000,
                use_long_dictionary: false,
            }),
    {
        Session {
            last_game: None,
            settings: CurrentSettings {
                filter_letters_on_board: 2,
                maximum_words_to_check: 50_000,
                use_long_dictionary: false,
            },
        }
    }

    /// Forgets the last game.
    pub fn reset(&mut self)
        ensures
            final(self).last_game is None,
            final(self).settings == old(self).settings,
    {
        self.last_game = None;
    }

    /// Gets the current settings.
    pub fn get_settings(&self) -> (settings: CurrentSettings)
        ensures
            settings == self.settings,
    {
        self.settings
    }

    /// Updates the settings.
    pub fn set_settings(
        &mut self,
        filter_letters_on_board: usize,
        maximum_words_to_check: usize,
        use_long_dictionary: bool,
    )
        ensures
            final(self).settings == (CurrentSettings {
                filter_letters_on_board,
                maximum_words_to_check,
                use_long_dictionary,
            }),
            final(self).last_game == old(self).last_game,
    {
        self.settings = CurrentSettings {
            filter_letters_on_board,
            maximum_words_to_check,
            use_long_dictionary,
        };
    }
}

/// The first cell, reading row by row, that takes the letter.
pub open spec fn is_first_accepting(
    g: Seq<usize>,
    dict: Set<Seq<usize>>,
    letter: usize,
    row: int,
    col: int,
) -> bool {
    &&& accepts(g, dict, letter, row, col)
    &&& forall|r: int, c: int| comes_before(r, c, row, col) ==> !#[trigger] accepts(g, dict, letter, r, c)
}

/// What `start` does with a hand, given the last game.
///
/// Without a last game, the board is rebuilt. With the hand of the last
/// game, the answer is the board of the last game, marked as it was when it
/// was answered. With a hand that has
/// fewer tiles of some letter, the board of the last game is given up and the
/// board is rebuilt. With a hand that has one tile more, the tile is laid
/// into the first cell that takes it; if no cell does, or if the hand has
/// grown by more than one tile, the new tiles are played onto the board.
pub open spec fn is_start(
    before: Session,
    after: Session,
    step: Step,
    dicts: &Dictionaries,
    letters: Seq<usize>,
    workers: usize,
) -> bool {
    let settings = before.settings;
    let long = settings.use_long_dictionary;
    let dict = if long {
        dicts.long@
    } else {
        dicts.short@
    };
    &&& after.settings == settings
    &&& match before.last_game {
        None => {
            &&& after.last_game is None
            &&& is_rebuild_plan(step, dicts, letters, long, settings, workers)
            &&& step matches Step::Run(job) ==> job.previous is None
        },
        Some(game) => match comparison(letters, game.letters@) {
            LetterComparison::Same => {
                &&& after.last_game == before.last_game
                &&& step matches Step::Done(Ok(rows))
                &&& board_texts(rows@) == rendered(game.board@, game.bounds, game.marks@)
            },
            LetterComparison::SomeLess => {
                &&& after.last_game == before.last_game
                &&& is_rebuild_plan(step, dicts, letters, long, settings, workers)
                &&& step matches Step::Run(job) ==> holds_last_board(job, game)
            },
            LetterComparison::GreaterByOne => {
                let allowed = makeable_set(dicts.short@, letters);
                let letter = choose|letter: int| one_more(letters, game.letters@, letter);
                if exists|r: int, c: int| #[trigger] accepts(game.board@, allowed, letter as usize, r, c) {
                    &&& step matches Step::Done(Ok(rows))
                    &&& after.last_game matches Some(extended)
                    &&& extended.letters@ == letters
                    &&& exists|r: int, c: int|
                        {
                            &&& #[trigger] is_first_accepting(game.board@, allowed, letter as usize, r, c)
                            &&& extended.board@ == game.board@.update(grid_index(r, c), letter as usize)
                            &&& extended.bounds == game.bounds.widen(
                                Direction::Horizontal,
                                r as usize,
                                c as usize,
                                c as usize,
                            )
                        }
                    &&& extended.marks@ == overlap(
                        game.board@,
                        extended.board@,
                        game.bounds,
                        extended.bounds,
                    )
                    &&& board_texts(rows@) == rendered(extended.board@, extended.bounds, extended.marks@)
                } else {
                    &&& after.last_game == before.last_game
                    &&& is_extend_plan(step, dicts, letters, game, allowed, settings, workers)
                }
            },
            LetterComparison::GreaterByMoreThanOne => {
                &&& after.last_game == before.last_game
                &&& is_extend_plan(step, dicts, letters, game, makeable_set(dict, letters), settings, workers)
            },
        },
    }
}

/// What `finish` does with what the shares of a job have found.
///
/// A board that was found becomes the board of the last game, and its rows
/// are the answer; a letter that lies where the same letter lay on the board
/// before is marked, and the marks are kept with the game. If nothing was
/// found, the last game stays as it is, and the next job holds the same
/// board before as this one:
/// after a job that extends the board, the board is rebuilt; after a job
/// that rebuilds it with the short dictionary, it is rebuilt with the long
/// one; after that, there is no solution.
pub open spec fn is_finish(
    before: Session,
    after: Session,
    step: Step,
    job: Job,
    found: Option<Found>,
    workers: usize,
) -> bool {
    let settings = CurrentSettings {
        filter_letters_on_board: job.filter_letters_on_board,
        maximum_words_to_check: job.max_words_to_check,
        use_long_dictionary: job.long,
    };
    &&& after.settings == before.settings
    &&& match found {
        Some(f) => {
            &&& after.last_game matches Some(game)
            &&& game.board@ == f.board@
            &&& game.bounds == f.bounds
            &&& game.letters@ == job.letters@
            &&& game.marks@ == marks(job.previous, f.board@, f.bounds)
            &&& step matches Step::Done(Ok(rows))
            &&& board_texts(rows@) == rendered(f.board@, f.bounds, game.marks@)
        },
        None => {
            &&& after.last_game == before.last_game
            &&& step matches Step::Run(next) ==> next.previous == job.previous
            &&& match job.kind {
                JobKind::Extend => is_rebuild_plan(step, job.dicts, job.letters@, job.long, settings, workers),
                JobKind::Rebuild => if job.long {
                    step matches Step::Done(Err(SolveError::NoSolution))
                } else {
                    is_rebuild_plan(step, job.dicts, job.letters@, true, settings, workers)
                },
            }
        },
    }
}

/// The rows of a board, with the letters marked that lie where the same
/// letter lay on the board before, and the cells that are marked.
pub fn rows_with_marks(previous: &Option<(Board, Bounds)>, board: &Board, bounds: Bounds) -> (res: (
    Vec<Vec<String>>,
    CellSet,
))
    requires
        board.wf(),
        bounds.wf(),
        previous matches Some(pair) ==> pair.0.wf() && pair.1.wf(),
    ensures
        res.1@ == marks(*previous, board@, bounds),
        board_texts(res.0@) == rendered(board@, bounds, res.1@),
{
    let previous_idxs = match previous {
        Some((old_board, old_bounds)) => get_board_overlap(old_board, board, *old_bounds, bounds),
        None => CellSet::new(),
    };
    let rows = board_to_vec(board, bounds, &previous_idxs);
    (rows, previous_idxs)
}

impl Session {
    /// Begins to solve a hand. Either answers at once, or hands out a job
    /// for `workers` workers.
    pub fn start<'a>(&mut self, dicts: &'a Dictionaries, letters: &Letters, workers: usize) -> (step: Step<
        'a,
    >)
        requires
            dicts.wf(),
            old(self).wf(dicts),
        ensures
            final(self).wf(dicts),
            is_start(*old(self), *final(self), step, dicts, letters@, workers),
    {
        let settings = self.settings;
        let long = settings.use_long_dictionary;
        if self.last_game.is_none() {
            return plan_rebuild(dicts, letters, long, None, settings, workers);
        }
        let prev_state = self.last_game.as_ref().unwrap();
        let (compared, seen_greater) = compare_letters(letters, &prev_state.letters);
        match compared {
            LetterComparison::Same => {
                // The hand is the same: the answer is the last one
                let rows = board_to_vec(&prev_state.board, prev_state.bounds, &prev_state.marks);
                Step::Done(Ok(rows))
            },
            LetterComparison::SomeLess => {
                let previous = (prev_state.board.clone(), prev_state.bounds);
                plan_rebuild(dicts, letters, long, Some(previous), settings, workers)
            },
            LetterComparison::GreaterByOne => {
                // Only a single letter has increased by one: first try just that letter
                let short_words = makeable_words(&dicts.short, letters);
                let valid_words_set = WordSet::from_refs(&short_words);
                let ghost allowed = makeable_set(dicts.short@, letters@);
                let ghost game = *prev_state;
                let ghost letter = choose|letter: int| one_more(letters@, game.letters@, letter);
                proof {
                    lemma_makeable_set(dicts.short@, letters@, short_words@);
                    assert(allowed.subset_of(dicts.all_words()));
                    assert(one_more(letters@, game.letters@, seen_greater as int));
                    if letter != seen_greater {
                        assert(letters@[letter] == game.letters@[letter]);
                    }
                }
                let mut board = prev_state.board.clone();
                let res = play_one_letter(&mut board, prev_state.bounds, seen_greater, &valid_words_set);
                match res {
                    Some((row, col, new_bounds)) => {
                        proof {
                            let g = game.board@;
                            let on_board = Seq::new(26, |l: int| tally(g, l as usize) as usize);
                            assert forall|l: usize| l < 26 implies on_board[l as int] == #[trigger] tally(
                                g,
                                l,
                            ) by {
                                lemma_tally_le_len(g, l);
                            }
                            lemma_one_letter_step(
                                g,
                                on_board,
                                allowed,
                                game.bounds,
                                seen_greater,
                                row,
                                col,
                            );
                            assert(board_valid(g, dicts.all_words()));
                            assert(board_valid(board@, dicts.all_words()));
                            assert(is_first_accepting(g, allowed, seen_greater, row as int, col as int));
                        }
                        let previous = Some((prev_state.board.clone(), prev_state.bounds));
                        let (rows, marks) = rows_with_marks(&previous, &board, new_bounds);
                        self.last_game = Some(
                            GameState { board, bounds: new_bounds, letters: *letters, marks },
                        );
                        Step::Done(Ok(rows))
                    },
                    None => {
                        // Playing one letter failed: try playing off the existing board
                        plan_extend(dicts, letters, prev_state, valid_words_set, settings, workers)
                    },
                }
            },
            LetterComparison::GreaterByMoreThanOne => {
                // The hand has grown by more than one tile: try playing off the existing board
                let dict_to_use = dicts.active(long);
                let words = makeable_words(dict_to_use, letters);
                let valid_words_set = WordSet::from_refs(&words);
                proof {
                    lemma_makeable_set(dict_to_use@, letters@, words@);
                    assert(makeable_set(dict_to_use@, letters@).subset_of(dicts.all_words()));
                }
                plan_extend(dicts, letters, prev_state, valid_words_set, settings, workers)
            },
        }
    }

    /// Ends a job: takes the board that a share of the job has found, or
    /// none if no share has found one. Either answers, or hands out the
    /// next job.
    pub fn finish<'a>(&mut self, job: Job<'a>, found: Option<Found>, workers: usize) -> (step: Step<'a>)
        requires
            old(self).wf(job.dicts),
            job.wf(),
            found matches Some(f) ==> job.admits(f),
        ensures
            final(self).wf(job.dicts),
            is_finish(*old(self), *final(self), step, job, found, workers),
    {
        let settings = CurrentSettings {
            filter_letters_on_board: job.filter_letters_on_board,
            maximum_words_to_check: job.max_words_to_check,
            use_long_dictionary: job.long,
        };
        match found {
            Some(f) => {
                let (rows, marks) = rows_with_marks(&job.previous, &f.board, f.bounds);
                self.last_game = Some(
                    GameState { board: f.board, bounds: f.bounds, letters: job.letters, marks },
                );
                Step::Done(Ok(rows))
            },
            None => {
                match job.kind {
                    JobKind::Extend => plan_rebuild(
                        job.dicts,
                        &job.letters,
                        job.long,
                        job.previous,
                        settings,
                        workers,
                    ),
                    JobKind::Rebuild => {
                        if job.long {
                            Step::Done(Err(SolveError::NoSolution))
                        } else {
                            plan_rebuild(job.dicts, &job.letters, true, job.previous, settings, workers)
                        }
                    },
                }
            },
        }
    }
}

/// The words of a list that holds the words of a dictionary that can be
/// made from the hand are the set of those words.
pub proof fn lemma_makeable_set(dict: Seq<Word>, hand: Seq<usize>, kept: Seq<&Word>)
    requires
        views_of(kept) == makeable_of(dict, hand),
        forall|i: int|
            0 <= i < kept.len() ==> makeable((#[trigger] kept[i])@, hand) && words_of(dict).contains(
                kept[i]@,
            ),
    ensures
        words_of_refs(kept) == makeable_set(dict, hand),
{
    assert forall|w: Seq<usize>| words_of_refs(kept).contains(w) == makeable_set(dict, hand).contains(w) by {
        if words_of_refs(kept).contains(w) {
            let k = choose|k: int| 0 <= k < kept.len() && (#[trigger] kept[k])@ == w;
            assert(makeable(kept[k]@, hand));
        }
        if makeable_set(dict, hand).contains(w) {
            let i = choose|i: int| 0 <= i < dict.len() && #[trigger] dict[i]@ == w;
            let views = dict.map_values(|w: Word| w@);
            let can = |w: Seq<usize>| makeable(w, hand);
            assert(views[i] == w);
            views.lemma_filter_contains(can, i);
            let k = choose|k: int| 0 <= k < views_of(kept).len() && views_of(kept)[k] == w;
            assert(kept[k]@ == w);
        }
    }
    assert(words_of_refs(kept) =~= makeable_set(dict, hand));
}

} // verus!
