use bananagrams_solver::alphabet::{convert_array_to_word, convert_word_to_array, Letters, Word, EMPTY_VALUE};
use bananagrams_solver::board::Board;
use bananagrams_solver::bounds::Bounds;
use bananagrams_solver::dictionary::{load_dictionary, Dictionaries};
use bananagrams_solver::driver::{
    claim_board, clear_first_word, filter_words_first, makeable_words, play_first_word, run_shard,
    shard_count, shard_words,
};
use bananagrams_solver::engine::{plan_rebuild, word_refs, CurrentSettings, JobKind, Session, Step};
use bananagrams_solver::incremental::{play_existing, play_one_letter};
use bananagrams_solver::usage::{check_usage, letters_off_board};
use bananagrams_solver::hand::LetterUsage;
use bananagrams_solver::input::SolveError;
use bananagrams_solver::line::Direction;
use bananagrams_solver::search::{
    filter_words_later, play_further, search_unless_stopped, try_play_word, try_play_word_horizontal,
    try_play_word_vertically, try_word_unless_stopped, SearchOutcome,
};
use bananagrams_solver::stop::{should_stop, signal_stop};
use bananagrams_solver::wordset::{LetterSet, WordSet};
use std::sync::atomic::AtomicBool;

const WORDS: &str = "HI\nHAT\nCAT\nCATS\nHATS\nIT\nITS\nOX\nFOX\nFOXY\n";

fn hand_of(tiles: &str) -> Letters {
    let mut letters = [0usize; 26];
    for letter in convert_word_to_array(tiles) {
        letters[letter] += 1;
    }
    letters
}

fn word(text: &str) -> Word {
    convert_word_to_array(text)
}

fn texts(list: &Vec<&Word>) -> Vec<String> {
    list.iter().map(|w| convert_array_to_word(w)).collect()
}

fn letters_on(board: &Board) -> Letters {
    let mut letters = [0usize; 26];
    for row in 0..144 {
        for col in 0..144 {
            let val = board.get_val(row, col);
            if val != EMPTY_VALUE {
                letters[val] += 1;
            }
        }
    }
    letters
}

/// A board with CAT in the middle row, its bounds and the count of its letters.
fn board_with_cat() -> (Board, Bounds, Letters) {
    let mut board = Board::new();
    let (bounds, _, on_board) = play_first_word(&mut board, &word("CAT"), &hand_of("CAT"));
    (board, bounds, on_board)
}

#[test]
fn stop_flag_is_read_and_set() {
    let stop = AtomicBool::new(false);
    assert!(!should_stop(&stop));
    signal_stop(&stop);
    assert!(should_stop(&stop));
}

#[test]
fn first_word_is_laid_in_the_middle() {
    let mut board = Board::new();
    let (bounds, left, on_board) = play_first_word(&mut board, &word("CATS"), &hand_of("CATSXS"));
    assert_eq!(bounds, Bounds { min_col: 70, max_col: 73, min_row: 72, max_row: 72 });
    assert_eq!(left, hand_of("XS"));
    assert_eq!(on_board, hand_of("CATS"));
    assert_eq!(letters_on(&board), hand_of("CATS"));
    assert_eq!(board.get_val(72, 70), 2);
    assert_eq!(board.get_val(72, 73), 18);
    clear_first_word(&mut board, &word("CATS"));
    assert_eq!(letters_on(&board), hand_of(""));
}

#[test]
fn first_word_of_odd_length_is_laid_in_the_middle() {
    let mut board = Board::new();
    let (bounds, left, _) = play_first_word(&mut board, &word("CAT"), &hand_of("CAT"));
    assert_eq!(bounds, Bounds { min_col: 71, max_col: 73, min_row: 72, max_row: 72 });
    assert_eq!(left, hand_of(""));
    let mut board = Board::new();
    let (bounds, _, _) = play_first_word(&mut board, &word("A"), &hand_of("A"));
    assert_eq!(bounds, Bounds { min_col: 72, max_col: 72, min_row: 72, max_row: 72 });
}

#[test]
fn makeable_words_keep_their_order() {
    let dict = load_dictionary(WORDS.as_bytes());
    assert_eq!(texts(&makeable_words(&dict, &hand_of("CATSH"))), vec!["CATS", "HATS", "HAT", "CAT"]);
    assert_eq!(texts(&makeable_words(&dict, &hand_of("Q"))), Vec::<String>::new());
}

#[test]
fn words_are_dealt_in_turn() {
    let dict = load_dictionary(WORDS.as_bytes());
    let refs = word_refs(&dict);
    assert_eq!(refs.len(), 10);
    let shards = shard_words(&refs, 3);
    assert_eq!(shards.len(), 3);
    assert_eq!(
        texts(&refs),
        vec!["CATS", "HATS", "FOXY", "HAT", "CAT", "ITS", "FOX", "HI", "IT", "OX"]
    );
    assert_eq!(texts(&shards[0]), vec!["CATS", "HAT", "FOX", "OX"]);
    assert_eq!(texts(&shards[1]), vec!["HATS", "CAT", "HI"]);
    assert_eq!(texts(&shards[2]), vec!["FOXY", "ITS", "IT"]);
    let shards = shard_words(&refs, 12);
    assert_eq!(shards.len(), 12);
    assert_eq!(texts(&shards[9]), vec!["OX"]);
    assert!(shards[10].is_empty());
    let shards = shard_words(&refs, 1);
    assert_eq!(shards[0], refs);
}

#[test]
fn there_are_no_more_shares_than_words() {
    assert_eq!(shard_count(8, 3), 3);
    assert_eq!(shard_count(2, 3), 2);
    assert_eq!(shard_count(3, 3), 3);
    assert_eq!(shard_count(4, 0), 0);
}

#[test]
fn words_are_filtered_after_the_first_word() {
    let dict = load_dictionary(WORDS.as_bytes());
    let refs = word_refs(&dict);
    let first = LetterSet::from_word(&word("HAT"));
    let tried = WordSet::new();
    // HI borrows the H of the first word, ITS and IT its T
    assert_eq!(
        texts(&filter_words_first(&refs, hand_of("IS"), &first, &tried)),
        vec!["ITS", "HI", "IT"]
    );
    let mut tried = WordSet::new();
    tried.insert(word("IT"));
    assert_eq!(texts(&filter_words_first(&refs, hand_of("IS"), &first, &tried)), vec!["ITS", "HI"]);
    let first = LetterSet::from_word(&word("OX"));
    assert_eq!(texts(&filter_words_first(&refs, hand_of("IS"), &first, &tried)), Vec::<String>::new());
}

#[test]
fn words_are_filtered_at_a_deeper_node() {
    let dict = load_dictionary(WORDS.as_bytes());
    let refs = word_refs(&dict);
    assert_eq!(
        texts(&filter_words_later(&refs, hand_of("IS"), hand_of("HAT"), 1)),
        vec!["ITS", "HI", "IT"]
    );
    assert_eq!(
        texts(&filter_words_later(&refs, hand_of("IS"), hand_of("HAT"), 3)),
        vec!["HATS", "HAT", "ITS", "HI", "IT"]
    );
    assert_eq!(texts(&filter_words_later(&refs, hand_of("IS"), hand_of("HAT"), 0)), Vec::<String>::new());
}

#[test]
fn search_lays_the_rest_of_the_hand() {
    let dict = load_dictionary(WORDS.as_bytes());
    let set = WordSet::from_words(&dict);
    let refs = word_refs(&dict);
    let mut board = Board::new();
    let (bounds, left, mut on_board) = play_first_word(&mut board, &word("HAT"), &hand_of("HATIS"));
    let stop = AtomicBool::new(false);
    let mut checked = 0;
    let outcome = play_further(&mut board, bounds, &refs, &set, left, 0, &mut checked, &mut on_board, 2, 50_000, &stop);
    match outcome {
        SearchOutcome::Solved(found) => {
            // ITS down through the T
            assert_eq!(found, Bounds { min_col: 71, max_col: 73, min_row: 71, max_row: 73 });
        }
        other => panic!("{:?}", other),
    }
    assert_eq!(letters_on(&board), hand_of("HATIS"));
    assert_eq!(on_board, hand_of("HATIS"));
    assert!(checked > 0);
    assert_eq!(board.get_val(71, 73), 8);
    assert_eq!(board.get_val(73, 73), 18);
}

#[test]
fn search_that_finds_nothing_leaves_the_board() {
    let dict = load_dictionary(WORDS.as_bytes());
    let set = WordSet::from_words(&dict);
    let refs = word_refs(&dict);
    let mut board = Board::new();
    let (bounds, left, mut on_board) = play_first_word(&mut board, &word("CATS"), &hand_of("CATSH"));
    let stop = AtomicBool::new(false);
    let mut checked = 0;
    for depth in [0, 1, 2] {
        let outcome = play_further(&mut board, bounds, &refs, &set, left, depth, &mut checked, &mut on_board, 2, 50_000, &stop);
        assert_eq!(outcome, SearchOutcome::NotFoundAtThisNode);
        assert_eq!(letters_on(&board), hand_of("CATS"));
        assert_eq!(on_board, hand_of("CATS"));
    }
}

#[test]
fn search_is_stopped_by_the_flag_and_by_the_limit() {
    let dict = load_dictionary(WORDS.as_bytes());
    let set = WordSet::from_words(&dict);
    let refs = word_refs(&dict);
    let mut board = Board::new();
    let (bounds, left, mut on_board) = play_first_word(&mut board, &word("HAT"), &hand_of("HATIS"));
    let stop = AtomicBool::new(false);
    let mut checked = 11;
    let outcome = play_further(&mut board, bounds, &refs, &set, left, 0, &mut checked, &mut on_board, 2, 10, &stop);
    assert_eq!(outcome, SearchOutcome::Aborted);
    signal_stop(&stop);
    let mut checked = 0;
    let outcome = play_further(&mut board, bounds, &refs, &set, left, 0, &mut checked, &mut on_board, 2, 10, &stop);
    assert_eq!(outcome, SearchOutcome::Aborted);
    assert_eq!(checked, 0);
}

#[test]
fn word_is_tried_in_one_direction() {
    let dict = load_dictionary(WORDS.as_bytes());
    let set = WordSet::from_words(&dict);
    let refs = word_refs(&dict);
    let stop = AtomicBool::new(false);
    let (mut board, bounds, mut on_board) = board_with_cat();
    let mut checked = 0;
    // S behind CAT
    let outcome = try_play_word_horizontal(&mut board, &word("CATS"), bounds, &refs, &set, hand_of("S"), 1, &mut checked, &mut on_board, 2, 50_000, &stop);
    assert_eq!(outcome, SearchOutcome::NotFoundAtThisNode);
    let outcome = try_play_word_vertically(&mut board, &word("ITS"), bounds, &refs, &set, hand_of("IS"), 1, &mut checked, &mut on_board, 2, 50_000, &stop);
    assert_eq!(outcome, SearchOutcome::Solved(Bounds { min_col: 71, max_col: 73, min_row: 71, max_row: 73 }));
    assert_eq!(letters_on(&board), hand_of("CATIS"));
    let (mut board, bounds, mut on_board) = board_with_cat();
    let outcome = try_play_word_horizontal(&mut board, &word("ITS"), bounds, &refs, &set, hand_of("IS"), 1, &mut checked, &mut on_board, 2, 50_000, &stop);
    assert_eq!(outcome, SearchOutcome::NotFoundAtThisNode);
    assert_eq!(letters_on(&board), hand_of("CAT"));
    assert_eq!(on_board, hand_of("CAT"));
}

#[test]
fn share_of_first_words_is_worked_through() {
    let dict = load_dictionary(WORDS.as_bytes());
    let letters = hand_of("HATIS");
    let words = makeable_words(&dict, &letters);
    let set = WordSet::from_refs(&words);
    let stop = AtomicBool::new(false);
    let (board, bounds) = run_shard(&words, &words, &set, &letters, 2, 50_000, &stop).unwrap();
    assert!(should_stop(&stop));
    assert_eq!(letters_on(&board), letters);
    assert!(bounds.min_row <= 72 && 72 <= bounds.max_row);
    // Once the flag is set, a worker gives up
    assert!(run_shard(&words, &words, &set, &letters, 2, 50_000, &stop).is_none());
}

#[test]
fn share_without_a_solution_finds_none() {
    let dict = load_dictionary(WORDS.as_bytes());
    let letters = hand_of("CATSH");
    let words = makeable_words(&dict, &letters);
    let set = WordSet::from_refs(&words);
    let stop = AtomicBool::new(false);
    assert!(run_shard(&words, &words, &set, &letters, 2, 50_000, &stop).is_none());
    assert!(!should_stop(&stop));
    let none: Vec<&Word> = Vec::new();
    assert!(run_shard(&none, &words, &set, &letters, 2, 50_000, &stop).is_none());
}

#[test]
fn one_letter_is_laid_into_the_first_cell_that_takes_it() {
    let dict = load_dictionary(WORDS.as_bytes());
    let set = WordSet::from_words(&dict);
    let (mut board, bounds, _) = board_with_cat();
    // S: behind CAT
    let res = play_one_letter(&mut board, bounds, 18, &set);
    assert_eq!(res, Some((72, 74, Bounds { min_col: 71, max_col: 74, min_row: 72, max_row: 72 })));
    assert_eq!(board.get_val(72, 74), 18);
    assert_eq!(letters_on(&board), hand_of("CATS"));
    // I: above the T, for IT; the cells before it in the row take no I
    let (mut board, bounds, _) = board_with_cat();
    let res = play_one_letter(&mut board, bounds, 8, &set);
    assert_eq!(res, Some((71, 73, Bounds { min_col: 71, max_col: 73, min_row: 71, max_row: 72 })));
    assert_eq!(board.get_val(71, 73), 8);
}

#[test]
fn one_letter_that_no_cell_takes_is_not_laid() {
    let dict = load_dictionary(WORDS.as_bytes());
    let set = WordSet::from_words(&dict);
    let (mut board, bounds, _) = board_with_cat();
    let res = play_one_letter(&mut board, bounds, 25, &set);
    assert_eq!(res, None);
    assert_eq!(letters_on(&board), hand_of("CAT"));
}

#[test]
fn letters_of_the_board_are_taken_off_the_hand() {
    let (board, bounds, _) = board_with_cat();
    let (left, on_board, played) = letters_off_board(&board, bounds, &hand_of("CATCHY")).unwrap();
    assert_eq!(left, hand_of("CHY"));
    assert_eq!(on_board, hand_of("CAT"));
    assert!(played.contains(2) && played.contains(0) && played.contains(19));
    assert!(!played.contains(7));
    assert!(letters_off_board(&board, bounds, &hand_of("CA")).is_none());
}

#[test]
fn new_tiles_are_played_onto_the_old_board() {
    let dict = load_dictionary(WORDS.as_bytes());
    let set = WordSet::from_words(&dict);
    let refs = word_refs(&dict);
    let stop = AtomicBool::new(false);
    let mut board = Board::new();
    let (bounds, _, on_board) = play_first_word(&mut board, &word("HI"), &hand_of("HI"));
    assert_eq!(bounds, Bounds { min_col: 71, max_col: 72, min_row: 72, max_row: 72 });
    // IT below HI: H over I and I over T spell HI and IT
    let found = play_existing(&refs, &board, bounds, &refs, &set, hand_of("IT"), on_board, 2, 50_000, &stop);
    let (new_board, new_bounds) = found.unwrap();
    assert_eq!(letters_on(&new_board), hand_of("HIIT"));
    assert_eq!(new_bounds, Bounds { min_col: 71, max_col: 72, min_row: 72, max_row: 73 });
    assert_eq!(new_board.get_val(73, 71), 8);
    assert_eq!(new_board.get_val(73, 72), 19);
    // The old board is as it was
    assert_eq!(letters_on(&board), hand_of("HI"));
    assert!(should_stop(&stop));
    // A tile that fits nowhere
    let stop = AtomicBool::new(false);
    let found = play_existing(&refs, &board, bounds, &refs, &set, hand_of("Z"), on_board, 2, 50_000, &stop);
    assert!(found.is_none());
    assert!(!should_stop(&stop));
}

#[test]
fn plan_to_rebuild_deals_the_makeable_words() {
    let dicts = Dictionaries::new(WORDS.as_bytes(), "HI\n".as_bytes());
    let settings = CurrentSettings { filter_letters_on_board: 2, maximum_words_to_check: 50_000, use_long_dictionary: false };
    match plan_rebuild(&dicts, &hand_of("CATSH"), false, None, settings, 3) {
        Step::Run(job) => {
            assert_eq!(job.kind, JobKind::Rebuild);
            assert!(!job.long);
            assert_eq!(job.letters, hand_of("CATSH"));
            assert_eq!(texts(&job.valid_words_vec), vec!["CATS", "HATS", "HAT", "CAT"]);
            assert_eq!(job.shard_total(), 3);
            assert_eq!(texts(&job.shards[0]), vec!["CATS", "CAT"]);
            assert!(job.valid_words_set.contains(&word("HAT")));
            assert!(!job.valid_words_set.contains(&word("HI")));
            assert_eq!(job.filter_letters_on_board, 2);
            assert_eq!(job.max_words_to_check, 50_000);
            assert!(job.previous.is_none());
        }
        Step::Done(_) => panic!("no job"),
    }
    match plan_rebuild(&dicts, &hand_of("CATSH"), true, None, settings, 3) {
        Step::Done(answer) => assert_eq!(answer, Err(SolveError::NoValidWords)),
        Step::Run(_) => panic!("a job"),
    }
    match plan_rebuild(&dicts, &hand_of("HI"), true, None, settings, 0) {
        Step::Run(job) => {
            assert!(job.long);
            assert_eq!(job.shard_total(), 1);
        }
        Step::Done(_) => panic!("no job"),
    }
}

#[test]
fn more_tiles_give_a_job_that_extends_the_board() {
    let dicts = Dictionaries::new(WORDS.as_bytes(), WORDS.as_bytes());
    let mut session = Session::new();
    let stop = AtomicBool::new(false);
    let found = match session.start(&dicts, &hand_of("HAT"), 2) {
        Step::Run(job) => {
            let found = job.run_shard(0, &stop);
            assert!(found.is_some());
            match session.finish(job, found, 2) {
                Step::Done(answer) => answer,
                Step::Run(_) => panic!("a job"),
            }
        }
        Step::Done(_) => panic!("no job"),
    };
    assert!(found.is_ok());
    match session.start(&dicts, &hand_of("HATIS"), 2) {
        Step::Run(job) => {
            assert_eq!(job.kind, JobKind::Extend);
            assert_eq!(job.letters, hand_of("HATIS"));
            assert_eq!(job.hand_letters, hand_of("IS"));
            assert_eq!(job.letters_on_board, hand_of("HAT"));
            assert_eq!(texts(&job.valid_words_vec), vec!["ITS", "HI", "IT"]);
            assert!(job.previous.is_some());
            // Nothing found: the board is rebuilt
            match session.finish(job, None, 2) {
                Step::Run(next) => {
                    assert_eq!(next.kind, JobKind::Rebuild);
                    assert_eq!(next.letters, hand_of("HATIS"));
                    assert!(next.previous.is_some());
                }
                Step::Done(_) => panic!("no job"),
            }
        }
        Step::Done(_) => panic!("no job"),
    }
    assert_eq!(session.last_game.as_ref().unwrap().letters, hand_of("HAT"));
}

#[test]
fn usage_of_the_hand_is_checked() {
    let (board, bounds, _) = board_with_cat();
    assert_eq!(check_usage(&board, bounds, &hand_of("CAT")), LetterUsage::Finished);
    assert_eq!(check_usage(&board, bounds, &hand_of("CATS")), LetterUsage::Remaining);
    assert_eq!(check_usage(&board, bounds, &hand_of("CA")), LetterUsage::Overused);
    assert_eq!(check_usage(&board, bounds, &hand_of("CAAS")), LetterUsage::Overused);
}

#[test]
fn found_board_is_handed_in_unless_the_search_was_stopped() {
    let (board, bounds, _) = board_with_cat();
    assert!(claim_board(true, board, bounds).is_none());
    let (board, bounds, _) = board_with_cat();
    let (claimed, claimed_bounds) = claim_board(false, board, bounds).unwrap();
    assert_eq!(claimed_bounds, bounds);
    assert_eq!(letters_on(&claimed), hand_of("CAT"));
}

#[test]
fn stopped_search_tries_nothing() {
    let dict = load_dictionary(WORDS.as_bytes());
    let set = WordSet::from_words(&dict);
    let refs = word_refs(&dict);
    let stop = AtomicBool::new(false);
    let (mut board, bounds, mut on_board) = board_with_cat();
    let mut checked = 3;
    let outcome = search_unless_stopped(true, &mut board, bounds, &refs, &set, hand_of("IS"), 1, &mut checked, &mut on_board, 2, 50_000, &stop);
    assert_eq!(outcome, SearchOutcome::Aborted);
    assert_eq!(checked, 3);
    assert_eq!(letters_on(&board), hand_of("CAT"));
    let outcome = try_word_unless_stopped(true, &mut board, &word("ITS"), Direction::Vertical, bounds, &refs, &set, hand_of("IS"), 1, &mut checked, &mut on_board, 2, 50_000, &stop);
    assert_eq!(outcome, SearchOutcome::Aborted);
    assert_eq!(checked, 3);
    assert_eq!(letters_on(&board), hand_of("CAT"));
    assert_eq!(on_board, hand_of("CAT"));
    // Not stopped: the word is tried
    let outcome = try_word_unless_stopped(false, &mut board, &word("ITS"), Direction::Vertical, bounds, &refs, &set, hand_of("IS"), 1, &mut checked, &mut on_board, 2, 50_000, &stop);
    assert_eq!(outcome, SearchOutcome::Solved(Bounds { min_col: 71, max_col: 73, min_row: 71, max_row: 73 }));
    assert_eq!(letters_on(&board), hand_of("CATIS"));
}

#[test]
fn search_without_words_finds_nothing() {
    let dict = load_dictionary(WORDS.as_bytes());
    let set = WordSet::from_words(&dict);
    let none: Vec<&Word> = Vec::new();
    let stop = AtomicBool::new(false);
    let (mut board, bounds, mut on_board) = board_with_cat();
    let mut checked = 0;
    for depth in [0, 1] {
        let outcome = search_unless_stopped(false, &mut board, bounds, &none, &set, hand_of("IS"), depth, &mut checked, &mut on_board, 2, 50_000, &stop);
        assert_eq!(outcome, SearchOutcome::NotFoundAtThisNode);
        let outcome = play_further(&mut board, bounds, &none, &set, hand_of("IS"), depth, &mut checked, &mut on_board, 2, 50_000, &stop);
        assert_eq!(outcome, SearchOutcome::NotFoundAtThisNode);
    }
    assert_eq!(checked, 0);
    assert_eq!(letters_on(&board), hand_of("CAT"));
    assert_eq!(on_board, hand_of("CAT"));
}

#[test]
fn every_word_is_counted_where_nothing_is_found() {
    let dict = load_dictionary(WORDS.as_bytes());
    let set = WordSet::from_words(&dict);
    let refs = word_refs(&dict);
    let stop = AtomicBool::new(false);
    let (mut board, bounds, mut on_board) = board_with_cat();
    let mut checked = 0;
    // With a Z in the hand no word can be played: ten words along each of two directions
    let outcome = play_further(&mut board, bounds, &refs, &set, hand_of("Z"), 1, &mut checked, &mut on_board, 2, 50_000, &stop);
    assert_eq!(outcome, SearchOutcome::NotFoundAtThisNode);
    assert_eq!(checked, 20);
    // At depth 0 along one direction only
    let mut checked = 0;
    let outcome = play_further(&mut board, bounds, &refs, &set, hand_of("Z"), 0, &mut checked, &mut on_board, 2, 50_000, &stop);
    assert_eq!(outcome, SearchOutcome::NotFoundAtThisNode);
    assert_eq!(checked, 10);
}

#[test]
fn first_play_that_lays_the_hand_solves_the_board() {
    let dict = load_dictionary(WORDS.as_bytes());
    let set = WordSet::from_words(&dict);
    let refs = word_refs(&dict);
    let stop = AtomicBool::new(false);
    signal_stop(&stop);
    // The stop flag is set, but no deeper search is needed: the flag is not read
    let (mut board, bounds, mut on_board) = board_with_cat();
    let mut checked = 0;
    let outcome = try_play_word(&mut board, &word("ITS"), Direction::Vertical, bounds, &refs, &set, hand_of("IS"), 1, &mut checked, &mut on_board, 2, 50_000, &stop);
    assert_eq!(outcome, SearchOutcome::Solved(Bounds { min_col: 71, max_col: 73, min_row: 71, max_row: 73 }));
    assert_eq!(board.get_val(71, 73), 8);
    assert_eq!(board.get_val(73, 73), 18);
    assert_eq!(on_board, hand_of("CATIS"));
    // A word that can be played nowhere is not found
    let (mut board, bounds, mut on_board) = board_with_cat();
    let outcome = try_play_word(&mut board, &word("OX"), Direction::Vertical, bounds, &refs, &set, hand_of("OX"), 1, &mut checked, &mut on_board, 2, 50_000, &stop);
    assert_eq!(outcome, SearchOutcome::NotFoundAtThisNode);
    // A play that leaves tiles in the hand leads to a deeper search, which reads the flag
    let (mut board, bounds, mut on_board) = board_with_cat();
    let outcome = try_play_word(&mut board, &word("ITS"), Direction::Vertical, bounds, &refs, &set, hand_of("ISH"), 1, &mut checked, &mut on_board, 2, 50_000, &stop);
    assert_eq!(outcome, SearchOutcome::Aborted);
}

#[test]
fn share_of_which_no_word_can_be_played_gives_nothing() {
    let dict = load_dictionary(WORDS.as_bytes());
    let set = WordSet::from_words(&dict);
    let refs = word_refs(&dict);
    let stop = AtomicBool::new(false);
    let (board, bounds, on_board) = board_with_cat();
    assert!(play_existing(&refs, &board, bounds, &refs, &set, hand_of("ZZ"), on_board, 2, 50_000, &stop).is_none());
    assert!(!should_stop(&stop));
    // A word that is too long to be a first word
    let long: Word = vec![0; 200];
    let mut letters = [0usize; 26];
    letters[0] = 200;
    let chunk = vec![&long];
    let mut words = WordSet::new();
    words.insert(long.clone());
    assert!(run_shard(&chunk, &chunk, &words, &letters, 2, 50_000, &stop).is_none());
    assert!(!should_stop(&stop));
}

#[test]
fn jobs_hold_the_board_before() {
    let dicts = Dictionaries::new(WORDS.as_bytes(), WORDS.as_bytes());
    let mut session = Session::new();
    let stop = AtomicBool::new(false);
    match session.start(&dicts, &hand_of("CATS"), 2) {
        Step::Run(job) => {
            assert!(job.previous.is_none());
            let found = job.run_shard(0, &stop);
            assert!(found.is_some());
            assert!(matches!(session.finish(job, found, 2), Step::Done(Ok(_))));
        }
        Step::Done(_) => panic!("no job"),
    }
    // A smaller hand: the board is rebuilt, and the job holds the board of CATS
    match session.start(&dicts, &hand_of("CAT"), 2) {
        Step::Run(job) => {
            assert_eq!(job.kind, JobKind::Rebuild);
            let (board, bounds) = job.previous.as_ref().unwrap();
            assert_eq!(letters_on(board), hand_of("CATS"));
            assert_eq!(*bounds, Bounds { min_col: 70, max_col: 73, min_row: 72, max_row: 72 });
            // Nothing found with the short dictionary: the next job holds the same board
            match session.finish(job, None, 2) {
                Step::Run(next) => {
                    assert!(next.long);
                    let (board, bounds) = next.previous.as_ref().unwrap();
                    assert_eq!(letters_on(board), hand_of("CATS"));
                    assert_eq!(*bounds, Bounds { min_col: 70, max_col: 73, min_row: 72, max_row: 72 });
                    // CAT is laid in columns 71 to 73, where CATS held A, T and S
                    let stop = AtomicBool::new(false);
                    let found = next.run_shard(0, &stop);
                    match session.finish(next, found, 2) {
                        Step::Done(answer) => {
                            assert_eq!(answer.unwrap(), vec![vec!["C", "A", "T"]]);
                        }
                        Step::Run(_) => panic!("a job"),
                    }
                }
                Step::Done(_) => panic!("no job"),
            }
        }
        Step::Done(_) => panic!("no job"),
    }
    // A larger hand: the job that extends the board holds it
    match session.start(&dicts, &hand_of("CATHIS"), 2) {
        Step::Run(job) => {
            assert_eq!(job.kind, JobKind::Extend);
            let (board, bounds) = job.previous.as_ref().unwrap();
            assert_eq!(letters_on(board), hand_of("CAT"));
            assert_eq!(*bounds, Bounds { min_col: 71, max_col: 73, min_row: 72, max_row: 72 });
            match session.finish(job, None, 2) {
                Step::Run(next) => {
                    assert_eq!(next.kind, JobKind::Rebuild);
                    let (board, _) = next.previous.as_ref().unwrap();
                    assert_eq!(letters_on(board), hand_of("CAT"));
                }
                Step::Done(_) => panic!("no job"),
            }
        }
        Step::Done(_) => panic!("no job"),
    }
}

#[test]
fn share_whose_first_word_uses_up_the_hand_hands_in_that_word_alone() {
    let dict = load_dictionary(WORDS.as_bytes());
    let letters = hand_of("CATS");
    let words = makeable_words(&dict, &letters);
    assert_eq!(texts(&words), vec!["CATS", "CAT"]);
    let set = WordSet::from_refs(&words);
    let stop = AtomicBool::new(false);
    let (board, bounds) = run_shard(&words, &words, &set, &letters, 2, 50_000, &stop).unwrap();
    assert_eq!(bounds, Bounds { min_col: 70, max_col: 73, min_row: 72, max_row: 72 });
    assert_eq!(letters_on(&board), letters);
    for (i, letter) in word("CATS").into_iter().enumerate() {
        assert_eq!(board.get_val(72, 70 + i), letter);
    }
}
