use bananagrams_solver::alphabet::{convert_word_to_array, Letters};
use bananagrams_solver::dictionary::Dictionaries;
use bananagrams_solver::engine::{Session, Step};
use bananagrams_solver::input::SolveError;
use std::sync::atomic::AtomicBool;

const WORDS: &str = "HI\nHAT\nCAT\nCATS\nHATS\nIT\nITS\nOX\nFOX\nFOXY\n";

fn hand(tiles: &str) -> Letters {
    let mut letters = [0usize; 26];
    for letter in convert_word_to_array(tiles) {
        letters[letter] += 1;
    }
    letters
}

fn dictionaries() -> Dictionaries {
    Dictionaries::new(WORDS.as_bytes(), WORDS.as_bytes())
}

/// Runs a solve to its end, the shares of each job one after the other.
/// Returns the answer and the number of jobs that were run.
fn solve(
    session: &mut Session,
    dicts: &Dictionaries,
    letters: &Letters,
    workers: usize,
) -> (Result<Vec<Vec<String>>, SolveError>, usize) {
    let mut jobs = 0;
    let mut step = session.start(dicts, letters, workers);
    loop {
        match step {
            Step::Done(answer) => return (answer, jobs),
            Step::Run(job) => {
                jobs += 1;
                let stop = AtomicBool::new(false);
                let mut found = None;
                for index in 0..job.shard_total() {
                    if let Some(board) = job.run_shard(index, &stop) {
                        found = Some(board);
                        break;
                    }
                }
                step = session.finish(job, found, workers);
            }
        }
    }
}

fn rows(board: &[&[&str]]) -> Vec<Vec<String>> {
    board.iter().map(|row| row.iter().map(|cell| cell.to_string()).collect()).collect()
}

/// The letters of a board, with the marks of inherited letters taken off.
fn tiles_of(board: &Vec<Vec<String>>) -> Letters {
    let mut letters = [0usize; 26];
    for row in board {
        for cell in row {
            for letter in convert_word_to_array(cell) {
                letters[letter] += 1;
            }
        }
    }
    letters
}

/// The runs of two or more letters of a board, along its rows and along its columns.
fn runs_of(board: &Vec<Vec<String>>) -> Vec<String> {
    let height = board.len();
    let width = board[0].len();
    let letter = |r: usize, c: usize| -> Option<char> {
        let first = board[r][c].chars().next().unwrap();
        if first == ' ' {
            None
        } else {
            Some(first)
        }
    };
    let mut runs = Vec::new();
    for r in 0..height {
        let mut run = String::new();
        for c in 0..=width {
            match if c < width { letter(r, c) } else { None } {
                Some(l) => run.push(l),
                None => {
                    if run.len() > 1 {
                        runs.push(run.clone());
                    }
                    run.clear();
                }
            }
        }
    }
    for c in 0..width {
        let mut run = String::new();
        for r in 0..=height {
            match if r < height { letter(r, c) } else { None } {
                Some(l) => run.push(l),
                None => {
                    if run.len() > 1 {
                        runs.push(run.clone());
                    }
                    run.clear();
                }
            }
        }
    }
    runs
}

/// Tells whether the letters of a board hang together.
fn hangs_together(board: &Vec<Vec<String>>) -> bool {
    let height = board.len();
    let width = board[0].len();
    let filled = |r: usize, c: usize| board[r][c] != " ";
    let mut seen = vec![vec![false; width]; height];
    let mut stack = Vec::new();
    'find: for r in 0..height {
        for c in 0..width {
            if filled(r, c) {
                seen[r][c] = true;
                stack.push((r, c));
                break 'find;
            }
        }
    }
    while let Some((r, c)) = stack.pop() {
        let mut around = Vec::new();
        if r > 0 {
            around.push((r - 1, c));
        }
        if c > 0 {
            around.push((r, c - 1));
        }
        if r + 1 < height {
            around.push((r + 1, c));
        }
        if c + 1 < width {
            around.push((r, c + 1));
        }
        for (r2, c2) in around {
            if filled(r2, c2) && !seen[r2][c2] {
                seen[r2][c2] = true;
                stack.push((r2, c2));
            }
        }
    }
    (0..height).all(|r| (0..width).all(|c| !filled(r, c) || seen[r][c]))
}

fn is_in_words(run: &str) -> bool {
    WORDS.lines().any(|word| word == run)
}

#[test]
fn hand_hi_gives_one_row() {
    let dicts = dictionaries();
    let mut session = Session::new();
    let (answer, jobs) = solve(&mut session, &dicts, &hand("HI"), 4);
    assert_eq!(answer, Ok(rows(&[&["H", "I"]])));
    assert_eq!(jobs, 1);
}

#[test]
fn hand_cat_gives_one_row() {
    let dicts = dictionaries();
    let mut session = Session::new();
    let (answer, _) = solve(&mut session, &dicts, &hand("CAT"), 4);
    assert_eq!(answer, Ok(rows(&[&["C", "A", "T"]])));
}

#[test]
fn hand_cats_prefers_the_longer_word() {
    let dicts = dictionaries();
    let mut session = Session::new();
    let (answer, _) = solve(&mut session, &dicts, &hand("CATS"), 1);
    assert_eq!(answer, Ok(rows(&[&["C", "A", "T", "S"]])));
}

#[test]
fn hand_caths_has_no_crossword() {
    // With one A and one T, CAT and HAT would have to lie in the same cells:
    // no board on which every run is a word holds these five tiles
    let dicts = dictionaries();
    let mut session = Session::new();
    let (answer, jobs) = solve(&mut session, &dicts, &hand("CATHS"), 2);
    assert_eq!(answer, Err(SolveError::NoSolution));
    assert_eq!(jobs, 2);
    assert!(session.last_game.is_none());
}

#[test]
fn hand_hatis_uses_every_tile() {
    let dicts = dictionaries();
    let mut session = Session::new();
    let letters = hand("HATIS");
    let (answer, _) = solve(&mut session, &dicts, &letters, 2);
    let board = answer.unwrap();
    assert_eq!(tiles_of(&board), letters);
    assert!(hangs_together(&board));
    assert!(board.len() > 1);
    let runs = runs_of(&board);
    assert!(!runs.is_empty());
    for run in runs {
        assert!(is_in_words(&run), "{} is no word", run);
    }
}

#[test]
fn same_hand_again_is_answered_from_the_last_game() {
    let dicts = dictionaries();
    let mut session = Session::new();
    let letters = hand("CATS");
    let (first, jobs) = solve(&mut session, &dicts, &letters, 2);
    assert_eq!(jobs, 1);
    let (second, jobs_again) = solve(&mut session, &dicts, &letters, 2);
    assert_eq!(jobs_again, 0);
    assert_eq!(first, second);
    assert_eq!(second, Ok(rows(&[&["C", "A", "T", "S"]])));
}

#[test]
fn one_more_tile_is_laid_without_a_search() {
    let dicts = dictionaries();
    let mut session = Session::new();
    let (first, _) = solve(&mut session, &dicts, &hand("CAT"), 2);
    assert_eq!(first, Ok(rows(&[&["C", "A", "T"]])));
    let (second, jobs) = solve(&mut session, &dicts, &hand("CATS"), 2);
    assert_eq!(jobs, 0);
    assert_eq!(second, Ok(rows(&[&["C*", "A*", "T*", "S"]])));
    let game = session.last_game.as_ref().unwrap();
    assert_eq!(game.letters, hand("CATS"));
    assert_eq!(game.bounds.max_col - game.bounds.min_col, 3);
    assert_eq!(game.bounds.min_row, game.bounds.max_row);
}

#[test]
fn fewer_tiles_rebuild_the_board() {
    let dicts = dictionaries();
    let mut session = Session::new();
    let (first, _) = solve(&mut session, &dicts, &hand("CATS"), 2);
    assert!(first.is_ok());
    let (second, jobs) = solve(&mut session, &dicts, &hand("CAT"), 2);
    assert_eq!(jobs, 1);
    // The new board is laid afresh in the middle: no letter lies where it lay before
    assert_eq!(second, Ok(rows(&[&["C", "A", "T"]])));
    let (third, jobs) = solve(&mut session, &dicts, &hand("HI"), 2);
    assert_eq!(jobs, 1);
    assert_eq!(third, Ok(rows(&[&["H", "I"]])));
}

#[test]
fn single_tile_has_no_valid_words() {
    let dicts = dictionaries();
    let mut session = Session::new();
    let (answer, jobs) = solve(&mut session, &dicts, &hand("A"), 3);
    assert_eq!(answer, Err(SolveError::NoValidWords));
    assert_eq!(jobs, 0);
    assert!(session.last_game.is_none());
}

#[test]
fn two_a_tiles_have_no_valid_words() {
    let dicts = dictionaries();
    let mut session = Session::new();
    let (answer, _) = solve(&mut session, &dicts, &hand("AA"), 3);
    assert_eq!(answer, Err(SolveError::NoValidWords));
}

#[test]
fn hand_with_one_makeable_word_is_that_word_centred() {
    let dicts = dictionaries();
    let mut session = Session::new();
    let (answer, _) = solve(&mut session, &dicts, &hand("OX"), 3);
    assert_eq!(answer, Ok(rows(&[&["O", "X"]])));
    let game = session.last_game.as_ref().unwrap();
    assert_eq!(game.bounds.min_row, 72);
    assert_eq!(game.bounds.max_row, 72);
    assert_eq!(game.bounds.min_col, 71);
    assert_eq!(game.bounds.max_col, 72);
    assert_eq!(game.board.get_val(72, 71), 14);
    assert_eq!(game.board.get_val(72, 72), 23);
}

#[test]
fn q_without_u_never_gives_an_invalid_word() {
    let words = "QI\nQUIT\nIT\nHI\nHIT\n";
    let dicts = Dictionaries::new(words.as_bytes(), words.as_bytes());
    let mut session = Session::new();
    let letters = hand("QIT");
    let (answer, _) = solve(&mut session, &dicts, &letters, 2);
    match answer {
        Ok(board) => {
            assert_eq!(tiles_of(&board), letters);
            for run in runs_of(&board) {
                assert!(words.lines().any(|word| word == run), "{} is no word", run);
            }
        }
        Err(error) => assert_eq!(error, SolveError::NoSolution),
    }
    let mut session = Session::new();
    let (answer, _) = solve(&mut session, &dicts, &hand("QTT"), 2);
    assert_eq!(answer, Err(SolveError::NoValidWords));
    let mut session = Session::new();
    let (answer, _) = solve(&mut session, &dicts, &hand("QIZ"), 2);
    assert_eq!(answer, Err(SolveError::NoSolution));
}

#[test]
fn unsolvable_hand_keeps_the_last_game() {
    let dicts = dictionaries();
    let mut session = Session::new();
    let (first, _) = solve(&mut session, &dicts, &hand("HI"), 2);
    assert!(first.is_ok());
    let (second, _) = solve(&mut session, &dicts, &hand("OXZ"), 2);
    assert_eq!(second, Err(SolveError::NoSolution));
    let game = session.last_game.as_ref().unwrap();
    assert_eq!(game.letters, hand("HI"));
    let (third, _) = solve(&mut session, &dicts, &hand("Z"), 2);
    assert_eq!(third, Err(SolveError::NoValidWords));
    assert_eq!(session.last_game.as_ref().unwrap().letters, hand("HI"));
}

#[test]
fn reset_forgets_the_last_game() {
    let dicts = dictionaries();
    let mut session = Session::new();
    let letters = hand("CAT");
    let (first, _) = solve(&mut session, &dicts, &letters, 2);
    assert!(first.is_ok());
    session.reset();
    assert!(session.last_game.is_none());
    let (again, jobs) = solve(&mut session, &dicts, &letters, 2);
    assert_eq!(jobs, 1);
    assert_eq!(again, Ok(rows(&[&["C", "A", "T"]])));
}

#[test]
fn more_tiles_are_played_onto_the_board() {
    let dicts = dictionaries();
    let mut session = Session::new();
    let (first, _) = solve(&mut session, &dicts, &hand("HAT"), 2);
    assert_eq!(first, Ok(rows(&[&["H", "A", "T"]])));
    let letters = hand("HATIS");
    let (second, _) = solve(&mut session, &dicts, &letters, 2);
    let board = second.unwrap();
    assert_eq!(tiles_of(&board), letters);
    assert!(hangs_together(&board));
    for run in runs_of(&board) {
        assert!(is_in_words(&run), "{} is no word", run);
    }
    assert_eq!(session.last_game.as_ref().unwrap().letters, letters);
}

#[test]
fn settings_are_kept() {
    let mut session = Session::new();
    let settings = session.get_settings();
    assert_eq!(settings.filter_letters_on_board, 2);
    assert_eq!(settings.maximum_words_to_check, 50_000);
    assert!(!settings.use_long_dictionary);
    session.set_settings(3, 100, true);
    let settings = session.get_settings();
    assert_eq!(settings.filter_letters_on_board, 3);
    assert_eq!(settings.maximum_words_to_check, 100);
    assert!(settings.use_long_dictionary);
}

#[test]
fn long_dictionary_is_tried_after_the_short_one() {
    let short = "HI\nHAT\n";
    let long = "HI\nHAT\nHIT\nTHAT\n";
    let dicts = Dictionaries::new(short.as_bytes(), long.as_bytes());
    let mut session = Session::new();
    let (answer, jobs) = solve(&mut session, &dicts, &hand("HIT"), 2);
    assert_eq!(jobs, 2);
    assert_eq!(answer, Ok(rows(&[&["H", "I", "T"]])));
}

#[test]
fn hand_wider_than_the_board_is_solved_across_the_rows() {
    // 146 tiles cannot lie in one row of 144 cells
    let words = "AB\nBA\n";
    let dicts = Dictionaries::new(words.as_bytes(), words.as_bytes());
    let mut letters = [0usize; 26];
    letters[0] = 73;
    letters[1] = 73;
    let mut session = Session::new();
    let (answer, _) = solve(&mut session, &dicts, &letters, 1);
    let board = answer.unwrap();
    assert_eq!(tiles_of(&board), letters);
    assert!(board.len() > 1);
    assert!(board.len() <= 144 && board[0].len() <= 144);
    assert!(hangs_together(&board));
    for run in runs_of(&board) {
        assert!(run == "AB" || run == "BA", "{} is no word", run);
    }
}

#[test]
fn marks_of_inherited_letters_stay_when_the_hand_is_asked_again() {
    let dicts = dictionaries();
    let mut session = Session::new();
    let (first, _) = solve(&mut session, &dicts, &hand("CAT"), 2);
    assert_eq!(first, Ok(rows(&[&["C", "A", "T"]])));
    let (second, _) = solve(&mut session, &dicts, &hand("CATS"), 2);
    assert_eq!(second, Ok(rows(&[&["C*", "A*", "T*", "S"]])));
    // The same hand again: the same answer, cell for cell
    let (third, jobs) = solve(&mut session, &dicts, &hand("CATS"), 2);
    assert_eq!(jobs, 0);
    assert_eq!(third, second);
    let (fourth, _) = solve(&mut session, &dicts, &hand("CATS"), 5);
    assert_eq!(fourth, second);
    let game = session.last_game.as_ref().unwrap();
    assert!(game.marks.contains(&(72, 71)));
    assert!(game.marks.contains(&(72, 73)));
    assert!(!game.marks.contains(&(72, 74)));
}

#[test]
fn answer_of_a_job_is_repeated_with_its_marks() {
    let dicts = dictionaries();
    let mut session = Session::new();
    let (first, _) = solve(&mut session, &dicts, &hand("HI"), 2);
    assert_eq!(first, Ok(rows(&[&["H", "I"]])));
    // Two more tiles: a job plays IT below HI
    let (second, jobs) = solve(&mut session, &dicts, &hand("HIIT"), 2);
    assert_eq!(jobs, 1);
    assert_eq!(second, Ok(rows(&[&["H*", "I*"], &["I", "T"]])));
    let (third, jobs) = solve(&mut session, &dicts, &hand("HIIT"), 2);
    assert_eq!(jobs, 0);
    assert_eq!(third, second);
}

#[test]
fn rebuilt_board_is_marked_by_the_board_before() {
    let dicts = dictionaries();
    let mut session = Session::new();
    let (first, _) = solve(&mut session, &dicts, &hand("CATS"), 2);
    assert_eq!(first, Ok(rows(&[&["C", "A", "T", "S"]])));
    // No C any more: the board is rebuilt; A, T and S lie where they lay
    let (second, jobs) = solve(&mut session, &dicts, &hand("HATS"), 2);
    assert_eq!(jobs, 1);
    assert_eq!(second, Ok(rows(&[&["H", "A*", "T*", "S*"]])));
    let (third, jobs) = solve(&mut session, &dicts, &hand("HATS"), 2);
    assert_eq!(jobs, 0);
    assert_eq!(third, second);
}
