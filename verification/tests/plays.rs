use bananagrams_solver::alphabet::{convert_word_to_array, Letters, Word, BOARD_SIZE, EMPTY_VALUE};
use bananagrams_solver::board::Board;
use bananagrams_solver::bounds::Bounds;
use bananagrams_solver::hand::LetterUsage;
use bananagrams_solver::line::Direction;
use bananagrams_solver::removal::{get_new_min_max, get_removable_indices, line_has_letter};
use bananagrams_solver::render::{board_to_string, board_to_vec, get_board_overlap};
use bananagrams_solver::search::{get_col_limits, get_line_limits, get_row_limits, is_near};
use bananagrams_solver::validator::{
    is_board_valid_horizontal, is_board_valid_vertical, is_play_valid, is_run_valid,
};
use bananagrams_solver::wordset::{CellSet, WordSet};

fn hand_of(tiles: &str) -> Letters {
    let mut letters = [0usize; 26];
    for letter in convert_word_to_array(tiles) {
        letters[letter] += 1;
    }
    letters
}

fn word(text: &str) -> Word {
    convert_word_to_array(text)
}

fn words(texts: &[&str]) -> WordSet {
    let list: Vec<Word> = texts.iter().map(|text| word(text)).collect();
    WordSet::from_words(&list)
}

/// Writes a word into the cells of a board, whatever they hold.
fn write(board: &mut Board, text: &str, row: usize, col: usize, direction: Direction) {
    for (i, letter) in word(text).into_iter().enumerate() {
        match direction {
            Direction::Horizontal => board.set_val(row, col + i, letter),
            Direction::Vertical => board.set_val(row + i, col, letter),
        }
    }
}

fn cells_of(board: &Board) -> Vec<usize> {
    let mut cells = Vec::new();
    for row in 0..BOARD_SIZE {
        for col in 0..BOARD_SIZE {
            cells.push(board.get_val(row, col));
        }
    }
    cells
}

#[test]
fn new_board_is_empty() {
    let board = Board::new();
    let cells = cells_of(&board);
    assert_eq!(cells.len(), 144 * 144);
    assert!(cells.iter().all(|cell| *cell == EMPTY_VALUE));
}

#[test]
fn cell_holds_what_was_set() {
    let mut board = Board::new();
    board.set_val(3, 5, 7);
    board.set_val(143, 143, 25);
    board.set_val(0, 0, 0);
    assert_eq!(board.get_val(3, 5), 7);
    assert_eq!(board.get_val(5, 3), EMPTY_VALUE);
    assert_eq!(board.get_val(143, 143), 25);
    assert_eq!(board.get_val(0, 0), 0);
    board.set_val(3, 5, EMPTY_VALUE);
    assert_eq!(board.get_val(3, 5), EMPTY_VALUE);
    assert_eq!(cells_of(&board).iter().filter(|cell| **cell != EMPTY_VALUE).count(), 2);
}

#[test]
fn cells_of_a_line_are_named_by_line_and_offset() {
    let mut board = Board::new();
    board.set_at(Direction::Horizontal, 2, 9, 4);
    board.set_at(Direction::Vertical, 2, 9, 6);
    assert_eq!(board.get_val(2, 9), 4);
    assert_eq!(board.get_val(9, 2), 6);
    assert_eq!(board.get_at(Direction::Vertical, 9, 2), 4);
    assert_eq!(board.get_at(Direction::Horizontal, 9, 2), 6);
    assert!(board.is_filled(Direction::Horizontal, 2, 9));
    assert!(!board.is_filled(Direction::Horizontal, 2, 8));
    assert!(!board.is_filled(Direction::Horizontal, 144, 9));
    assert!(!board.is_filled(Direction::Vertical, 9, 144));
}

#[test]
fn clone_of_a_board_has_the_same_cells() {
    let mut board = Board::new();
    write(&mut board, "CAT", 10, 20, Direction::Horizontal);
    let copy = board.clone();
    assert_eq!(cells_of(&copy), cells_of(&board));
    board.set_val(10, 20, EMPTY_VALUE);
    assert_eq!(copy.get_val(10, 20), 2);
}

#[test]
fn word_is_played_beside_a_letter() {
    let mut board = Board::new();
    write(&mut board, "CAT", 72, 70, Direction::Horizontal);
    let mut on_board = hand_of("CAT");
    // ITS down through the T
    let (placed, trail, remaining, usage) =
        board.play_word(&word("ITS"), 71, 72, Direction::Vertical, &hand_of("ISX"), &mut on_board);
    assert!(placed);
    assert_eq!(trail, vec![(71, 72), (73, 72)]);
    assert_eq!(remaining, hand_of("X"));
    assert_eq!(usage, LetterUsage::Remaining);
    assert_eq!(on_board, hand_of("CATIS"));
    assert_eq!(board.get_val(71, 72), 8);
    assert_eq!(board.get_val(72, 72), 19);
    assert_eq!(board.get_val(73, 72), 18);
}

#[test]
fn play_that_uses_up_the_hand_is_finished() {
    let mut board = Board::new();
    write(&mut board, "CAT", 72, 70, Direction::Horizontal);
    let mut on_board = hand_of("CAT");
    let (placed, trail, remaining, usage) =
        board.play_word(&word("CATS"), 72, 70, Direction::Horizontal, &hand_of("S"), &mut on_board);
    // The word crosses C, A and T, which touch nothing beside them: it is not anchored
    assert!(!placed);
    assert!(trail.is_empty());
    assert_eq!(remaining, hand_of("S"));
    assert_eq!(usage, LetterUsage::Remaining);
    let (placed, trail, remaining, usage) =
        board.play_word(&word("S"), 72, 73, Direction::Horizontal, &hand_of("S"), &mut on_board);
    assert!(placed);
    assert_eq!(trail, vec![(72, 73)]);
    assert_eq!(remaining, hand_of(""));
    assert_eq!(usage, LetterUsage::Finished);
    assert_eq!(on_board, hand_of("CATS"));
}

#[test]
fn word_behind_a_letter_is_anchored() {
    let mut board = Board::new();
    write(&mut board, "S", 5, 9, Direction::Horizontal);
    let mut on_board = hand_of("S");
    // The cell behind the last letter of the word holds a letter
    let (placed, trail, _, _) =
        board.play_word(&word("CAT"), 5, 6, Direction::Horizontal, &hand_of("CAT"), &mut on_board);
    assert!(placed);
    assert_eq!(trail, vec![(5, 6), (5, 7), (5, 8)]);
    assert_eq!(on_board, hand_of("CATS"));
}

#[test]
fn word_that_touches_nothing_is_not_played() {
    let mut board = Board::new();
    write(&mut board, "CAT", 72, 70, Direction::Horizontal);
    let before = cells_of(&board);
    let mut on_board = hand_of("CAT");
    let (placed, trail, remaining, usage) =
        board.play_word(&word("HI"), 10, 10, Direction::Horizontal, &hand_of("HI"), &mut on_board);
    assert!(!placed);
    assert!(trail.is_empty());
    assert_eq!(remaining, hand_of("HI"));
    assert_eq!(usage, LetterUsage::Remaining);
    assert_eq!(cells_of(&board), before);
    assert_eq!(on_board, hand_of("CAT"));
}

#[test]
fn word_that_runs_off_the_board_is_not_played() {
    let mut board = Board::new();
    write(&mut board, "A", 5, 141, Direction::Horizontal);
    write(&mut board, "A", 141, 7, Direction::Horizontal);
    let before = cells_of(&board);
    let mut on_board = hand_of("AA");
    for (row, col, direction) in [
        (5, 142, Direction::Horizontal),
        (5, 143, Direction::Horizontal),
        (144, 3, Direction::Horizontal),
        (5, 144, Direction::Horizontal),
        (142, 7, Direction::Vertical),
        (143, 7, Direction::Vertical),
        (3, 144, Direction::Vertical),
        (144, 3, Direction::Vertical),
    ] {
        let (placed, trail, remaining, usage) =
            board.play_word(&word("IT"), row, col, direction, &hand_of("IT"), &mut on_board);
        assert!(!placed);
        assert!(trail.is_empty());
        assert_eq!(remaining, hand_of("IT"));
        assert_eq!(usage, LetterUsage::Remaining);
    }
    assert_eq!(cells_of(&board), before);
    assert_eq!(on_board, hand_of("AA"));
    // With a cell to spare behind its last letter, the word fits
    let (placed, trail, _, _) =
        board.play_word(&word("T"), 5, 142, Direction::Horizontal, &hand_of("T"), &mut on_board);
    assert!(placed);
    assert_eq!(trail, vec![(5, 142)]);
    assert_eq!(board.get_val(5, 142), 19);
    let (placed, _, _, _) =
        board.play_word(&word("T"), 142, 7, Direction::Vertical, &hand_of("T"), &mut on_board);
    assert!(placed);
    assert_eq!(board.get_val(142, 7), 19);
    // In the last cell of a line there is no cell to spare
    let (placed, trail, _, _) =
        board.play_word(&word("S"), 5, 143, Direction::Horizontal, &hand_of("S"), &mut on_board);
    assert!(!placed);
    assert!(trail.is_empty());
}

#[test]
fn play_stops_at_a_cell_with_another_letter() {
    let mut board = Board::new();
    write(&mut board, "CAT", 72, 70, Direction::Horizontal);
    let mut on_board = hand_of("CAT");
    // HI down through the A: the H is laid, the A is not an I
    let (placed, trail, remaining, usage) =
        board.play_word(&word("HI"), 71, 71, Direction::Vertical, &hand_of("HI"), &mut on_board);
    assert!(!placed);
    assert_eq!(trail, vec![(71, 71)]);
    assert_eq!(remaining, hand_of("I"));
    assert_eq!(usage, LetterUsage::Remaining);
    assert_eq!(on_board, hand_of("CATH"));
    assert_eq!(board.get_val(71, 71), 7);
}

#[test]
fn play_stops_when_a_letter_is_not_in_the_hand() {
    let mut board = Board::new();
    write(&mut board, "CAT", 72, 70, Direction::Horizontal);
    let mut on_board = hand_of("CAT");
    let (placed, trail, remaining, usage) =
        board.play_word(&word("ITS"), 71, 72, Direction::Vertical, &hand_of("I"), &mut on_board);
    assert!(!placed);
    // The cell of the letter that the hand lacks is written and recorded
    assert_eq!(trail, vec![(71, 72), (73, 72)]);
    assert_eq!(remaining, hand_of(""));
    assert_eq!(usage, LetterUsage::Overused);
    assert_eq!(on_board, hand_of("CATIS"));
    assert_eq!(board.get_val(73, 72), 18);
}

#[test]
fn undo_takes_a_play_back() {
    let mut board = Board::new();
    write(&mut board, "CAT", 72, 70, Direction::Horizontal);
    let before = cells_of(&board);
    let plays: [(&str, usize, usize, Direction, &str); 6] = [
        ("ITS", 71, 72, Direction::Vertical, "ISX"),
        ("ITS", 71, 72, Direction::Vertical, "I"),
        ("HI", 71, 71, Direction::Vertical, "HI"),
        ("HI", 10, 10, Direction::Horizontal, "HI"),
        ("CATS", 72, 70, Direction::Horizontal, "S"),
        ("HAT", 70, 71, Direction::Vertical, "HT"),
    ];
    for (text, row, col, direction, tiles) in plays {
        let mut on_board = hand_of("CAT");
        let (_, trail, _, _) =
            board.play_word(&word(text), row, col, direction, &hand_of(tiles), &mut on_board);
        board.undo_play(&trail, &mut on_board);
        assert_eq!(cells_of(&board), before);
        assert_eq!(on_board, hand_of("CAT"));
    }
}

#[test]
fn run_of_letters_is_checked_against_the_words() {
    let dict = words(&["CAT", "IT", "ITS"]);
    let mut board = Board::new();
    write(&mut board, "CAT", 72, 70, Direction::Horizontal);
    assert!(is_run_valid(&board, Direction::Horizontal, 72, 70, &dict));
    assert!(is_run_valid(&board, Direction::Horizontal, 72, 72, &dict));
    // A single letter
    assert!(is_run_valid(&board, Direction::Vertical, 70, 72, &dict));
    write(&mut board, "S", 72, 73, Direction::Horizontal);
    assert!(!is_run_valid(&board, Direction::Horizontal, 72, 71, &dict));
    assert!(is_run_valid(&board, Direction::Vertical, 73, 72, &dict));
}

#[test]
fn run_longer_than_any_word_is_not_valid() {
    let long = "ABCDEFGHIJKLMNOPQR";
    assert_eq!(long.len(), 18);
    let dict = words(&[long, &long[..17]]);
    let mut board = Board::new();
    write(&mut board, &long[..17], 3, 0, Direction::Horizontal);
    assert!(is_run_valid(&board, Direction::Horizontal, 3, 5, &dict));
    write(&mut board, long, 3, 0, Direction::Horizontal);
    assert!(!is_run_valid(&board, Direction::Horizontal, 3, 5, &dict));
}

#[test]
fn run_at_the_edges_of_the_board() {
    let dict = words(&["IT"]);
    let mut board = Board::new();
    write(&mut board, "IT", 0, 0, Direction::Horizontal);
    write(&mut board, "IT", 142, 143, Direction::Vertical);
    assert!(is_run_valid(&board, Direction::Horizontal, 0, 0, &dict));
    assert!(is_run_valid(&board, Direction::Horizontal, 0, 1, &dict));
    assert!(is_run_valid(&board, Direction::Vertical, 143, 142, &dict));
    assert!(is_run_valid(&board, Direction::Vertical, 143, 143, &dict));
    assert!(is_board_valid_horizontal(&board, 0, 0, 1, &dict));
    assert!(is_board_valid_vertical(&board, 142, 143, 143, &dict));
}

#[test]
fn play_is_valid_when_its_runs_are_words() {
    let dict = words(&["CAT", "IT", "ITS", "HI"]);
    let mut board = Board::new();
    write(&mut board, "CAT", 72, 70, Direction::Horizontal);
    write(&mut board, "ITS", 71, 72, Direction::Vertical);
    assert!(is_board_valid_vertical(&board, 71, 73, 72, &dict));
    assert!(is_play_valid(&board, Direction::Vertical, 72, 71, 73, &dict));
    assert!(is_board_valid_horizontal(&board, 72, 70, 72, &dict));
    // HI beside the I: H-I along the row, and the H stands alone in its column
    write(&mut board, "H", 71, 71, Direction::Horizontal);
    assert!(!is_board_valid_horizontal(&board, 71, 71, 71, &dict));
    // The H stands on the A: the run H-A along the column is no word
    assert!(!is_run_valid(&board, Direction::Vertical, 71, 71, &dict));
    assert!(is_run_valid(&board, Direction::Horizontal, 71, 71, &dict));
}

#[test]
fn limits_are_the_outermost_letters_near_a_line() {
    let mut board = Board::new();
    write(&mut board, "CAT", 72, 70, Direction::Horizontal);
    write(&mut board, "ITS", 71, 72, Direction::Vertical);
    // Row 72 and its neighbours hold letters from column 70 to column 72
    assert_eq!(get_col_limits(&board, 72, 70, 72), (70, 72));
    assert_eq!(get_col_limits(&board, 71, 70, 72), (70, 72));
    // Row 70 has the I of row 71 below it, and nothing else
    assert_eq!(get_col_limits(&board, 70, 70, 72), (72, 72));
    assert_eq!(get_col_limits(&board, 74, 70, 72), (72, 72));
    // No letter near row 75
    assert_eq!(get_col_limits(&board, 75, 70, 72), (72, 70));
    assert_eq!(get_row_limits(&board, 72, 71, 73), (71, 73));
    assert_eq!(get_row_limits(&board, 71, 71, 73), (71, 73));
    assert_eq!(get_row_limits(&board, 70, 71, 73), (72, 72));
    assert_eq!(get_row_limits(&board, 69, 71, 73), (72, 72));
    assert_eq!(get_row_limits(&board, 68, 71, 73), (73, 71));
    assert_eq!(get_line_limits(&board, Direction::Vertical, 73, 71, 73), (71, 73));
    assert!(is_near(&board, Direction::Horizontal, 70, 72));
    assert!(!is_near(&board, Direction::Horizontal, 70, 71));
    assert!(is_near(&board, Direction::Horizontal, 143, 0) == false);
}

#[test]
fn limits_at_the_edges_of_the_board() {
    let mut board = Board::new();
    write(&mut board, "IT", 0, 0, Direction::Horizontal);
    write(&mut board, "IT", 143, 142, Direction::Horizontal);
    assert_eq!(get_col_limits(&board, 0, 0, 143), (0, 1));
    assert_eq!(get_col_limits(&board, 1, 0, 143), (0, 1));
    assert_eq!(get_col_limits(&board, 143, 0, 143), (142, 143));
    assert_eq!(get_row_limits(&board, 0, 0, 143), (0, 0));
    assert_eq!(get_row_limits(&board, 143, 0, 143), (143, 143));
}

#[test]
fn bounds_are_widened_by_a_play() {
    let bounds = Bounds { min_col: 70, max_col: 72, min_row: 72, max_row: 72 };
    assert_eq!(
        bounds.widened(Direction::Vertical, 72, 71, 73),
        Bounds { min_col: 70, max_col: 72, min_row: 71, max_row: 73 }
    );
    assert_eq!(
        bounds.widened(Direction::Horizontal, 72, 68, 75),
        Bounds { min_col: 68, max_col: 75, min_row: 72, max_row: 72 }
    );
    assert_eq!(bounds.widened(Direction::Horizontal, 72, 71, 71), bounds);
    assert_eq!(bounds.along(Direction::Horizontal), (72, 72, 70, 72));
    assert_eq!(bounds.along(Direction::Vertical), (70, 72, 72, 72));
}

#[test]
fn board_is_shown_cell_by_cell() {
    let mut board = Board::new();
    write(&mut board, "CAT", 72, 70, Direction::Horizontal);
    write(&mut board, "ITS", 71, 72, Direction::Vertical);
    let bounds = Bounds { min_col: 70, max_col: 72, min_row: 71, max_row: 73 };
    let shown = board_to_vec(&board, bounds, &CellSet::new());
    assert_eq!(shown, vec![vec![" ", " ", "I"], vec!["C", "A", "T"], vec![" ", " ", "S"]]);
    let mut previous = CellSet::new();
    previous.insert((72, 70));
    previous.insert((72, 72));
    // An empty cell is not marked
    previous.insert((71, 70));
    let shown = board_to_vec(&board, bounds, &previous);
    assert_eq!(shown, vec![vec![" ", " ", "I"], vec!["C*", "A", "T*"], vec![" ", " ", "S"]]);
}

#[test]
fn overlap_is_where_both_boards_hold_the_same_letter() {
    let mut old_board = Board::new();
    write(&mut old_board, "CAT", 72, 70, Direction::Horizontal);
    let mut new_board = Board::new();
    write(&mut new_board, "HAT", 72, 70, Direction::Horizontal);
    write(&mut new_board, "ITS", 71, 72, Direction::Vertical);
    let old_bounds = Bounds { min_col: 70, max_col: 72, min_row: 72, max_row: 72 };
    let new_bounds = Bounds { min_col: 70, max_col: 72, min_row: 71, max_row: 73 };
    let overlap = get_board_overlap(&old_board, &new_board, old_bounds, new_bounds);
    assert!(!overlap.contains(&(72, 70)));
    assert!(overlap.contains(&(72, 71)));
    assert!(overlap.contains(&(72, 72)));
    assert!(!overlap.contains(&(71, 72)));
    assert!(!overlap.contains(&(73, 72)));
    assert!(!overlap.contains(&(72, 73)));
    // Bounds that do not meet
    let far = Bounds { min_col: 80, max_col: 90, min_row: 72, max_row: 72 };
    let overlap = get_board_overlap(&old_board, &new_board, old_bounds, far);
    assert!(!overlap.contains(&(72, 71)));
}

#[test]
fn board_is_written_as_text() {
    let mut board = Board::new();
    write(&mut board, "CAT", 72, 70, Direction::Horizontal);
    write(&mut board, "ITS", 71, 72, Direction::Vertical);
    let bounds = Bounds { min_col: 70, max_col: 73, min_row: 71, max_row: 74 };
    assert_eq!(board_to_string(&board, bounds), "  I \nCAT \n  S");
    let bounds = Bounds { min_col: 70, max_col: 72, min_row: 72, max_row: 72 };
    assert_eq!(board_to_string(&board, bounds), "CAT");
    let bounds = Bounds { min_col: 3, max_col: 5, min_row: 3, max_row: 4 };
    assert_eq!(board_to_string(&board, bounds), "");
}

#[test]
fn bounds_are_found_again_after_a_removal() {
    let mut board = Board::new();
    write(&mut board, "CAT", 72, 70, Direction::Horizontal);
    write(&mut board, "ITS", 71, 72, Direction::Vertical);
    let bounds = Bounds { min_col: 70, max_col: 72, min_row: 71, max_row: 73 };
    assert_eq!(get_new_min_max(&board, bounds, &vec![]), Some(bounds));
    assert_eq!(
        get_new_min_max(&board, bounds, &vec![(71, 72)]),
        Some(Bounds { min_col: 70, max_col: 72, min_row: 72, max_row: 73 })
    );
    assert_eq!(
        get_new_min_max(&board, bounds, &vec![(72, 70), (72, 71)]),
        Some(Bounds { min_col: 72, max_col: 72, min_row: 71, max_row: 73 })
    );
    assert_eq!(
        get_new_min_max(&board, bounds, &vec![(71, 72), (73, 72)]),
        Some(Bounds { min_col: 70, max_col: 72, min_row: 72, max_row: 72 })
    );
    let all = vec![(72, 70), (72, 71), (72, 72), (71, 72), (73, 72)];
    assert_eq!(get_new_min_max(&board, bounds, &all), None);
    // Wider bounds than needed
    let wide = Bounds { min_col: 0, max_col: 143, min_row: 0, max_row: 143 };
    assert_eq!(get_new_min_max(&board, wide, &vec![]), Some(bounds));
    assert!(line_has_letter(&board, Direction::Horizontal, 72, 70, 72, &CellSet::new()));
    assert!(!line_has_letter(&board, Direction::Horizontal, 72, 73, 80, &CellSet::new()));
    assert!(!line_has_letter(&board, Direction::Vertical, 70, 73, 72, &CellSet::new()));
    assert!(!line_has_letter(&board, Direction::Vertical, 70, 72, 72, &CellSet::from_cells(&vec![(72, 70)])));
}

#[test]
fn loose_letters_of_a_run_can_be_removed() {
    let mut board = Board::new();
    write(&mut board, "CAT", 72, 70, Direction::Horizontal);
    write(&mut board, "ITS", 71, 72, Direction::Vertical);
    let bounds = Bounds { min_col: 70, max_col: 72, min_row: 71, max_row: 73 };
    let removable = get_removable_indices(&board, bounds);
    assert_eq!(
        removable,
        vec![
            (vec![(72, 70), (72, 71)], Bounds { min_col: 72, max_col: 72, min_row: 71, max_row: 73 }),
            (vec![(71, 72), (73, 72)], Bounds { min_col: 70, max_col: 72, min_row: 72, max_row: 72 }),
        ]
    );
}

#[test]
fn single_word_has_no_removable_part() {
    let mut board = Board::new();
    write(&mut board, "CAT", 72, 70, Direction::Horizontal);
    let bounds = Bounds { min_col: 70, max_col: 72, min_row: 72, max_row: 72 };
    assert!(get_removable_indices(&board, bounds).is_empty());
    let mut board = Board::new();
    write(&mut board, "CAT", 70, 72, Direction::Vertical);
    let bounds = Bounds { min_col: 72, max_col: 72, min_row: 70, max_row: 72 };
    assert!(get_removable_indices(&board, bounds).is_empty());
    assert!(get_removable_indices(&Board::new(), bounds).is_empty());
}
