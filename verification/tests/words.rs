use bananagrams_solver::alphabet::{
    convert_array_to_word, convert_word_to_array, Letters, Word, BOARD_SIZE, EMPTY_VALUE, MAX_WORD_LENGTH,
};
use bananagrams_solver::dictionary::{load_dictionary, longer_first, parse_words, Dictionaries};
use bananagrams_solver::input::{letters_from_counts, InputError, SolveError};
use bananagrams_solver::playable::{get_playable_words, playable_words};
use bananagrams_solver::wordset::{CellSet, LetterSet, WordSet};
use std::cmp::Ordering;

fn hand_of(tiles: &str) -> Letters {
    let mut letters = [0usize; 26];
    for letter in convert_word_to_array(tiles) {
        letters[letter] += 1;
    }
    letters
}

#[test]
fn constants_have_their_values() {
    assert_eq!(MAX_WORD_LENGTH, 17);
    assert_eq!(EMPTY_VALUE, 30);
    assert_eq!(BOARD_SIZE, 144);
}

#[test]
fn word_is_encoded_letter_by_letter() {
    assert_eq!(convert_word_to_array("CAT"), vec![2, 0, 19]);
    assert_eq!(convert_word_to_array("AZ"), vec![0, 25]);
    assert_eq!(convert_word_to_array(""), Vec::<usize>::new());
}

#[test]
fn encoding_skips_what_is_not_upper_case() {
    assert_eq!(convert_word_to_array("cAt"), vec![0]);
    assert_eq!(convert_word_to_array("C-A T\r"), vec![2, 0, 19]);
    assert_eq!(convert_word_to_array("ÀÉ CHAT é"), vec![2, 7, 0, 19]);
    assert_eq!(convert_word_to_array("123"), Vec::<usize>::new());
}

#[test]
fn word_is_decoded_letter_by_letter() {
    assert_eq!(convert_array_to_word(&vec![2, 0, 19]), "CAT");
    assert_eq!(convert_array_to_word(&vec![0, 25]), "AZ");
    assert_eq!(convert_array_to_word(&vec![]), "");
}

#[test]
fn decoding_undoes_encoding() {
    for text in ["HELLO", "QUIZ", "A", "ABCDEFGHIJKLMNOPQRSTUVWXYZ"] {
        assert_eq!(convert_array_to_word(&convert_word_to_array(text)), text);
    }
    assert_eq!(convert_array_to_word(&convert_word_to_array("Hello World")), "HW");
}

#[test]
fn text_is_read_line_by_line() {
    let words = parse_words("CAT\nHI\n".as_bytes());
    assert_eq!(words, vec![vec![2, 0, 19], vec![7, 8]]);
    let words = parse_words("CAT\nHI".as_bytes());
    assert_eq!(words, vec![vec![2, 0, 19], vec![7, 8]]);
}

#[test]
fn lines_without_letters_give_no_word() {
    let words = parse_words("\n\nCAT\r\n\r\n  \nhi\nH I\n\n".as_bytes());
    assert_eq!(words, vec![vec![2, 0, 19], vec![7, 8]]);
    assert_eq!(parse_words("".as_bytes()), Vec::<Word>::new());
    assert_eq!(parse_words("\n".as_bytes()), Vec::<Word>::new());
}

#[test]
fn longer_word_comes_first() {
    assert_eq!(longer_first(&vec![1, 2, 3], &vec![1, 2]), Ordering::Less);
    assert_eq!(longer_first(&vec![1], &vec![1, 2]), Ordering::Greater);
    assert_eq!(longer_first(&vec![3, 4], &vec![1, 2]), Ordering::Equal);
}

#[test]
fn dictionary_is_sorted_by_length() {
    let words = load_dictionary("HI\nCATS\nOX\nFOXY\nCAT\nA\n".as_bytes());
    let texts: Vec<String> = words.iter().map(convert_array_to_word).collect();
    // The longest first; words of one length in the order that they had
    assert_eq!(texts, vec!["CATS", "FOXY", "CAT", "HI", "OX", "A"]);
}

#[test]
fn dictionaries_are_read_from_two_texts() {
    let dicts = Dictionaries::new("HI\nHAT\n".as_bytes(), "IT\nHATS\nHI\n".as_bytes());
    assert_eq!(dicts.short, vec![vec![7, 0, 19], vec![7, 8]]);
    assert_eq!(dicts.long, vec![vec![7, 0, 19, 18], vec![8, 19], vec![7, 8]]);
    assert_eq!(dicts.active(false), &dicts.short);
    assert_eq!(dicts.active(true), &dicts.long);
}

#[test]
fn playable_words_are_those_that_the_hand_can_make() {
    let dict = load_dictionary("HI\nHAT\nCAT\nCATS\nHATS\nIT\nITS\n".as_bytes());
    assert_eq!(playable_words(&dict, &hand_of("CATS")), vec!["CATS", "CAT"]);
    assert_eq!(playable_words(&dict, &hand_of("HIT")), vec!["HI", "IT"]);
    assert_eq!(playable_words(&dict, &hand_of("Z")), Vec::<String>::new());
}

#[test]
fn playable_words_of_both_dictionaries() {
    let dicts = Dictionaries::new("HI\nHAT\n".as_bytes(), "HIT\nHI\nTHAT\n".as_bytes());
    let playable = get_playable_words(&dicts, &hand_of("HIT"));
    assert_eq!(playable.short, vec!["HI"]);
    assert_eq!(playable.long, vec!["HIT", "HI"]);
}

#[test]
fn word_set_holds_what_was_put_into_it() {
    let mut set = WordSet::new();
    assert!(!set.contains(&vec![2, 0, 19]));
    assert!(set.insert(vec![2, 0, 19]));
    assert!(!set.insert(vec![2, 0, 19]));
    assert!(set.contains(&vec![2, 0, 19]));
    assert!(!set.contains(&vec![2, 0]));
    assert!(!set.contains(&vec![19, 0, 2]));
}

#[test]
fn word_set_of_a_list() {
    let list = vec![vec![7, 8], vec![2, 0, 19]];
    let set = WordSet::from_words(&list);
    assert!(set.contains(&vec![7, 8]));
    assert!(set.contains(&vec![2, 0, 19]));
    assert!(!set.contains(&vec![8, 7]));
    let refs: Vec<&Word> = list.iter().collect();
    let set = WordSet::from_refs(&refs);
    assert!(set.contains(&vec![7, 8]));
    assert!(!set.contains(&vec![]));
}

#[test]
fn cell_set_holds_what_was_put_into_it() {
    let mut set = CellSet::new();
    assert!(!set.contains(&(3, 4)));
    assert!(set.insert((3, 4)));
    assert!(!set.insert((3, 4)));
    assert!(set.contains(&(3, 4)));
    assert!(!set.contains(&(4, 3)));
}

#[test]
fn letter_set_holds_the_letters_of_a_word() {
    let set = LetterSet::from_word(&vec![2, 0, 19, 0]);
    assert!(set.contains(0));
    assert!(set.contains(2));
    assert!(set.contains(19));
    assert!(!set.contains(1));
    let mut set = LetterSet::new();
    assert!(!set.contains(5));
    assert!(set.insert(5));
    assert!(!set.insert(5));
    assert!(set.contains(5));
}

#[test]
fn hand_is_read_from_counts() {
    let mut counts: Vec<Option<i64>> = vec![Some(0); 26];
    counts[0] = Some(3);
    counts[25] = Some(1);
    let letters = letters_from_counts(&counts).unwrap();
    assert_eq!(letters[0], 3);
    assert_eq!(letters[1], 0);
    assert_eq!(letters[25], 1);
    assert_eq!(letters.iter().sum::<usize>(), 4);
}

#[test]
fn missing_count_is_an_error() {
    let mut counts: Vec<Option<i64>> = vec![Some(1); 26];
    counts[2] = None;
    counts[5] = Some(-1);
    assert_eq!(letters_from_counts(&counts), Err(InputError::MissingLetter(2)));
    let counts: Vec<Option<i64>> = vec![Some(1); 25];
    assert_eq!(letters_from_counts(&counts), Err(InputError::MissingLetter(25)));
    assert_eq!(InputError::MissingLetter(2).message(), "Missing letter: C");
}

#[test]
fn negative_count_is_an_error() {
    let mut counts: Vec<Option<i64>> = vec![Some(1); 26];
    counts[4] = Some(-7);
    counts[9] = None;
    assert_eq!(letters_from_counts(&counts), Err(InputError::NegativeCount(4, -7)));
    assert_eq!(
        InputError::NegativeCount(4, -7).message(),
        "Number of letter E is -7, but must be greater than or equal to 0!"
    );
}

#[test]
fn solve_errors_have_their_messages() {
    assert_eq!(
        SolveError::NoValidWords.message(),
        "No valid words can be formed from the current letters - dump and try again!"
    );
    assert_eq!(SolveError::NoSolution.message(), "No solution found - dump and try again!");
}
