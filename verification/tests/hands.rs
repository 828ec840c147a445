use bananagrams_solver::alphabet::{convert_word_to_array, Letters, EMPTY_VALUE};
use bananagrams_solver::filters::{check_filter_after_play, check_filter_after_play_later};
use bananagrams_solver::hand::{
    compare_letters, is_makeable, is_used_up, LetterComparison, LetterUsage,
};
use bananagrams_solver::line::Direction;
use bananagrams_solver::random::{get_random_letters, parse_tile_set, same_text, DrawError, TileSet, REGULAR_TILES};
use bananagrams_solver::wordset::LetterSet;

fn hand_of(tiles: &str) -> Letters {
    let mut letters = [0usize; 26];
    for letter in convert_word_to_array(tiles) {
        letters[letter] += 1;
    }
    letters
}

#[test]
fn word_is_makeable_when_the_hand_has_its_letters() {
    assert!(is_makeable(&convert_word_to_array("CAT"), &hand_of("TACO")));
    assert!(is_makeable(&convert_word_to_array("CAT"), &hand_of("CAT")));
    assert!(is_makeable(&convert_word_to_array(""), &hand_of("")));
    assert!(is_makeable(&convert_word_to_array("ADA"), &hand_of("AAD")));
}

#[test]
fn word_is_not_makeable_when_a_letter_is_short() {
    assert!(!is_makeable(&convert_word_to_array("CAT"), &hand_of("CA")));
    assert!(!is_makeable(&convert_word_to_array("ADA"), &hand_of("ADD")));
    assert!(!is_makeable(&convert_word_to_array("A"), &hand_of("")));
}

#[test]
fn used_up_hand_has_no_tiles() {
    assert!(is_used_up(&hand_of("")));
    assert!(!is_used_up(&hand_of("Z")));
    assert!(!is_used_up(&hand_of("A")));
}

#[test]
fn hands_are_compared_bin_by_bin() {
    let cat = hand_of("CAT");
    assert_eq!(compare_letters(&cat, &cat), (LetterComparison::Same, EMPTY_VALUE));
    assert_eq!(compare_letters(&hand_of("CATS"), &cat), (LetterComparison::GreaterByOne, 18));
    assert_eq!(compare_letters(&hand_of("CATT"), &cat), (LetterComparison::GreaterByOne, 19));
    assert_eq!(
        compare_letters(&hand_of("CATSS"), &cat),
        (LetterComparison::GreaterByMoreThanOne, EMPTY_VALUE)
    );
    assert_eq!(
        compare_letters(&hand_of("CATSH"), &cat),
        (LetterComparison::GreaterByMoreThanOne, EMPTY_VALUE)
    );
    assert_eq!(compare_letters(&hand_of("CA"), &cat), (LetterComparison::SomeLess, EMPTY_VALUE));
    assert_eq!(compare_letters(&hand_of("CASSS"), &cat), (LetterComparison::SomeLess, EMPTY_VALUE));
}

#[test]
fn two_more_of_one_letter_and_one_more_of_another_is_more_than_one() {
    // The letter with two more tiles comes first in the alphabet
    assert_eq!(
        compare_letters(&hand_of("AAAB"), &hand_of("A")),
        (LetterComparison::GreaterByMoreThanOne, EMPTY_VALUE)
    );
    assert_eq!(
        compare_letters(&hand_of("ABBB"), &hand_of("B")),
        (LetterComparison::GreaterByMoreThanOne, EMPTY_VALUE)
    );
}

#[test]
fn names_of_the_enumerations() {
    assert_eq!(LetterUsage::Remaining.name(), "Remaining");
    assert_eq!(LetterUsage::Overused.name(), "Overused");
    assert_eq!(LetterUsage::Finished.name(), "Finished");
    assert_eq!(LetterComparison::SomeLess.name(), "Some less");
    assert_eq!(LetterComparison::GreaterByOne.name(), "Greater by one");
    assert_eq!(LetterComparison::GreaterByMoreThanOne.name(), "Greater by more than one");
    assert_eq!(LetterComparison::Same.name(), "Same");
    assert_eq!(Direction::Horizontal.name(), "Horizontal");
    assert_eq!(Direction::Vertical.name(), "Vertical");
    assert_eq!(Direction::Horizontal.flipped(), Direction::Vertical);
    assert_eq!(Direction::Vertical.flipped(), Direction::Horizontal);
}

#[test]
fn later_filter_lends_letters_of_the_board() {
    let word = convert_word_to_array("CATS");
    // Everything in the hand
    assert!(check_filter_after_play_later(hand_of("CATS"), hand_of(""), &word, 0));
    // One letter from the board
    assert!(check_filter_after_play_later(hand_of("CAT"), hand_of("S"), &word, 1));
    assert!(!check_filter_after_play_later(hand_of("CAT"), hand_of("S"), &word, 0));
    assert!(!check_filter_after_play_later(hand_of("CAT"), hand_of("X"), &word, 2));
    // Two letters from the board
    assert!(check_filter_after_play_later(hand_of("CA"), hand_of("ST"), &word, 2));
    assert!(!check_filter_after_play_later(hand_of("CA"), hand_of("ST"), &word, 1));
    // The board has one S only
    let word = convert_word_to_array("SASS");
    assert!(!check_filter_after_play_later(hand_of("AS"), hand_of("S"), &word, 5));
    assert!(check_filter_after_play_later(hand_of("AS"), hand_of("SS"), &word, 2));
}

#[test]
fn first_filter_lends_one_letter_of_the_first_word() {
    let first = LetterSet::from_word(&convert_word_to_array("CAT"));
    assert!(check_filter_after_play(hand_of("HS"), &convert_word_to_array("HATS"), &first) == false);
    assert!(check_filter_after_play(hand_of("HSA"), &convert_word_to_array("HATS"), &first));
    assert!(check_filter_after_play(hand_of("HATS"), &convert_word_to_array("HATS"), &first));
    assert!(check_filter_after_play(hand_of("I"), &convert_word_to_array("IT"), &first));
    // The missing letter is not in the first word
    assert!(!check_filter_after_play(hand_of("I"), &convert_word_to_array("IS"), &first));
    // Two letters are missing
    assert!(!check_filter_after_play(hand_of("S"), &convert_word_to_array("CATS"), &first));
}

#[test]
fn texts_are_compared_character_by_character() {
    assert!(same_text("infinite set", "infinite set"));
    assert!(!same_text("infinite set", "infinite sets"));
    assert!(!same_text("infinite set", "infinite seT"));
    assert!(same_text("", ""));
    assert!(same_text("\u{e9}t\u{e9}", "\u{e9}t\u{e9}"));
}

#[test]
fn tile_sets_have_their_names() {
    assert_eq!(parse_tile_set("infinite set"), Some(TileSet::Infinite));
    assert_eq!(parse_tile_set("standard Bananagrams"), Some(TileSet::Standard));
    assert_eq!(parse_tile_set("double Bananagrams"), Some(TileSet::Double));
    assert_eq!(parse_tile_set("standard bananagrams"), None);
    assert_eq!(parse_tile_set(""), None);
}

#[test]
fn regular_tiles_are_144() {
    assert_eq!(REGULAR_TILES.iter().sum::<u64>(), 144);
    assert_eq!(REGULAR_TILES[0], 13);
    assert_eq!(REGULAR_TILES[4], 18);
    assert_eq!(REGULAR_TILES[25], 2);
}

#[test]
fn draw_from_the_infinite_set_has_the_number_asked_for() {
    for how_many in [1i64, 7, 500] {
        let counts = get_random_letters("infinite set", how_many).unwrap();
        assert_eq!(counts.iter().sum::<u64>(), how_many as u64);
    }
}

#[test]
fn draw_from_the_standard_set_stays_within_the_set() {
    for how_many in [1i64, 21, 143] {
        let counts = get_random_letters("standard Bananagrams", how_many).unwrap();
        assert_eq!(counts.iter().sum::<u64>(), how_many as u64);
        for letter in 0..26 {
            assert!(counts[letter] <= REGULAR_TILES[letter]);
        }
    }
    let all = get_random_letters("standard Bananagrams", 144).unwrap();
    assert_eq!(all, REGULAR_TILES);
}

#[test]
fn draw_from_the_double_set_stays_within_the_set() {
    let counts = get_random_letters("double Bananagrams", 150).unwrap();
    assert_eq!(counts.iter().sum::<u64>(), 150);
    for letter in 0..26 {
        assert!(counts[letter] <= 2 * REGULAR_TILES[letter]);
    }
    let all = get_random_letters("double Bananagrams", 288).unwrap();
    for letter in 0..26 {
        assert_eq!(all[letter], 2 * REGULAR_TILES[letter]);
    }
}

#[test]
fn draws_that_cannot_be_made() {
    assert_eq!(get_random_letters("infinite set", 0), Err(DrawError::TooFew));
    assert_eq!(get_random_letters("no such set", -3), Err(DrawError::TooFew));
    assert_eq!(get_random_letters("standard Bananagrams", 145), Err(DrawError::TooManyForStandard));
    assert_eq!(get_random_letters("double Bananagrams", 289), Err(DrawError::TooManyForDouble));
    assert_eq!(get_random_letters("no such set", 5), Err(DrawError::UnknownTileSet));
}

#[test]
fn draw_errors_have_their_messages() {
    assert_eq!(DrawError::TooFew.message("x"), "The number to choose should be greater than 0");
    assert_eq!(
        DrawError::TooManyForStandard.message("x"),
        "The number to choose must be less than 144 for standard Banangrams"
    );
    assert_eq!(
        DrawError::TooManyForDouble.message("x"),
        "The number to choose must be less than 288 for double Banangrams"
    );
    assert_eq!(
        DrawError::UnknownTileSet.message("some set"),
        "`what` must be \"infinite set\", \"standard Bananagrams\", or \"double Bananagrams\", not some set"
    );
}
