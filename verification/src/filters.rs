//! The word filters: coarse tests of whether a word can still be played.
//!
//! Both tests count how many tiles a word needs beyond what the hand has. The
//! missing tiles would have to be letters that already lie on the board and
//! that the word crosses. The filters only shrink the list of words to try:
//! a word that passes may still fail on the board.

use vstd::prelude::*;
use crate::alphabet::{is_word, Letters, Word};
use crate::hand::{lemma_tally_empty, lemma_tally_push, lemma_tally_take_le, tally};
use crate::wordset::LetterSet;

verus! {

/// How many tiles of `letter` the word needs beyond what the hand has.
pub open spec fn shortfall(word: Seq<usize>, hand: Seq<usize>, letter: usize) -> nat {
    if tally(word, letter) > hand[letter as int] {
        (tally(word, letter) - hand[letter as int]) as nat
    } else {
        0
    }
}

/// How many tiles of the first `n` letters of the alphabet the word needs
/// beyond what the hand has.
pub open spec fn shortfall_sum(word: Seq<usize>, hand: Seq<usize>, n: int) -> nat
    decreases n,
{
    if n <= 0 {
        0
    } else {
        shortfall_sum(word, hand, n - 1) + shortfall(word, hand, (n - 1) as usize)
    }
}

/// How many tiles the word needs beyond what the hand has.
pub open spec fn total_shortfall(word: Seq<usize>, hand: Seq<usize>) -> nat {
    shortfall_sum(word, hand, 26)
}

/// The word can be formed from the hand and at most `limit` letters of the
/// board, of each letter no more than the board has.
pub open spec fn passes_later(hand: Seq<usize>, board: Seq<usize>, word: Seq<usize>, limit: usize) -> bool {
    &&& forall|l: usize| l < 26 ==> #[trigger] shortfall(word, hand, l) <= board[l as int]
    &&& total_shortfall(word, hand) <= limit
}

/// The word can be formed from the hand and at most one letter of the
/// first word.
pub open spec fn passes_first(hand: Seq<usize>, word: Seq<usize>, first_word: Set<usize>) -> bool {
    &&& forall|l: usize| l < 26 && #[trigger] shortfall(word, hand, l) > 0 ==> first_word.contains(l)
    &&& total_shortfall(word, hand) <= 1
}

/// One more tile missing of one letter is one more tile missing in all.
proof fn lemma_shortfall_sum_step(
    shorter: Seq<usize>,
    longer: Seq<usize>,
    hand: Seq<usize>,
    letter: usize,
    n: int,
)
    requires
        0 <= n <= 26,
        forall|l: usize|
            l < 26 ==> #[trigger] shortfall(longer, hand, l) == shortfall(shorter, hand, l) + (if l
                == letter {
                1nat
            } else {
                0nat
            }),
    ensures
        shortfall_sum(longer, hand, n) == shortfall_sum(shorter, hand, n) + (if letter < n {
            1nat
        } else {
            0nat
        }),
    decreases n,
{
    if n > 0 {
        lemma_shortfall_sum_step(shorter, longer, hand, letter, n - 1);
        assert(shortfall(longer, hand, (n - 1) as usize) == shortfall(shorter, hand, (n - 1) as usize)
            + (if (n - 1) as usize == letter {
            1nat
        } else {
            0nat
        }));
    }
}

/// Where of no letter more tiles are missing, no more are missing in all.
proof fn lemma_shortfall_sum_same(shorter: Seq<usize>, longer: Seq<usize>, hand: Seq<usize>, n: int)
    requires
        0 <= n <= 26,
        forall|l: usize| l < 26 ==> #[trigger] shortfall(longer, hand, l) == shortfall(shorter, hand, l),
    ensures
        shortfall_sum(longer, hand, n) == shortfall_sum(shorter, hand, n),
    decreases n,
{
    if n > 0 {
        lemma_shortfall_sum_same(shorter, longer, hand, n - 1);
        assert(shortfall(longer, hand, (n - 1) as usize) == shortfall(shorter, hand, (n - 1) as usize));
    }
}

/// Where of no letter fewer tiles are missing, no fewer are missing in all.
proof fn lemma_shortfall_sum_le(shorter: Seq<usize>, longer: Seq<usize>, hand: Seq<usize>, n: int)
    requires
        0 <= n <= 26,
        forall|l: usize| l < 26 ==> #[trigger] shortfall(shorter, hand, l) <= shortfall(longer, hand, l),
    ensures
        shortfall_sum(shorter, hand, n) <= shortfall_sum(longer, hand, n),
    decreases n,
{
    if n > 0 {
        lemma_shortfall_sum_le(shorter, longer, hand, n - 1);
        assert(shortfall(shorter, hand, (n - 1) as usize) <= shortfall(longer, hand, (n - 1) as usize));
    }
}

/// Of no letter more tiles are missing than in all.
proof fn lemma_shortfall_in_sum(word: Seq<usize>, hand: Seq<usize>, letter: usize, n: int)
    requires
        0 <= letter < n <= 26,
    ensures
        shortfall(word, hand, letter) <= shortfall_sum(word, hand, n),
    decreases n,
{
    if letter < n - 1 {
        lemma_shortfall_in_sum(word, hand, letter, n - 1);
    }
}

/// Where of no letter a tile is missing, none is missing in all.
proof fn lemma_shortfall_sum_zero(word: Seq<usize>, hand: Seq<usize>, n: int)
    requires
        0 <= n <= 26,
        forall|l: usize| l < 26 ==> #[trigger] shortfall(word, hand, l) == 0,
    ensures
        shortfall_sum(word, hand, n) == 0,
    decreases n,
{
    if n > 0 {
        lemma_shortfall_sum_zero(word, hand, n - 1);
        assert(shortfall(word, hand, (n - 1) as usize) == 0);
    }
}

/// A part of a word at its beginning needs no more tiles than the word.
proof fn lemma_shortfall_of_prefix(word: Seq<usize>, hand: Seq<usize>, k: int)
    requires
        0 <= k <= word.len(),
    ensures
        forall|l: usize| l < 26 ==> #[trigger] shortfall(word.take(k), hand, l) <= shortfall(word, hand, l),
        total_shortfall(word.take(k), hand) <= total_shortfall(word, hand),
{
    assert forall|l: usize| l < 26 implies #[trigger] shortfall(word.take(k), hand, l) <= shortfall(
        word,
        hand,
        l,
    ) by {
        lemma_tally_take_le(word, k, l);
    }
    lemma_shortfall_sum_le(word.take(k), word, hand, 26);
}

/// Removes words that cannot be played with `current_letters` plus a set
/// number of `board_letters`: the word passes when it can be formed from
/// the hand and at most `filter_letters_on_board` letters of the board.
pub fn check_filter_after_play_later(
    current_letters: Letters,
    board_letters: Letters,
    word_being_checked: &Word,
    filter_letters_on_board: usize,
) -> (pass: bool)
    requires
        is_word(word_being_checked@),
    ensures
        pass == passes_later(
            current_letters@,
            board_letters@,
            word_being_checked@,
            filter_letters_on_board,
        ),
{
    let ghost hand = current_letters@;
    let ghost board = board_letters@;
    let ghost word = word_being_checked@;
    let mut in_hand: Letters = current_letters;
    let mut on_board: Letters = board_letters;
    let mut num_from_board: usize = 0;
    let mut i: usize = 0;
    proof {
        assert(word.take(0) =~= Seq::<usize>::empty());
        assert forall|l: usize| l < 26 implies tally(word.take(0), l) == 0 by {
            lemma_tally_empty(l);
        }
        lemma_shortfall_sum_zero(word.take(0), hand, 26);
    }
    while i < word_being_checked.len()
        invariant
            i <= word_being_checked.len(),
            is_word(word),
            word == word_being_checked@,
            hand == current_letters@,
            board == board_letters@,
            forall|l: usize|
                l < 26 ==> in_hand@[l as int] + #[trigger] tally(word.take(i as int), l) == hand[l as int]
                    + shortfall(word.take(i as int), hand, l),
            forall|l: usize|
                l < 26 ==> in_hand@[l as int] == 0 || #[trigger] shortfall(word.take(i as int), hand, l)
                    == 0,
            forall|l: usize|
                l < 26 ==> on_board@[l as int] + #[trigger] shortfall(word.take(i as int), hand, l)
                    == board[l as int],
            num_from_board == total_shortfall(word.take(i as int), hand),
            num_from_board <= filter_letters_on_board,
        decreases word_being_checked.len() - i,
    {
        let letter = word_being_checked[i];
        let ghost shorter = word.take(i as int);
        let ghost longer = word.take(i + 1);
        proof {
            assert(longer =~= shorter.push(letter));
            assert forall|l: usize| l < 26 implies #[trigger] tally(longer, l) == tally(shorter, l) + (if l
                == letter {
                1nat
            } else {
                0nat
            }) by {
                lemma_tally_push(shorter, letter, l);
            }
            lemma_shortfall_of_prefix(word, hand, i + 1);
        }
        if in_hand[letter] == 0 {
            proof {
                assert forall|l: usize| l < 26 implies #[trigger] shortfall(longer, hand, l)
                    == shortfall(shorter, hand, l) + (if l == letter {
                    1nat
                } else {
                    0nat
                }) by {
                    assert(tally(longer, l) == tally(shorter, l) + (if l == letter {
                        1nat
                    } else {
                        0nat
                    }));
                    assert(in_hand@[l as int] + tally(shorter, l) == hand[l as int] + shortfall(
                        shorter,
                        hand,
                        l,
                    ));
                }
                lemma_shortfall_sum_step(shorter, longer, hand, letter, 26);
            }
            if num_from_board == filter_letters_on_board {
                return false;
            }
            if on_board[letter] == 0 {
                proof {
                    assert(shortfall(longer, hand, letter) == shortfall(shorter, hand, letter) + 1);
                    assert(shortfall(longer, hand, letter) <= shortfall(word, hand, letter));
                }
                return false;
            }
            on_board[letter] -= 1;
            num_from_board += 1;
        } else {
            proof {
                assert forall|l: usize| l < 26 implies #[trigger] shortfall(longer, hand, l)
                    == shortfall(shorter, hand, l) by {
                    assert(tally(longer, l) == tally(shorter, l) + (if l == letter {
                        1nat
                    } else {
                        0nat
                    }));
                    assert(in_hand@[l as int] + tally(shorter, l) == hand[l as int] + shortfall(
                        shorter,
                        hand,
                        l,
                    ));
                    assert(in_hand@[l as int] == 0 || shortfall(shorter, hand, l) == 0);
                }
                lemma_shortfall_sum_same(shorter, longer, hand, 26);
            }
            in_hand[letter] -= 1;
        }
        i += 1;
    }
    proof {
        assert(word.take(word.len() as int) =~= word);
    }
    true
}

/// Checks which words can be played after the first: the word passes when it
/// can be formed from the hand and at most one letter that was played on the
/// board with the first word.
pub fn check_filter_after_play(letters: Letters, word_being_checked: &Word, played_on_board: &LetterSet) -> (pass:
    bool)
    requires
        is_word(word_being_checked@),
    ensures
        pass == passes_first(letters@, word_being_checked@, played_on_board@),
{
    let mut lendable: Letters = [0usize;26];
    let mut l: usize = 0;
    while l < 26
        invariant
            l <= 26,
            forall|k: usize|
                k < l ==> lendable@[k as int] == (if played_on_board@.contains(k) {
                    1usize
                } else {
                    0usize
                }),
        decreases 26 - l,
    {
        if played_on_board.contains(l) {
            lendable[l] = 1;
        } else {
            lendable[l] = 0;
        }
        l += 1;
    }
    let pass = check_filter_after_play_later(letters, lendable, word_being_checked, 1);
    proof {
        let word = word_being_checked@;
        if passes_first(letters@, word, played_on_board@) {
            assert forall|k: usize| k < 26 implies #[trigger] shortfall(word, letters@, k)
                <= lendable@[k as int] by {
                lemma_shortfall_in_sum(word, letters@, k, 26);
            }
        }
    }
    pass
}

} // verus!
