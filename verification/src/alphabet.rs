//! Letters, words and their textual form.
//!
//! A letter is an index from 0 (`A`) to 25 (`Z`); a word is a sequence of
//! letters. Text is turned into a word by keeping its ASCII upper-case
//! characters and dropping everything else.

use vstd::prelude::*;
use vstd::string::StrSliceExecFns;

verus! {

/// The maximum length of any word in the dictionary.
pub const MAX_WORD_LENGTH: usize = 17;

/// Value of an empty cell on the board.
pub const EMPTY_VALUE: usize = 30;

/// Number of rows and of columns of the board.
pub const BOARD_SIZE: usize = 144;

/// A numeric representation of a word.
pub type Word = Vec<usize>;

/// A hand of letters: how many tiles there are of each letter.
pub type Letters = [usize; 26];

/// Every element of `word` is a letter index.
pub open spec fn is_word(word: Seq<usize>) -> bool {
    forall|i: int| 0 <= i < word.len() ==> word[i] < 26
}

/// `c` is one of `A` to `Z`.
pub open spec fn is_upper(c: char) -> bool {
    'A' <= c && c <= 'Z'
}

/// The letter index of an upper-case character.
pub open spec fn letter_of(c: char) -> usize {
    (c as usize - 65) as usize
}

/// The upper-case character of a letter index.
pub open spec fn char_of(letter: usize) -> char {
    ((letter + 65) as u8) as char
}

/// The word spelled by the upper-case characters of `text`, in order.
pub open spec fn encode(text: Seq<char>) -> Seq<usize> {
    text.filter(|c: char| is_upper(c)).map_values(|c: char| letter_of(c))
}

/// The text that spells `word`.
pub open spec fn decode(word: Seq<usize>) -> Seq<char> {
    word.map_values(|letter: usize| char_of(letter))
}

/// `String::push` appends one character to the string and leaves the rest of it as it was.
pub assume_specification[ String::push ](s: &mut String, c: char)
    ensures
        final(s)@ == old(s)@.push(c),
;

/// Encoding yields letters only.
pub proof fn lemma_encode_is_word(text: Seq<char>)
    ensures
        is_word(encode(text)),
{
    let upper = |c: char| is_upper(c);
    let kept = text.filter(upper);
    assert forall|i: int| 0 <= i < encode(text).len() implies encode(text)[i] < 26 by {
        text.lemma_filter_pred(upper, i);
        assert(upper(kept[i]));
    }
}

/// Converts a word into its numeric representation, each letter from 0 (`A`)
/// to 25 (`Z`). Characters other than ASCII upper-case letters are skipped.
pub fn convert_word_to_array(word: &str) -> (out: Word)
    ensures
        out@ == encode(word@),
        is_word(out@),
{
    let ghost upper = |c: char| is_upper(c);
    let ghost to_letter = |c: char| letter_of(c);
    let n = word.unicode_len();
    let mut out: Word = Vec::new();
    let mut i: usize = 0;
    proof {
        reveal(Seq::filter);
        assert(word@.take(0).filter(upper) =~= Seq::<char>::empty());
    }
    while i < n
        invariant
            i <= n,
            n == word@.len(),
            upper == (|c: char| is_upper(c)),
            to_letter == (|c: char| letter_of(c)),
            out@ == word@.take(i as int).filter(upper).map_values(to_letter),
        decreases n - i,
    {
        let c = word.get_char(i);
        proof {
            let before = word@.take(i as int);
            assert(word@.take(i + 1) =~= before.push(c));
            before.lemma_filter_push(c, upper);
            if is_upper(c) {
                assert(before.push(c).filter(upper).map_values(to_letter) =~= before.filter(
                    upper,
                ).map_values(to_letter).push(letter_of(c)));
            }
        }
        if c >= 'A' && c <= 'Z' {
            out.push(c as usize - 65);
        }
        i += 1;
    }
    proof {
        assert(word@.take(n as int) =~= word@);
        lemma_encode_is_word(word@);
    }
    out
}

/// Converts a numeric word into a `String`, each letter from `A` (0) to `Z` (25).
pub fn convert_array_to_word(arr: &Word) -> (out: String)
    requires
        is_word(arr@),
    ensures
        out@ == decode(arr@),
{
    let mut out = String::new();
    let mut i: usize = 0;
    while i < arr.len()
        invariant
            i <= arr.len(),
            is_word(arr@),
            out@ == decode(arr@.take(i as int)),
        decreases arr.len() - i,
    {
        let letter = arr[i];
        let c = ((letter as u8) + 65) as char;
        proof {
            assert(arr@.take(i + 1) =~= arr@.take(i as int).push(letter));
            assert(c == char_of(letter));
            assert(decode(arr@.take(i + 1)) =~= decode(arr@.take(i as int)).push(c));
        }
        out.push(c);
        i += 1;
    }
    proof {
        assert(arr@.take(arr.len() as int) =~= arr@);
    }
    out
}

} // verus!
