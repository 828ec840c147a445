//! Reading a hand from the counts that a request carries, and the errors of a request.

use vstd::prelude::*;
use vstd::string::StringExecFns;
use crate::alphabet::{char_of, Letters};

verus! {

/// Why a request could not be read.
#[derive(Clone, Copy, PartialEq, Eq, Structural, Debug)]
pub enum InputError {
    /// The request carries no count for the letter.
    MissingLetter(usize),
    /// The request carries, for the letter, a count below zero.
    NegativeCount(usize, i64),
}

/// Why a hand could not be solved.
#[derive(Clone, Copy, PartialEq, Eq, Structural, Debug)]
pub enum SolveError {
    /// No word of the dictionary can be made from the hand.
    NoValidWords,
    /// The search found no board that holds every tile of the hand.
    NoSolution,
}

/// The decimal text of a number, as `i64::to_string` writes it.
pub uninterp spec fn decimal_text(n: i64) -> Seq<char>;

/// `i64::to_string`: the decimal text of the number.
#[verifier::external_body]
fn count_to_string(n: i64) -> (text: String)
    ensures
        text@ == decimal_text(n),
{
    n.to_string()
}

/// The count that the request carries for `letter` is missing or below zero.
pub open spec fn is_bad_count(counts: Seq<Option<i64>>, letter: int) -> bool {
    letter >= counts.len() || counts[letter] is None || counts[letter]->0 < 0
}

/// The error for a bad count.
pub open spec fn error_at(counts: Seq<Option<i64>>, letter: int) -> InputError {
    if letter >= counts.len() || counts[letter] is None {
        InputError::MissingLetter(letter as usize)
    } else {
        InputError::NegativeCount(letter as usize, counts[letter]->0)
    }
}

impl InputError {
    /// The message of the error.
    pub fn message(&self) -> (text: String)
        requires
            match self {
                InputError::MissingLetter(letter) => letter < 26,
                InputError::NegativeCount(letter, _) => letter < 26,
            },
        ensures
            text@ == match self {
                InputError::MissingLetter(letter) => "Missing letter: "@.push(char_of(*letter)),
                InputError::NegativeCount(letter, count) => "Number of letter "@.push(char_of(*letter))
                    + " is "@ + decimal_text(*count) + ", but must be greater than or equal to 0!"@,
            },
    {
        match self {
            InputError::MissingLetter(letter) => {
                let mut text = String::from_str("Missing letter: ");
                text.push(((*letter as u8) + 65) as char);
                text
            },
            InputError::NegativeCount(letter, count) => {
                let mut text = String::from_str("Number of letter ");
                text.push(((*letter as u8) + 65) as char);
                text.append(" is ");
                let number = count_to_string(*count);
                text.append(number.as_str());
                text.append(", but must be greater than or equal to 0!");
                text
            },
        }
    }
}

impl SolveError {
    /// The message of the error.
    pub fn message(&self) -> (text: &'static str)
        ensures
            text@ == match self {
                SolveError::NoValidWords => "No valid words can be formed from the current letters - dump and try again!"@,
                SolveError::NoSolution => "No solution found - dump and try again!"@,
            },
    {
        match self {
            SolveError::NoValidWords => "No valid words can be formed from the current letters - dump and try again!",
            SolveError::NoSolution => "No solution found - dump and try again!",
        }
    }
}

/// Reads a hand from the counts of a request, one for each letter from `A` to
/// `Z`. The first letter whose count is missing or below zero gives the error.
pub fn letters_from_counts(counts: &Vec<Option<i64>>) -> (res: Result<Letters, InputError>)
    ensures
        match res {
            Ok(letters) => forall|l: int|
                0 <= l < 26 ==> !is_bad_count(counts@, l) && letters@[l] == (counts@[l]->0) as usize,
            Err(error) => exists|l: int|
                0 <= l < 26 && is_bad_count(counts@, l) && error == error_at(counts@, l) && forall|k: int|
                    0 <= k < l ==> !is_bad_count(counts@, k),
        },
{
    let mut letters: Letters = [0usize;26];
    let mut i: usize = 0;
    while i < 26
        invariant
            i <= 26,
            forall|l: int|
                0 <= l < i ==> !is_bad_count(counts@, l) && letters@[l] == (counts@[l]->0) as usize,
        decreases 26 - i,
    {
        if i >= counts.len() {
            assert(is_bad_count(counts@, i as int));
            return Err(InputError::MissingLetter(i));
        }
        match counts[i] {
            Some(number) => {
                if number < 0 {
                    assert(is_bad_count(counts@, i as int));
                    return Err(InputError::NegativeCount(i, number));
                }
                letters[i] = #[verifier::truncate]
                (number as usize);
            },
            None => {
                assert(is_bad_count(counts@, i as int));
                return Err(InputError::MissingLetter(i));
            },
        }
        i += 1;
    }
    Ok(letters)
}

} // verus!
