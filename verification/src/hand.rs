//! Hands of letter tiles and the arithmetic on them.

use vstd::prelude::*;
use vstd::seq_lib::{lemma_multiset_commutative, to_multiset_build, to_multiset_update};
use crate::alphabet::{is_word, Letters, Word, EMPTY_VALUE};

verus! {

/// How often `letter` occurs in `s`.
pub open spec fn tally(s: Seq<usize>, letter: usize) -> nat {
    s.to_multiset().count(letter)
}

/// Every bin of the hand is zero.
pub open spec fn all_zero(hand: Seq<usize>) -> bool {
    forall|l: int| 0 <= l < 26 ==> hand[l] == 0
}

/// The sum of the first `n` bins of the hand.
pub open spec fn sum_to(hand: Seq<usize>, n: int) -> nat
    decreases n,
{
    if n <= 0 {
        0
    } else {
        sum_to(hand, n - 1) + hand[n - 1] as nat
    }
}

/// The number of tiles in the hand.
pub open spec fn hand_total(hand: Seq<usize>) -> nat {
    sum_to(hand, 26)
}

/// The hand has at least as many of each letter as the word.
pub open spec fn makeable(word: Seq<usize>, hand: Seq<usize>) -> bool {
    forall|l: usize| l < 26 ==> #[trigger] tally(word, l) <= hand[l as int]
}

/// No letter occurs in the empty sequence.
pub proof fn lemma_tally_empty(letter: usize)
    ensures
        tally(Seq::<usize>::empty(), letter) == 0,
{
    vstd::seq_lib::to_multiset_contains(Seq::<usize>::empty(), letter);
}

/// Appending a value adds one to the tally of that value, and nothing to the others.
pub proof fn lemma_tally_push(s: Seq<usize>, v: usize, letter: usize)
    ensures
        tally(s.push(v), letter) == tally(s, letter) + (if v == letter {
            1nat
        } else {
            0nat
        }),
{
    broadcast use vstd::multiset::group_multiset_axioms;

    to_multiset_build(s, v);
}

/// Replacing a value takes one off the tally of the old value and adds one to that of the new.
pub proof fn lemma_tally_update(s: Seq<usize>, i: int, v: usize, letter: usize)
    requires
        0 <= i < s.len(),
    ensures
        tally(s.update(i, v), letter) + (if s[i] == letter {
            1nat
        } else {
            0nat
        }) == tally(s, letter) + (if v == letter {
            1nat
        } else {
            0nat
        }),
{
    broadcast use vstd::multiset::group_multiset_axioms;

    to_multiset_update(s, i, v);
    assert(s.to_multiset().count(s[i]) > 0) by {
        vstd::seq_lib::to_multiset_contains(s, s[i]);
        assert(s.contains(s[i]));
    }
}

/// A letter occurs in the beginning of a sequence no more often than in the sequence.
pub proof fn lemma_tally_take_le(s: Seq<usize>, k: int, letter: usize)
    requires
        0 <= k <= s.len(),
    ensures
        tally(s.take(k), letter) <= tally(s, letter),
{
    broadcast use vstd::multiset::group_multiset_axioms;

    lemma_multiset_commutative(s.take(k), s.skip(k));
    assert(s.take(k) + s.skip(k) =~= s);
}

/// A letter occurs in a sequence no more often than the sequence is long.
pub proof fn lemma_tally_le_len(s: Seq<usize>, letter: usize)
    ensures
        tally(s, letter) <= s.len(),
    decreases s.len(),
{
    if s.len() == 0 {
        lemma_tally_empty(letter);
        assert(s =~= Seq::<usize>::empty());
    } else {
        lemma_tally_le_len(s.drop_last(), letter);
        lemma_tally_push(s.drop_last(), s.last(), letter);
        assert(s.drop_last().push(s.last()) =~= s);
    }
}

/// A sequence in which `letter` does not occur has tally zero, and conversely.
pub proof fn lemma_tally_zero(s: Seq<usize>, letter: usize)
    ensures
        tally(s, letter) == 0 <==> !s.contains(letter),
{
    vstd::seq_lib::to_multiset_contains(s, letter);
}

/// Changing one bin changes the sum by as much, if the bin is among those summed.
pub proof fn lemma_sum_to_update(hand: Seq<usize>, x: int, v: usize, n: int)
    requires
        0 <= x < hand.len(),
        0 <= n <= hand.len(),
    ensures
        sum_to(hand.update(x, v), n) + (if x < n {
            hand[x] as nat
        } else {
            0nat
        }) == sum_to(hand, n) + (if x < n {
            v as nat
        } else {
            0nat
        }),
    decreases n,
{
    if n > 0 {
        lemma_sum_to_update(hand, x, v, n - 1);
    }
}

/// The sum of bins is zero exactly when each of them is.
pub proof fn lemma_sum_to_zero(hand: Seq<usize>, n: int)
    requires
        0 <= n <= 26 <= hand.len(),
    ensures
        sum_to(hand, n) == 0 <==> (forall|l: int| 0 <= l < n ==> hand[l] == 0),
    decreases n,
{
    if n > 0 {
        lemma_sum_to_zero(hand, n - 1);
        if sum_to(hand, n) == 0 {
            assert forall|l: int| 0 <= l < n implies hand[l] == 0 by {
                if l < n - 1 {
                }
            }
        }
    }
}

/// Enumeration of how many letters have been used.
#[derive(Clone, Copy, PartialEq, Eq, Structural, Debug)]
pub enum LetterUsage {
    /// There are still unused letters.
    Remaining,
    /// More letters have been used than are available.
    Overused,
    /// All letters have been used.
    Finished,
}

impl LetterUsage {
    /// The name of the variant.
    pub fn name(&self) -> (s: &'static str)
        ensures
            s@ == match self {
                LetterUsage::Remaining => "Remaining"@,
                LetterUsage::Overused => "Overused"@,
                LetterUsage::Finished => "Finished"@,
            },
    {
        match self {
            LetterUsage::Remaining => "Remaining",
            LetterUsage::Overused => "Overused",
            LetterUsage::Finished => "Finished",
        }
    }
}

/// How a hand of letters compares to the hand before it.
#[derive(Clone, Copy, PartialEq, Eq, Structural, Debug)]
pub enum LetterComparison {
    /// At least one letter has fewer tiles than before.
    SomeLess,
    /// All letters are the same except exactly one, which is greater by exactly one.
    GreaterByOne,
    /// No letter has fewer tiles, and the hand grew by more than one tile.
    GreaterByMoreThanOne,
    /// The hand is the same as before.
    Same,
}

impl LetterComparison {
    /// The name of the variant.
    pub fn name(&self) -> (s: &'static str)
        ensures
            s@ == match self {
                LetterComparison::SomeLess => "Some less"@,
                LetterComparison::GreaterByOne => "Greater by one"@,
                LetterComparison::GreaterByMoreThanOne => "Greater by more than one"@,
                LetterComparison::Same => "Same"@,
            },
    {
        match self {
            LetterComparison::SomeLess => "Some less",
            LetterComparison::GreaterByOne => "Greater by one",
            LetterComparison::GreaterByMoreThanOne => "Greater by more than one",
            LetterComparison::Same => "Same",
        }
    }
}

/// Some bin of `hand` is smaller than the same bin of `previous`.
pub open spec fn some_less(hand: Seq<usize>, previous: Seq<usize>) -> bool {
    exists|l: int| 0 <= l < 26 && hand[l] < previous[l]
}

/// The two hands agree in every bin.
pub open spec fn same_hand(hand: Seq<usize>, previous: Seq<usize>) -> bool {
    forall|l: int| 0 <= l < 26 ==> hand[l] == previous[l]
}

/// `hand` is `previous` with one more tile of `letter`.
pub open spec fn one_more(hand: Seq<usize>, previous: Seq<usize>, letter: int) -> bool {
    &&& 0 <= letter < 26
    &&& hand[letter] == previous[letter] + 1
    &&& forall|l: int| 0 <= l < 26 && l != letter ==> hand[l] == previous[l]
}

/// How `hand` compares to `previous`.
pub open spec fn comparison(hand: Seq<usize>, previous: Seq<usize>) -> LetterComparison {
    if some_less(hand, previous) {
        LetterComparison::SomeLess
    } else if same_hand(hand, previous) {
        LetterComparison::Same
    } else if exists|letter: int| one_more(hand, previous, letter) {
        LetterComparison::GreaterByOne
    } else {
        LetterComparison::GreaterByMoreThanOne
    }
}

/// Compares a hand to the hand before it. With `GreaterByOne` comes the
/// letter that was added; with the other outcomes comes `EMPTY_VALUE`.
pub fn compare_letters(letters: &Letters, previous: &Letters) -> (res: (LetterComparison, usize))
    ensures
        res.0 == comparison(letters@, previous@),
        res.0 == LetterComparison::GreaterByOne ==> one_more(letters@, previous@, res.1 as int),
        res.0 != LetterComparison::GreaterByOne ==> res.1 == EMPTY_VALUE,
{
    let mut less = false;
    let mut grown: usize = 0;
    let mut seen: usize = EMPTY_VALUE;
    let ghost mut witness_less: int = 0;
    let ghost mut witness_grown: int = 0;
    let mut i: usize = 0;
    while i < 26
        invariant
            i <= 26,
            less ==> 0 <= witness_less < i && letters@[witness_less] < previous@[witness_less],
            !less ==> forall|l: int| 0 <= l < i ==> letters@[l] >= previous@[l],
            grown == 0 ==> forall|l: int| 0 <= l < i ==> letters@[l] <= previous@[l],
            grown == 1 ==> seen < i && letters@[seen as int] == previous@[seen as int] + 1
                && forall|l: int| 0 <= l < i && l != seen ==> letters@[l] <= previous@[l],
            grown >= 2 ==> 0 <= witness_grown < i && letters@[witness_grown] > previous@[witness_grown]
                && forall|x: int|
                #![trigger letters@[x]]
                0 <= x < 26 && letters@[x] == previous@[x] + 1 ==> x != witness_grown || (
                exists|y: int| 0 <= y < i && y != x && letters@[y] > previous@[y]),
            grown <= 2,
        decreases 26 - i,
    {
        if letters[i] < previous[i] {
            less = true;
            proof {
                witness_less = i as int;
            }
        } else if letters[i] > previous[i] {
            if grown == 0 && letters[i] - previous[i] == 1 {
                grown = 1;
                seen = i;
            } else {
                proof {
                    let earlier = seen as int;
                    let was_one = grown == 1;
                    let old_witness = witness_grown;
                    let was_many = grown >= 2;
                    witness_grown = i as int;
                    assert forall|x: int|
                        #![trigger letters@[x]]
                        0 <= x < 26 && letters@[x] == previous@[x] + 1 implies x != witness_grown
                        || (exists|y: int| 0 <= y < i + 1 && y != x && letters@[y] > previous@[y]) by {
                        if x == witness_grown {
                            if was_one {
                                assert(earlier != x && letters@[earlier] > previous@[earlier]);
                            } else if was_many {
                                assert(old_witness != x && letters@[old_witness]
                                    > previous@[old_witness]);
                            }
                        }
                    }
                }
                grown = 2;
            }
        }
        i += 1;
    }
    if less {
        assert(some_less(letters@, previous@));
        (LetterComparison::SomeLess, EMPTY_VALUE)
    } else if grown == 0 {
        assert(same_hand(letters@, previous@));
        (LetterComparison::Same, EMPTY_VALUE)
    } else if grown == 1 {
        assert(one_more(letters@, previous@, seen as int));
        assert(!same_hand(letters@, previous@));
        (LetterComparison::GreaterByOne, seen)
    } else {
        proof {
            assert(!same_hand(letters@, previous@));
            assert forall|x: int| !one_more(letters@, previous@, x) by {
                if one_more(letters@, previous@, x) {
                    if x == witness_grown {
                        let y = choose|y: int| 0 <= y < 26 && y != x && letters@[y] > previous@[y];
                        assert(letters@[y] == previous@[y]);
                    } else {
                        assert(letters@[witness_grown] == previous@[witness_grown]);
                    }
                }
            }
        }
        (LetterComparison::GreaterByMoreThanOne, EMPTY_VALUE)
    }
}

/// Checks whether every bin of the hand is zero.
pub fn is_used_up(letters: &Letters) -> (res: bool)
    ensures
        res == all_zero(letters@),
{
    let mut i: usize = 0;
    while i < 26
        invariant
            i <= 26,
            forall|l: int| 0 <= l < i ==> letters@[l] == 0,
        decreases 26 - i,
    {
        if letters[i] != 0 {
            return false;
        }
        i += 1;
    }
    true
}

/// Checks whether `word` can be made using the given `letters`.
pub fn is_makeable(word: &Word, letters: &Letters) -> (res: bool)
    requires
        is_word(word@),
    ensures
        res == makeable(word@, letters@),
{
    let mut available_letters: Letters = *letters;
    let mut i: usize = 0;
    proof {
        assert(word@.take(0) =~= Seq::<usize>::empty());
        assert forall|l: usize| l < 26 implies tally(word@.take(0), l) == 0 by {
            lemma_tally_empty(l);
        }
    }
    while i < word.len()
        invariant
            i <= word.len(),
            is_word(word@),
            forall|l: usize|
                l < 26 ==> available_letters@[l as int] + #[trigger] tally(word@.take(i as int), l)
                    == letters@[l as int],
        decreases word.len() - i,
    {
        let letter = word[i];
        proof {
            assert(word@.take(i + 1) =~= word@.take(i as int).push(letter));
            assert forall|l: usize| l < 26 implies #[trigger] tally(word@.take(i + 1), l) == tally(
                word@.take(i as int),
                l,
            ) + (if letter == l {
                1nat
            } else {
                0nat
            }) by {
                lemma_tally_push(word@.take(i as int), letter, l);
            }
        }
        if available_letters[letter] == 0 {
            proof {
                lemma_tally_take_le(word@, i + 1, letter);
                assert(tally(word@.take(i as int), letter) == letters@[letter as int]);
                assert(tally(word@, letter) > letters@[letter as int]);
            }
            return false;
        }
        available_letters[letter] -= 1;
        i += 1;
    }
    proof {
        assert(word@.take(word.len() as int) =~= word@);
    }
    true
}

} // verus!
