//! The dictionaries: two lists of words, each sorted with its longest words first.
//!
//! A list is read from a text with one word per line. Of each line the ASCII
//! upper-case letters are kept and everything else is dropped; a line without
//! such a letter gives no word.

use vstd::prelude::*;
use std::cmp::Ordering;
use crate::alphabet::{is_word, Word};
use crate::wordset::words_of;

verus! {

/// The byte is one of `A` to `Z`.
pub open spec fn is_upper_byte(b: u8) -> bool {
    65 <= b <= 90
}

/// The pieces into which the line feeds cut the text. There is always one
/// piece more than there are line feeds.
pub open spec fn segments(text: Seq<u8>) -> Seq<Seq<u8>>
    decreases text.len(),
{
    if text.len() == 0 {
        seq![Seq::<u8>::empty()]
    } else {
        let before = segments(text.drop_last());
        if text.last() == 10 {
            before.push(Seq::<u8>::empty())
        } else {
            before.drop_last().push(before.last().push(text.last()))
        }
    }
}

/// The word spelled by the upper-case letters of a line.
pub open spec fn letters_of_line(line: Seq<u8>) -> Seq<usize> {
    line.filter(|b: u8| is_upper_byte(b)).map_values(|b: u8| (b - 65) as usize)
}

/// The words of a text: the word of each of its lines that holds a letter, in order.
pub open spec fn words_in(text: Seq<u8>) -> Seq<Seq<usize>> {
    segments(text).map_values(|line: Seq<u8>| letters_of_line(line)).filter(|w: Seq<usize>| w.len() > 0)
}

/// The words of a list.
pub open spec fn word_views(words: Seq<Word>) -> Seq<Seq<usize>> {
    words.map_values(|w: Word| w@)
}

/// No word of the list is longer than a word before it.
pub open spec fn longest_first(words: Seq<Word>) -> bool {
    forall|i: int, j: int| 0 <= i < j < words.len() ==> words[i]@.len() >= words[j]@.len()
}

/// The words of the list that have `len` letters, in their order.
pub open spec fn of_length(words: Seq<Word>, len: nat) -> Seq<Word> {
    words.filter(|w: Word| w@.len() == len)
}

/// Every word of the list consists of letters.
pub open spec fn all_words_ok(words: Seq<Word>) -> bool {
    forall|i: int| 0 <= i < words.len() ==> is_word(#[trigger] words[i]@)
}

/// `sorted` holds the words of `words` with the longest first, and words of
/// the same length in the order that they have in `words`.
pub open spec fn is_sorted_by_length(words: Seq<Word>, sorted: Seq<Word>) -> bool {
    &&& longest_first(sorted)
    &&& forall|len: nat| #[trigger] of_length(sorted, len) == of_length(words, len)
}

/// `sorted` holds the words of `words` with the longest first, and words of
/// the same length in the order that they have in `words`.
pub open spec fn is_sorted_text(words: Seq<Seq<usize>>, sorted: Seq<Seq<usize>>) -> bool {
    &&& forall|i: int, j: int| 0 <= i < j < sorted.len() ==> sorted[i].len() >= sorted[j].len()
    &&& forall|len: nat| #[trigger] texts_of_length(sorted, len) == texts_of_length(words, len)
}

/// The words that have `len` letters, in their order.
pub open spec fn texts_of_length(words: Seq<Seq<usize>>, len: nat) -> Seq<Seq<usize>> {
    words.filter(|w: Seq<usize>| w.len() == len)
}

/// Orders two words by their length, the longer one first.
pub fn longer_first(a: &Word, b: &Word) -> (order: Ordering)
    ensures
        a.len() > b.len() ==> order == Ordering::Less,
        a.len() < b.len() ==> order == Ordering::Greater,
        a.len() == b.len() ==> order == Ordering::Equal,
{
    if a.len() > b.len() {
        Ordering::Less
    } else if a.len() < b.len() {
        Ordering::Greater
    } else {
        Ordering::Equal
    }
}

/// `<[T]>::sort_by` with `longer_first`: the sort is stable, so afterwards
/// the list holds the same words with the longest first, and words of the
/// same length in the order that they had.
#[verifier::external_body]
fn sort_longest_first(words: &mut Vec<Word>)
    ensures
        is_sorted_by_length(old(words)@, final(words)@),
{
    words.sort_by(|a, b| longer_first(a, b));
}

/// A list sorted by length holds the words of the list that it was sorted from.
pub proof fn lemma_sorted_words(words: Seq<Word>, sorted: Seq<Word>)
    requires
        is_sorted_by_length(words, sorted),
    ensures
        words_of(sorted) == words_of(words),
        all_words_ok(words) ==> all_words_ok(sorted),
{
    assert forall|i: int| 0 <= i < sorted.len() implies words.contains(#[trigger] sorted[i]) by {
        let len = sorted[i]@.len();
        let same = |w: Word| w@.len() == len;
        sorted.lemma_filter_contains(same, i);
        assert(of_length(sorted, len) == of_length(words, len));
        words.lemma_filter_contains_rev(same, sorted[i]);
    }
    assert forall|i: int| 0 <= i < words.len() implies sorted.contains(#[trigger] words[i]) by {
        let len = words[i]@.len();
        let same = |w: Word| w@.len() == len;
        words.lemma_filter_contains(same, i);
        assert(of_length(sorted, len) == of_length(words, len));
        sorted.lemma_filter_contains_rev(same, words[i]);
    }
    assert forall|w: Seq<usize>| words_of(sorted).contains(w) == words_of(words).contains(w) by {
        if words_of(sorted).contains(w) {
            let i = choose|i: int| 0 <= i < sorted.len() && #[trigger] sorted[i]@ == w;
            assert(words.contains(sorted[i]));
            let k = choose|k: int| 0 <= k < words.len() && words[k] == sorted[i];
            assert(words[k]@ == w);
        }
        if words_of(words).contains(w) {
            let i = choose|i: int| 0 <= i < words.len() && #[trigger] words[i]@ == w;
            assert(sorted.contains(words[i]));
            let k = choose|k: int| 0 <= k < sorted.len() && sorted[k] == words[i];
            assert(sorted[k]@ == w);
        }
    }
    assert(words_of(sorted) =~= words_of(words));
    if all_words_ok(words) {
        assert forall|i: int| 0 <= i < sorted.len() implies is_word(#[trigger] sorted[i]@) by {
            assert(words.contains(sorted[i]));
            let k = choose|k: int| 0 <= k < words.len() && words[k] == sorted[i];
            assert(is_word(words[k]@));
        }
    }
}

/// Reads the words of a text: one word per line, of each line the
/// upper-case letters only. Lines without a letter are skipped.
pub fn parse_words(text: &[u8]) -> (words: Vec<Word>)
    ensures
        word_views(words@) == words_in(text@),
        all_words_ok(words@),
{
    let ghost upper = |b: u8| is_upper_byte(b);
    let ghost to_letter = |b: u8| (b - 65) as usize;
    let ghost to_word = |line: Seq<u8>| letters_of_line(line);
    let ghost filled = |w: Seq<usize>| w.len() > 0;
    let mut words: Vec<Word> = Vec::new();
    let mut current: Word = Vec::new();
    let mut i: usize = 0;
    proof {
        reveal(Seq::filter);
        assert(text@.take(0) =~= Seq::<u8>::empty());
        assert(segments(text@.take(0)).drop_last() =~= Seq::<Seq<u8>>::empty());
        assert(segments(text@.take(0)).drop_last().map_values(to_word).filter(filled)
            =~= Seq::<Seq<usize>>::empty());
        assert(word_views(words@) =~= Seq::<Seq<usize>>::empty());
        assert(Seq::<u8>::empty().filter(upper) =~= Seq::<u8>::empty());
        assert(letters_of_line(segments(text@.take(0)).last()) =~= Seq::<usize>::empty());
    }
    while i < text.len()
        invariant
            i <= text.len(),
            upper == (|b: u8| is_upper_byte(b)),
            to_letter == (|b: u8| (b - 65) as usize),
            to_word == (|line: Seq<u8>| letters_of_line(line)),
            filled == (|w: Seq<usize>| w.len() > 0),
            segments(text@.take(i as int)).len() > 0,
            word_views(words@) == segments(text@.take(i as int)).drop_last().map_values(to_word).filter(
                filled,
            ),
            current@ == letters_of_line(segments(text@.take(i as int)).last()),
            all_words_ok(words@),
            is_word(current@),
        decreases text.len() - i,
    {
        let b = text[i];
        let ghost before = segments(text@.take(i as int));
        let ghost after = segments(text@.take(i + 1));
        proof {
            assert(text@.take(i + 1).drop_last() =~= text@.take(i as int));
            assert(text@.take(i + 1).last() == b);
        }
        if b == 10 {
            proof {
                assert(after == before.push(Seq::<u8>::empty()));
                assert(after.drop_last() =~= before);
                assert(before =~= before.drop_last().push(before.last()));
                assert(before.map_values(to_word) =~= before.drop_last().map_values(to_word).push(
                    to_word(before.last()),
                ));
                before.drop_last().map_values(to_word).lemma_filter_push(to_word(before.last()), filled);
                assert(Seq::<u8>::empty().filter(upper) =~= Seq::<u8>::empty());
                assert(letters_of_line(after.last()) =~= Seq::<usize>::empty());
            }
            if current.len() > 0 {
                proof {
                    assert(word_views(words@.push(current)) =~= word_views(words@).push(current@));
                }
                words.push(current);
                current = Vec::new();
            }
        } else {
            proof {
                assert(after == before.drop_last().push(before.last().push(b)));
                assert(after.drop_last() =~= before.drop_last());
                assert(after.last() == before.last().push(b));
                before.last().lemma_filter_push(b, upper);
                if is_upper_byte(b) {
                    assert(before.last().filter(upper).push(b).map_values(to_letter)
                        =~= before.last().filter(upper).map_values(to_letter).push((b - 65) as usize));
                }
            }
            if b >= 65 && b <= 90 {
                current.push((b - 65) as usize);
            }
        }
        i += 1;
    }
    proof {
        assert(text@.take(text.len() as int) =~= text@);
        let all = segments(text@);
        assert(all =~= all.drop_last().push(all.last()));
        assert(all.map_values(to_word) =~= all.drop_last().map_values(to_word).push(to_word(all.last())));
        all.drop_last().map_values(to_word).lemma_filter_push(to_word(all.last()), filled);
    }
    if current.len() > 0 {
        proof {
            assert(word_views(words@.push(current)) =~= word_views(words@).push(current@));
        }
        words.push(current);
    }
    words
}

/// Sorting a list of words by length sorts the words that it holds.
pub proof fn lemma_sorted_text(words: Seq<Word>, sorted: Seq<Word>)
    requires
        is_sorted_by_length(words, sorted),
    ensures
        is_sorted_text(word_views(words), word_views(sorted)),
{
    assert forall|len: nat| #[trigger]
        texts_of_length(word_views(sorted), len) == texts_of_length(word_views(words), len) by {
        let same = |w: Word| w@.len() == len;
        let same_text = |w: Seq<usize>| w.len() == len;
        vstd::seq_lib::lemma_filter_view_commute(sorted, same, same_text);
        vstd::seq_lib::lemma_filter_view_commute(words, same, same_text);
        assert(of_length(sorted, len) == of_length(words, len));
        assert(word_views(sorted) =~= sorted.map_values(|x: Word| x.view()));
        assert(word_views(words) =~= words.map_values(|x: Word| x.view()));
    }
    assert forall|i: int, j: int| 0 <= i < j < word_views(sorted).len() implies word_views(sorted)[i].len()
        >= word_views(sorted)[j].len() by {
        assert(sorted[i]@.len() >= sorted[j]@.len());
    }
}

/// Reads a dictionary: the words of the text, sorted with the longest
/// first, and words of the same length in the order of the text.
pub fn load_dictionary(text: &[u8]) -> (words: Vec<Word>)
    ensures
        all_words_ok(words@),
        longest_first(words@),
        is_sorted_text(words_in(text@), word_views(words@)),
        words_of(words@) == words_in(text@).to_set(),
{
    let mut words = parse_words(text);
    let ghost parsed = words@;
    sort_longest_first(&mut words);
    proof {
        lemma_sorted_words(parsed, words@);
        lemma_sorted_text(parsed, words@);
        assert forall|w: Seq<usize>| words_of(parsed).contains(w) == words_in(text@).to_set().contains(
            w,
        ) by {
            if words_of(parsed).contains(w) {
                let i = choose|i: int| 0 <= i < parsed.len() && #[trigger] parsed[i]@ == w;
                assert(word_views(parsed)[i] == w);
                assert(words_in(text@).contains(w));
            }
            if words_in(text@).contains(w) {
                let i = choose|i: int| 0 <= i < words_in(text@).len() && words_in(text@)[i] == w;
                assert(word_views(parsed)[i] == parsed[i]@);
            }
        }
        assert(words_of(parsed) =~= words_in(text@).to_set());
    }
    words
}

/// The two dictionaries.
pub struct Dictionaries {
    /// The dictionary of common words.
    pub short: Vec<Word>,
    /// The complete dictionary.
    pub long: Vec<Word>,
}

impl Dictionaries {
    /// The words of both lists consist of letters.
    pub open spec fn wf(&self) -> bool {
        all_words_ok(self.short@) && all_words_ok(self.long@)
    }

    /// Every word of either dictionary.
    pub open spec fn all_words(&self) -> Set<Seq<usize>> {
        words_of(self.short@).union(words_of(self.long@))
    }

    /// Reads the two dictionaries from their texts.
    pub fn new(short_text: &[u8], long_text: &[u8]) -> (dicts: Dictionaries)
        ensures
            dicts.wf(),
            is_sorted_text(words_in(short_text@), word_views(dicts.short@)),
            is_sorted_text(words_in(long_text@), word_views(dicts.long@)),
            words_of(dicts.short@) == words_in(short_text@).to_set(),
            words_of(dicts.long@) == words_in(long_text@).to_set(),
    {
        Dictionaries { short: load_dictionary(short_text), long: load_dictionary(long_text) }
    }

    /// The dictionary that is in use: the complete one if `use_long`, else the one of common words.
    pub fn active(&self, use_long: bool) -> (words: &Vec<Word>)
        ensures
            words == (if use_long {
                &self.long
            } else {
                &self.short
            }),
    {
        if use_long {
            &self.long
        } else {
            &self.short
        }
    }
}

} // verus!
