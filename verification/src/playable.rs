//! Listing the words that can be played from a hand.

use vstd::prelude::*;
use crate::alphabet::{convert_array_to_word, decode, Letters, Word};
use crate::dictionary::{all_words_ok, Dictionaries};
use crate::driver::makeable_of;
use crate::hand::{is_makeable, makeable};

verus! {

/// The playable words of both dictionaries.
pub struct PlayableWords {
    /// Playable words of the short dictionary.
    pub short: Vec<String>,
    /// Playable words of the long dictionary.
    pub long: Vec<String>,
}

/// The texts of a list of strings.
pub open spec fn texts_of(list: Seq<String>) -> Seq<Seq<char>> {
    list.map_values(|s: String| s@)
}

/// The texts of the words of the list that can be made from the hand, in their order.
pub open spec fn playable_texts(dict: Seq<Word>, hand: Seq<usize>) -> Seq<Seq<char>> {
    makeable_of(dict, hand).map_values(|w: Seq<usize>| decode(w))
}

/// Gets the words of the list that can be made from the hand, as text, in their order.
pub fn playable_words(dict: &Vec<Word>, letters: &Letters) -> (playable: Vec<String>)
    requires
        all_words_ok(dict@),
    ensures
        texts_of(playable@) == playable_texts(dict@, letters@),
{
    let ghost can = |w: Seq<usize>| makeable(w, letters@);
    let ghost view = |w: Word| w@;
    let ghost text = |w: Seq<usize>| decode(w);
    let mut playable: Vec<String> = Vec::new();
    let mut i: usize = 0;
    proof {
        reveal(Seq::filter);
        assert(dict@.take(0).map_values(view).filter(can).map_values(text) =~= Seq::<Seq<char>>::empty());
        assert(texts_of(playable@) =~= Seq::<Seq<char>>::empty());
    }
    while i < dict.len()
        invariant
            i <= dict.len(),
            all_words_ok(dict@),
            can == (|w: Seq<usize>| makeable(w, letters@)),
            view == (|w: Word| w@),
            text == (|w: Seq<usize>| decode(w)),
            texts_of(playable@) == dict@.take(i as int).map_values(view).filter(can).map_values(text),
        decreases dict.len() - i,
    {
        let word = &dict[i];
        proof {
            let before = dict@.take(i as int);
            assert(dict@.take(i + 1) =~= before.push(dict@[i as int]));
            assert(before.push(dict@[i as int]).map_values(view) =~= before.map_values(view).push(word@));
            before.map_values(view).lemma_filter_push(word@, can);
            if makeable(word@, letters@) {
                assert(before.map_values(view).filter(can).push(word@).map_values(text)
                    =~= before.map_values(view).filter(can).map_values(text).push(decode(word@)));
            }
        }
        if is_makeable(word, letters) {
            let spelled = convert_array_to_word(word);
            proof {
                assert(texts_of(playable@.push(spelled)) =~= texts_of(playable@).push(spelled@));
            }
            playable.push(spelled);
        }
        i += 1;
    }
    proof {
        assert(dict@.take(dict.len() as int) =~= dict@);
    }
    playable
}

/// Gets the playable words for a hand of letters: those of the short
/// dictionary and those of the long one.
pub fn get_playable_words(dicts: &Dictionaries, letters: &Letters) -> (playable: PlayableWords)
    requires
        dicts.wf(),
    ensures
        texts_of(playable.short@) == playable_texts(dicts.short@, letters@),
        texts_of(playable.long@) == playable_texts(dicts.long@, letters@),
{
    let playable_short = playable_words(&dicts.short, letters);
    let playable_long = playable_words(&dicts.long, letters);
    PlayableWords { short: playable_short, long: playable_long }
}

} // verus!
