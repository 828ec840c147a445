//! The hash sets that the solver keeps: of words, of cells and of letters.
//!
//! Each is a `hashbrown::HashSet`. What such a set holds is not computed here
//! but named, and the three operations that the solver needs (an empty set,
//! insertion and the membership test) are believed to act on that content as
//! sets do. Everything built on them is verified against those statements.

use vstd::prelude::*;
use crate::alphabet::Word;

verus! {

/// A set of words, for testing whether a run of letters is a word; kept in a
/// `hashbrown::HashSet`, of which nothing is known here but what the
/// operations below state.
#[verifier::external_body]
pub struct WordSet {
    inner: hashbrown::HashSet<Vec<usize>>,
}

/// A set of cells of the board, each as (row, column); kept in a `hashbrown::HashSet`.
#[verifier::external_body]
pub struct CellSet {
    inner: hashbrown::HashSet<(usize, usize)>,
}

/// A set of letters; kept in a `hashbrown::HashSet`.
#[verifier::external_body]
pub struct LetterSet {
    inner: hashbrown::HashSet<usize>,
}

/// The words that a `WordSet` holds.
pub uninterp spec fn word_set_contents(set: WordSet) -> Set<Seq<usize>>;

/// The cells that a `CellSet` holds.
pub uninterp spec fn cell_set_contents(set: CellSet) -> Set<(usize, usize)>;

/// The letters that a `LetterSet` holds.
pub uninterp spec fn letter_set_contents(set: LetterSet) -> Set<usize>;

/// `hashbrown::HashSet::new`: the new set holds nothing.
#[verifier::external_body]
fn word_set_new() -> (set: WordSet)
    ensures
        word_set_contents(set) == Set::<Seq<usize>>::empty(),
{
    WordSet { inner: hashbrown::HashSet::new() }
}

/// `hashbrown::HashSet::insert`: afterwards the set holds the word besides
/// what it held; the result tells whether the word was new to it.
#[verifier::external_body]
fn word_set_insert(set: &mut WordSet, word: Vec<usize>) -> (fresh: bool)
    ensures
        word_set_contents(*final(set)) == word_set_contents(*old(set)).insert(word@),
        fresh == !word_set_contents(*old(set)).contains(word@),
{
    set.inner.insert(word)
}

/// `hashbrown::HashSet::contains`: tells whether the set holds the word.
#[verifier::external_body]
fn word_set_contains(set: &WordSet, word: &Vec<usize>) -> (found: bool)
    ensures
        found == word_set_contents(*set).contains(word@),
{
    set.inner.contains(word)
}

/// `hashbrown::HashSet::new`: the new set holds nothing.
#[verifier::external_body]
fn cell_set_new() -> (set: CellSet)
    ensures
        cell_set_contents(set) == Set::<(usize, usize)>::empty(),
{
    CellSet { inner: hashbrown::HashSet::new() }
}

/// `hashbrown::HashSet::insert`: afterwards the set holds the cell besides
/// what it held; the result tells whether the cell was new to it.
#[verifier::external_body]
fn cell_set_insert(set: &mut CellSet, cell: (usize, usize)) -> (fresh: bool)
    ensures
        cell_set_contents(*final(set)) == cell_set_contents(*old(set)).insert(cell),
        fresh == !cell_set_contents(*old(set)).contains(cell),
{
    set.inner.insert(cell)
}

/// `hashbrown::HashSet::contains`: tells whether the set holds the cell.
#[verifier::external_body]
fn cell_set_contains(set: &CellSet, cell: &(usize, usize)) -> (found: bool)
    ensures
        found == cell_set_contents(*set).contains(*cell),
{
    set.inner.contains(cell)
}

/// `hashbrown::HashSet::new`: the new set holds nothing.
#[verifier::external_body]
fn letter_set_new() -> (set: LetterSet)
    ensures
        letter_set_contents(set) == Set::<usize>::empty(),
{
    LetterSet { inner: hashbrown::HashSet::new() }
}

/// `hashbrown::HashSet::insert`: afterwards the set holds the letter besides
/// what it held; the result tells whether the letter was new to it.
#[verifier::external_body]
fn letter_set_insert(set: &mut LetterSet, letter: usize) -> (fresh: bool)
    ensures
        letter_set_contents(*final(set)) == letter_set_contents(*old(set)).insert(letter),
        fresh == !letter_set_contents(*old(set)).contains(letter),
{
    set.inner.insert(letter)
}

/// `hashbrown::HashSet::contains`: tells whether the set holds the letter.
#[verifier::external_body]
fn letter_set_contains(set: &LetterSet, letter: &usize) -> (found: bool)
    ensures
        found == letter_set_contents(*set).contains(*letter),
{
    set.inner.contains(letter)
}

impl View for WordSet {
    type V = Set<Seq<usize>>;

    /// The words that the set holds.
    open spec fn view(&self) -> Set<Seq<usize>> {
        word_set_contents(*self)
    }
}

impl View for CellSet {
    type V = Set<(usize, usize)>;

    /// The cells that the set holds.
    open spec fn view(&self) -> Set<(usize, usize)> {
        cell_set_contents(*self)
    }
}

impl View for LetterSet {
    type V = Set<usize>;

    /// The letters that the set holds.
    open spec fn view(&self) -> Set<usize> {
        letter_set_contents(*self)
    }
}

/// The set of the words of a list.
pub open spec fn words_of(list: Seq<Word>) -> Set<Seq<usize>> {
    Set::new(|w: Seq<usize>| exists|i: int| 0 <= i < list.len() && #[trigger] list[i]@ == w)
}

/// The set of the words of a list of references.
pub open spec fn words_of_refs(list: Seq<&Word>) -> Set<Seq<usize>> {
    Set::new(|w: Seq<usize>| exists|i: int| 0 <= i < list.len() && (#[trigger] list[i])@ == w)
}

impl WordSet {
    /// A set that holds no word.
    pub fn new() -> (set: WordSet)
        ensures
            set@ == Set::<Seq<usize>>::empty(),
    {
        word_set_new()
    }

    /// Puts a word into the set. Tells whether the word was new to it.
    pub fn insert(&mut self, word: Word) -> (fresh: bool)
        ensures
            final(self)@ == old(self)@.insert(word@),
            fresh == !old(self)@.contains(word@),
    {
        word_set_insert(self, word)
    }

    /// Tells whether the set holds the word.
    pub fn contains(&self, word: &Word) -> (found: bool)
        ensures
            found == self@.contains(word@),
    {
        word_set_contains(self, word)
    }

    /// The set of the words of `list`.
    pub fn from_words(list: &Vec<Word>) -> (set: WordSet)
        ensures
            set@ == words_of(list@),
    {
        let mut set = WordSet::new();
        let mut i: usize = 0;
        while i < list.len()
            invariant
                i <= list.len(),
                set@ == words_of(list@.take(i as int)),
            decreases list.len() - i,
        {
            let word = list[i].clone();
            proof {
                let before = list@.take(i as int);
                let after = list@.take(i + 1);
                assert(word@ == list@[i as int]@);
                assert forall|w: Seq<usize>| words_of(after).contains(w) == words_of(before).insert(
                    word@,
                ).contains(w) by {
                    if words_of(after).contains(w) {
                        let k = choose|k: int| 0 <= k < after.len() && #[trigger] after[k]@ == w;
                        if k < i {
                            assert(before[k]@ == w);
                        }
                    }
                    if words_of(before).contains(w) {
                        let k = choose|k: int| 0 <= k < before.len() && #[trigger] before[k]@ == w;
                        assert(after[k]@ == w);
                    }
                    if w == word@ {
                        assert(after[i as int]@ == w);
                    }
                }
                assert(words_of(after) =~= words_of(before).insert(word@));
            }
            set.insert(word);
            i += 1;
        }
        proof {
            assert(list@.take(list.len() as int) =~= list@);
        }
        set
    }
}

impl WordSet {
    /// The set of the words of `list`.
    pub fn from_refs(list: &Vec<&Word>) -> (set: WordSet)
        ensures
            set@ == words_of_refs(list@),
    {
        let mut set = WordSet::new();
        let mut i: usize = 0;
        while i < list.len()
            invariant
                i <= list.len(),
                set@ == words_of_refs(list@.take(i as int)),
            decreases list.len() - i,
        {
            let word = list[i].clone();
            proof {
                let before = list@.take(i as int);
                let after = list@.take(i + 1);
                assert(word@ == list@[i as int]@);
                assert forall|w: Seq<usize>| words_of_refs(after).contains(w) == words_of_refs(
                    before,
                ).insert(word@).contains(w) by {
                    if words_of_refs(after).contains(w) {
                        let k = choose|k: int| 0 <= k < after.len() && (#[trigger] after[k])@ == w;
                        if k < i {
                            assert(before[k]@ == w);
                        }
                    }
                    if words_of_refs(before).contains(w) {
                        let k = choose|k: int| 0 <= k < before.len() && (#[trigger] before[k])@ == w;
                        assert(after[k]@ == w);
                    }
                    if w == word@ {
                        assert(after[i as int]@ == w);
                    }
                }
                assert(words_of_refs(after) =~= words_of_refs(before).insert(word@));
            }
            set.insert(word);
            i += 1;
        }
        proof {
            assert(list@.take(list.len() as int) =~= list@);
        }
        set
    }
}

impl CellSet {
    /// A set that holds no cell.
    pub fn new() -> (set: CellSet)
        ensures
            set@ == Set::<(usize, usize)>::empty(),
    {
        cell_set_new()
    }

    /// Puts a cell into the set. Tells whether the cell was new to it.
    pub fn insert(&mut self, cell: (usize, usize)) -> (fresh: bool)
        ensures
            final(self)@ == old(self)@.insert(cell),
            fresh == !old(self)@.contains(cell),
    {
        cell_set_insert(self, cell)
    }

    /// Tells whether the set holds the cell.
    pub fn contains(&self, cell: &(usize, usize)) -> (found: bool)
        ensures
            found == self@.contains(*cell),
    {
        cell_set_contains(self, cell)
    }
}

impl CellSet {
    /// The set of the cells of `list`.
    pub fn from_cells(list: &Vec<(usize, usize)>) -> (set: CellSet)
        ensures
            set@ == list@.to_set(),
    {
        let mut set = CellSet::new();
        let mut i: usize = 0;
        while i < list.len()
            invariant
                i <= list.len(),
                set@ == list@.take(i as int).to_set(),
            decreases list.len() - i,
        {
            proof {
                let before = list@.take(i as int);
                let after = list@.take(i + 1);
                assert(after =~= before.push(list@[i as int]));
                assert forall|cell: (usize, usize)| after.to_set().contains(cell) == before.to_set().insert(
                    list@[i as int],
                ).contains(cell) by {
                    if after.contains(cell) {
                        let k = choose|k: int| 0 <= k < after.len() && after[k] == cell;
                        if k < i {
                            assert(before[k] == cell);
                        }
                    }
                    if before.contains(cell) {
                        let k = choose|k: int| 0 <= k < before.len() && before[k] == cell;
                        assert(after[k] == cell);
                    }
                    if cell == list@[i as int] {
                        assert(after[i as int] == cell);
                    }
                }
                assert(after.to_set() =~= before.to_set().insert(list@[i as int]));
            }
            set.insert(list[i]);
            i += 1;
        }
        proof {
            assert(list@.take(list.len() as int) =~= list@);
        }
        set
    }
}

impl LetterSet {
    /// A set that holds no letter.
    pub fn new() -> (set: LetterSet)
        ensures
            set@ == Set::<usize>::empty(),
    {
        letter_set_new()
    }

    /// Puts a letter into the set. Tells whether the letter was new to it.
    pub fn insert(&mut self, letter: usize) -> (fresh: bool)
        ensures
            final(self)@ == old(self)@.insert(letter),
            fresh == !old(self)@.contains(letter),
    {
        letter_set_insert(self, letter)
    }

    /// Tells whether the set holds the letter.
    pub fn contains(&self, letter: usize) -> (found: bool)
        ensures
            found == self@.contains(letter),
    {
        letter_set_contains(self, &letter)
    }

    /// The set of the letters of `word`.
    pub fn from_word(word: &Word) -> (set: LetterSet)
        ensures
            forall|letter: usize| set@.contains(letter) == word@.contains(letter),
    {
        let mut set = LetterSet::new();
        let mut i: usize = 0;
        while i < word.len()
            invariant
                i <= word.len(),
                forall|letter: usize| set@.contains(letter) == word@.take(i as int).contains(letter),
            decreases word.len() - i,
        {
            proof {
                let before = word@.take(i as int);
                let after = word@.take(i + 1);
                assert(after =~= before.push(word@[i as int]));
                assert forall|letter: usize| after.contains(letter) == (before.contains(letter)
                    || letter == word@[i as int]) by {
                    if before.contains(letter) {
                        let k = choose|k: int| 0 <= k < before.len() && before[k] == letter;
                        assert(after[k] == letter);
                    }
                    if letter == word@[i as int] {
                        assert(after[i as int] == letter);
                    }
                }
            }
            set.insert(word[i]);
            i += 1;
        }
        proof {
            assert(word@.take(word.len() as int) =~= word@);
        }
        set
    }
}

} // verus!
