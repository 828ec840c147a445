//! Drawing random tiles.
//!
//! Tiles are drawn from an infinite set, in which every letter is as likely
//! as any other, or from the tiles of one or of two sets of the game, in which
//! each letter comes in a fixed number.

use vstd::prelude::*;
use vstd::seq_lib::to_multiset_build;
use vstd::string::{StrSliceExecFns, StringExecFns};
use rand::distributions::Distribution;
use rand::seq::SliceRandom;

verus! {

/// The number of each letter present in regular Bananagrams.
pub const REGULAR_TILES: [u64; 26] = [
    13,
    3,
    3,
    6,
    18,
    3,
    4,
    3,
    12,
    2,
    2,
    5,
    3,
    8,
    11,
    3,
    2,
    9,
    6,
    9,
    6,
    3,
    3,
    2,
    3,
    2,
];

/// What tiles are drawn from.
#[derive(Clone, Copy, PartialEq, Eq, Structural, Debug)]
pub enum TileSet {
    /// An infinite set: all letters are equally likely.
    Infinite,
    /// The 144 tiles of standard Bananagrams.
    Standard,
    /// The 288 tiles of double Bananagrams.
    Double,
}

/// Why no tiles were drawn.
#[derive(Clone, Copy, PartialEq, Eq, Structural, Debug)]
pub enum DrawError {
    /// Fewer than one tile was asked for.
    TooFew,
    /// More tiles were asked for than standard Bananagrams has.
    TooManyForStandard,
    /// More tiles were asked for than double Bananagrams has.
    TooManyForDouble,
    /// The name of the tile set is not known.
    UnknownTileSet,
}

/// The tile set of a name.
pub open spec fn tile_set_of(what: Seq<char>) -> Option<TileSet> {
    if what == "infinite set"@ {
        Some(TileSet::Infinite)
    } else if what == "standard Bananagrams"@ {
        Some(TileSet::Standard)
    } else if what == "double Bananagrams"@ {
        Some(TileSet::Double)
    } else {
        None
    }
}

/// How many sets of the game a tile set holds.
pub open spec fn sets_in(tiles: TileSet) -> int {
    match tiles {
        TileSet::Infinite => 0,
        TileSet::Standard => 1,
        TileSet::Double => 2,
    }
}

/// The sum of the first `n` counts.
pub open spec fn count_sum(counts: Seq<u64>, n: int) -> int
    decreases n,
{
    if n <= 0 {
        0
    } else {
        count_sum(counts, n - 1) + counts[n - 1]
    }
}

/// What a draw gives: an error, or the number of tiles drawn of each letter.
///
/// Fewer than one tile cannot be drawn, nor more than the tile set has. The
/// counts of a draw add up to the number of tiles asked for, and of no letter
/// are more tiles drawn than the tile set has.
pub open spec fn is_draw(what: Seq<char>, how_many: i64, res: Result<[u64; 26], DrawError>) -> bool {
    if how_many < 1 {
        res == Err::<[u64; 26], DrawError>(DrawError::TooFew)
    } else {
        match tile_set_of(what) {
            None => res == Err::<[u64; 26], DrawError>(DrawError::UnknownTileSet),
            Some(tiles) => if tiles == TileSet::Standard && how_many > 144 {
                res == Err::<[u64; 26], DrawError>(DrawError::TooManyForStandard)
            } else if tiles == TileSet::Double && how_many > 288 {
                res == Err::<[u64; 26], DrawError>(DrawError::TooManyForDouble)
            } else {
                &&& res matches Ok(counts)
                &&& count_sum(counts@, 26) == how_many
                &&& tiles != TileSet::Infinite ==> forall|l: int|
                    0 <= l < 26 ==> #[trigger] counts@[l] <= sets_in(tiles) * REGULAR_TILES[l]
            },
        }
    }
}

/// `rand::distributions::Uniform::new_inclusive(low, high)`, sampled with
/// the generator of the thread: some number from `low` to `high`. Which one
/// is not known.
#[verifier::external_body]
fn random_between(low: u8, high: u8) -> (number: u8)
    requires
        low <= high,
    ensures
        low <= number <= high,
{
    rand::distributions::Uniform::new_inclusive(low, high).sample(&mut rand::thread_rng())
}

/// `rand::seq::SliceRandom::choose_multiple` with the generator of the
/// thread: `amount` elements of the pool, or all of them if there are fewer,
/// no element of the pool more than once, in some order.
#[verifier::external_body]
fn choose_tiles(pool: &Vec<u8>, amount: usize) -> (chosen: Vec<u8>)
    ensures
        chosen@.len() == (if amount < pool@.len() {
            amount as int
        } else {
            pool@.len() as int
        }),
        chosen@.to_multiset().subset_of(pool@.to_multiset()),
{
    pool.choose_multiple(&mut rand::thread_rng(), amount).cloned().collect()
}

/// Tells whether two texts are the same.
pub fn same_text(a: &str, b: &str) -> (same: bool)
    ensures
        same == (a@ == b@),
{
    let n = a.unicode_len();
    if n != b.unicode_len() {
        return false;
    }
    let mut i: usize = 0;
    while i < n
        invariant
            i <= n,
            n == a@.len(),
            n == b@.len(),
            forall|k: int| 0 <= k < i ==> a@[k] == b@[k],
        decreases n - i,
    {
        if a.get_char(i) != b.get_char(i) {
            return false;
        }
        i += 1;
    }
    assert(a@ =~= b@);
    true
}

/// Reads the name of a tile set.
pub fn parse_tile_set(what: &str) -> (tiles: Option<TileSet>)
    ensures
        tiles == tile_set_of(what@),
{
    if same_text(what, "infinite set") {
        Some(TileSet::Infinite)
    } else if same_text(what, "standard Bananagrams") {
        Some(TileSet::Standard)
    } else if same_text(what, "double Bananagrams") {
        Some(TileSet::Double)
    } else {
        None
    }
}

/// Changing one count changes the sum by as much, if the count is among those summed.
proof fn lemma_count_sum_update(counts: Seq<u64>, x: int, v: u64, n: int)
    requires
        0 <= x < counts.len(),
        0 <= n <= counts.len(),
    ensures
        count_sum(counts.update(x, v), n) == count_sum(counts, n) + (if x < n {
            v - counts[x]
        } else {
            0
        }),
    decreases n,
{
    if n > 0 {
        lemma_count_sum_update(counts, x, v, n - 1);
    }
}

/// Counts that are all zero add up to zero.
proof fn lemma_count_sum_zero(counts: Seq<u64>, n: int)
    requires
        0 <= n <= counts.len(),
        forall|l: int| 0 <= l < n ==> counts[l] == 0,
    ensures
        count_sum(counts, n) == 0,
    decreases n,
{
    if n > 0 {
        lemma_count_sum_zero(counts, n - 1);
    }
}

/// Counts how often each letter occurs among the tiles.
fn count_tiles(tiles: &Vec<u8>) -> (counts: [u64; 26])
    requires
        forall|i: int| 0 <= i < tiles@.len() ==> tiles@[i] < 26,
    ensures
        count_sum(counts@, 26) == tiles@.len(),
        forall|l: u8| l < 26 ==> counts@[l as int] == #[trigger] tiles@.to_multiset().count(l),
{
    let mut counts: [u64; 26] = [0u64;26];
    let mut i: usize = 0;
    proof {
        assert(tiles@.take(0) =~= Seq::<u8>::empty());
        assert forall|l: u8| l < 26 implies counts@[l as int] == 0 && #[trigger] tiles@.take(
            0,
        ).to_multiset().count(l) == 0 by {
            vstd::seq_lib::to_multiset_contains(Seq::<u8>::empty(), l);
        }
        assert forall|l: int| 0 <= l < 26 implies counts@[l] == 0 by {
            assert(counts@[(l as u8) as int] == 0);
        }
        lemma_count_sum_zero(counts@, 26);
    }
    while i < tiles.len()
        invariant
            i <= tiles.len(),
            forall|k: int| 0 <= k < tiles@.len() ==> tiles@[k] < 26,
            count_sum(counts@, 26) == i,
            forall|l: int| 0 <= l < 26 ==> #[trigger] counts@[l] <= i,
            forall|l: u8|
                l < 26 ==> counts@[l as int] == #[trigger] tiles@.take(i as int).to_multiset().count(l),
        decreases tiles.len() - i,
    {
        let letter = tiles[i] as usize;
        proof {
            broadcast use vstd::multiset::group_multiset_axioms;

            assert(tiles@.take(i + 1) =~= tiles@.take(i as int).push(tiles@[i as int]));
            to_multiset_build(tiles@.take(i as int), tiles@[i as int]);
            assert forall|l: u8| l < 26 implies #[trigger] tiles@.take(i + 1).to_multiset().count(l)
                == tiles@.take(i as int).to_multiset().count(l) + (if l == tiles@[i as int] {
                1nat
            } else {
                0nat
            }) by {}
            lemma_count_sum_update(counts@, letter as int, (counts@[letter as int] + 1) as u64, 26);
        }
        counts[letter] += 1;
        i += 1;
    }
    proof {
        assert(tiles@.take(tiles.len() as int) =~= tiles@);
    }
    counts
}

/// The tiles of `sets` sets of the game: of each letter its number, one
/// letter after the other.
fn tile_pool(sets: u64) -> (pool: Vec<u8>)
    requires
        1 <= sets <= 2,
    ensures
        pool@.len() == sets * 144,
        forall|i: int| 0 <= i < pool@.len() ==> pool@[i] < 26,
        forall|l: u8| l < 26 ==> #[trigger] pool@.to_multiset().count(l) == sets * REGULAR_TILES[l as int],
{
    let mut to_choose_from: Vec<u8> = Vec::with_capacity(288);
    let mut letter: u8 = 0;
    proof {
        assert forall|l: u8| l < 26 implies #[trigger] to_choose_from@.to_multiset().count(l) == 0 by {
            vstd::seq_lib::to_multiset_contains(to_choose_from@, l);
        }
    }
    while letter < 26
        invariant
            letter <= 26,
            1 <= sets <= 2,
            to_choose_from@.len() == sets * tiles_before(letter as int),
            forall|i: int| 0 <= i < to_choose_from@.len() ==> to_choose_from@[i] < 26,
            forall|l: u8|
                l < 26 ==> #[trigger] to_choose_from@.to_multiset().count(l) == (if l < letter {
                    sets * REGULAR_TILES[l as int]
                } else {
                    0
                }),
        decreases 26 - letter,
    {
        let many = REGULAR_TILES[letter as usize] * sets;
        let mut pushed: u64 = 0;
        while pushed < many
            invariant
                letter < 26,
                1 <= sets <= 2,
                pushed <= many,
                many == REGULAR_TILES[letter as int] * sets,
                to_choose_from@.len() == sets * tiles_before(letter as int) + pushed,
                forall|i: int| 0 <= i < to_choose_from@.len() ==> to_choose_from@[i] < 26,
                forall|l: u8|
                    l < 26 ==> #[trigger] to_choose_from@.to_multiset().count(l) == (if l < letter {
                        sets * REGULAR_TILES[l as int]
                    } else if l == letter {
                        pushed as int
                    } else {
                        0
                    }),
            decreases many - pushed,
        {
            proof {
                broadcast use vstd::multiset::group_multiset_axioms;

                to_multiset_build(to_choose_from@, letter);
                assert forall|l: u8| l < 26 implies #[trigger] to_choose_from@.push(letter).to_multiset().count(
                    l,
                ) == to_choose_from@.to_multiset().count(l) + (if l == letter {
                    1nat
                } else {
                    0nat
                }) by {}
            }
            to_choose_from.push(letter);
            pushed += 1;
        }
        letter += 1;
    }
    proof {
        assert(tiles_before(26) == 144) by {
            reveal_with_fuel(tiles_before, 27);
        }
    }
    to_choose_from
}

/// The number of tiles, in one set of the game, of the letters before `letter`.
pub open spec fn tiles_before(letter: int) -> int
    decreases letter,
{
    if letter <= 0 {
        0
    } else {
        tiles_before(letter - 1) + REGULAR_TILES[letter - 1]
    }
}

/// Generates random letters: `how_many` tiles, drawn from the tile set of
/// the name `what`, which is "infinite set", "standard Bananagrams" (144
/// tiles) or "double Bananagrams" (288 tiles). Returns the number of tiles
/// drawn of each letter.
pub fn get_random_letters(what: &str, how_many: i64) -> (res: Result<[u64; 26], DrawError>)
    ensures
        is_draw(what@, how_many, res),
{
    if how_many < 1 {
        return Err(DrawError::TooFew);
    }
    match parse_tile_set(what) {
        Some(TileSet::Infinite) => {
            // For an infinite set, every tile is any letter
            let mut return_chars: [u64; 26] = [0u64;26];
            let mut drawn: i64 = 0;
            proof {
                assert forall|l: int| 0 <= l < 26 implies return_chars@[l] == 0 by {}
                lemma_count_sum_zero(return_chars@, 26);
            }
            while drawn < how_many
                invariant
                    0 <= drawn <= how_many,
                    count_sum(return_chars@, 26) == drawn,
                    forall|l: int| 0 <= l < 26 ==> #[trigger] return_chars@[l] <= drawn,
                decreases how_many - drawn,
            {
                let random_num = random_between(0, 25) as usize;
                proof {
                    lemma_count_sum_update(
                        return_chars@,
                        random_num as int,
                        (return_chars@[random_num as int] + 1) as u64,
                        26,
                    );
                }
                return_chars[random_num] += 1;
                drawn += 1;
            }
            Ok(return_chars)
        },
        Some(TileSet::Standard) => {
            if how_many > 144 {
                return Err(DrawError::TooManyForStandard);
            }
            let to_choose_from = tile_pool(1);
            let selected_chars = choose_tiles(&to_choose_from, how_many as usize);
            proof {
                lemma_chosen_are_letters(to_choose_from@, selected_chars@);
            }
            let counts = count_tiles(&selected_chars);
            proof {
                assert forall|l: int| 0 <= l < 26 implies counts@[l] <= 1 * REGULAR_TILES[l] by {
                    let letter = l as u8;
                    assert(selected_chars@.to_multiset().count(letter) <= to_choose_from@.to_multiset().count(
                        letter,
                    ));
                }
            }
            Ok(counts)
        },
        Some(TileSet::Double) => {
            // Double Bananagrams is just like regular, except with twice as many pieces
            if how_many > 288 {
                return Err(DrawError::TooManyForDouble);
            }
            let to_choose_from = tile_pool(2);
            let selected_chars = choose_tiles(&to_choose_from, how_many as usize);
            proof {
                lemma_chosen_are_letters(to_choose_from@, selected_chars@);
            }
            let counts = count_tiles(&selected_chars);
            proof {
                assert forall|l: int| 0 <= l < 26 implies counts@[l] <= 2 * REGULAR_TILES[l] by {
                    let letter = l as u8;
                    assert(selected_chars@.to_multiset().count(letter) <= to_choose_from@.to_multiset().count(
                        letter,
                    ));
                }
            }
            Ok(counts)
        },
        None => Err(DrawError::UnknownTileSet),
    }
}

/// Tiles chosen from a pool of letters are letters.
proof fn lemma_chosen_are_letters(pool: Seq<u8>, chosen: Seq<u8>)
    requires
        chosen.to_multiset().subset_of(pool.to_multiset()),
        forall|i: int| 0 <= i < pool.len() ==> pool[i] < 26,
    ensures
        forall|i: int| 0 <= i < chosen.len() ==> chosen[i] < 26,
{
    assert forall|i: int| 0 <= i < chosen.len() implies chosen[i] < 26 by {
        vstd::seq_lib::to_multiset_contains(chosen, chosen[i]);
        vstd::seq_lib::to_multiset_contains(pool, chosen[i]);
        assert(chosen.contains(chosen[i]));
        assert(chosen.to_multiset().count(chosen[i]) <= pool.to_multiset().count(chosen[i]));
        let k = choose|k: int| 0 <= k < pool.len() && pool[k] == chosen[i];
    }
}

impl DrawError {
    /// The message of the error; `what` is the name of the tile set that was asked for.
    pub fn message(&self, what: &str) -> (text: String)
        ensures
            text@ == match self {
                DrawError::TooFew => "The number to choose should be greater than 0"@,
                DrawError::TooManyForStandard => "The number to choose must be less than 144 for standard Banangrams"@,
                DrawError::TooManyForDouble => "The number to choose must be less than 288 for double Banangrams"@,
                DrawError::UnknownTileSet => "`what` must be \"infinite set\", \"standard Bananagrams\", or \"double Bananagrams\", not "@
                    + what@,
            },
    {
        match self {
            DrawError::TooFew => String::from_str(
                "The number to choose should be greater than 0",
            ),
            DrawError::TooManyForStandard => String::from_str(
                "The number to choose must be less than 144 for standard Banangrams",
            ),
            DrawError::TooManyForDouble => String::from_str(
                "The number to choose must be less than 288 for double Banangrams",
            ),
            DrawError::UnknownTileSet => {
                let mut text = String::from_str(
                    "`what` must be \"infinite set\", \"standard Bananagrams\", or \"double Bananagrams\", not ",
                );
                text.append(what);
                text
            },
        }
    }
}

} // verus!
