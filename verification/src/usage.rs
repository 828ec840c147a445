//! Counting the letters of a board against a hand.

use vstd::prelude::*;
use crate::alphabet::{Letters, BOARD_SIZE, EMPTY_VALUE};
use crate::board::{grid_index, in_grid, occupied, Board};
use crate::bounds::Bounds;
use crate::hand::{
    is_used_up, lemma_tally_empty, lemma_tally_le_len, lemma_tally_push, lemma_tally_take_le, tally,
    LetterUsage,
};
use crate::search::tallied;
use crate::wordset::LetterSet;

verus! {

/// The board holds more tiles of some letter than the hand.
pub open spec fn overdrawn(g: Seq<usize>, hand: Seq<usize>) -> bool {
    exists|l: usize| l < 26 && #[trigger] tally(g, l) > hand[l as int]
}

/// The board holds of each letter as many tiles as the hand.
pub open spec fn consumed(g: Seq<usize>, hand: Seq<usize>) -> bool {
    forall|l: usize| l < 26 ==> #[trigger] tally(g, l) == hand[l as int]
}

/// How the letters of the board use the hand.
pub open spec fn usage_of(g: Seq<usize>, hand: Seq<usize>) -> LetterUsage {
    if overdrawn(g, hand) {
        LetterUsage::Overused
    } else if consumed(g, hand) {
        LetterUsage::Finished
    } else {
        LetterUsage::Remaining
    }
}

/// Cells without a letter add nothing to the count of a letter.
proof fn lemma_tally_skip(g: Seq<usize>, from: int, to: int, letter: usize)
    requires
        0 <= from <= to <= g.len(),
        letter < 26,
        forall|i: int| from <= i < to ==> g[i] == EMPTY_VALUE,
    ensures
        tally(g.take(to), letter) == tally(g.take(from), letter),
    decreases to - from,
{
    if from < to {
        lemma_tally_skip(g, from, to - 1, letter);
        assert(g.take(to) =~= g.take(to - 1).push(g[to - 1]));
        lemma_tally_push(g.take(to - 1), g[to - 1], letter);
    }
}

/// Counts the letters of the board and takes them off the hand. Returns the
/// letters of the hand that are not on the board, the count of the letters on
/// the board and the set of those letters; or `None` if the board holds more
/// tiles of some letter than the hand.
pub fn letters_off_board(board: &Board, bounds: Bounds, letters: &Letters) -> (res: Option<
    (Letters, Letters, LetterSet),
>)
    requires
        board.wf(),
        bounds.wf(),
        bounds.covers(board@),
    ensures
        match res {
            Some((hand_letters, old_letters_on_board, played_on_board)) => {
                &&& tallied(board@, old_letters_on_board@)
                &&& forall|l: usize|
                    l < 26 ==> hand_letters@[l as int] + #[trigger] tally(board@, l) == letters@[l as int]
                &&& forall|l: usize| l < 26 ==> (played_on_board@.contains(l) <==> #[trigger] tally(board@, l) > 0)
            },
            None => exists|l: usize| l < 26 && #[trigger] tally(board@, l) > letters@[l as int],
        },
{
    let ghost g = board@;
    let mut hand_letters: Letters = *letters;
    let mut old_letters_on_board: Letters = [0usize;26];
    let mut played_on_board = LetterSet::new();
    let ghost mut upto: int = 0;
    proof {
        assert(g.take(0) =~= Seq::<usize>::empty());
        assert forall|l: usize| l < 26 implies #[trigger] tally(g.take(0), l) == 0 && old_letters_on_board@[l as int]
            == 0 && hand_letters@[l as int] == letters@[l as int] by {
            lemma_tally_empty(l);
        }
        assert forall|r: int, c: int| in_grid(r, c) && !bounds.holds(r, c) implies g[grid_index(r, c)]
            == EMPTY_VALUE by {
            if g[grid_index(r, c)] != EMPTY_VALUE {
                assert(occupied(g, r, c));
            }
        }
    }
    let mut row = bounds.min_row;
    proof {
        upto = grid_index(row as int, bounds.min_col as int);
        assert forall|i: int| 0 <= i < upto implies g[i] == EMPTY_VALUE by {
            let r = i / (BOARD_SIZE as int);
            let c = i % (BOARD_SIZE as int);
            assert(in_grid(r, c) && !bounds.holds(r, c));
            assert(grid_index(r, c) == i);
        }
        assert forall|l: usize| l < 26 implies #[trigger] tally(g.take(upto), l) == 0 by {
            lemma_tally_skip(g, 0, upto, l);
        }
    }
    while row <= bounds.max_row
        invariant
            board.wf(),
            g == board@,
            bounds.wf(),
            bounds.min_row <= row <= bounds.max_row + 1,
            row <= bounds.max_row ==> upto == grid_index(row as int, bounds.min_col as int),
            row > bounds.max_row ==> upto == g.len(),
            forall|r: int, c: int|
                in_grid(r, c) && !bounds.holds(r, c) ==> g[grid_index(r, c)] == EMPTY_VALUE,
            forall|l: usize|
                l < 26 ==> {
                    &&& old_letters_on_board@[l as int] == #[trigger] tally(g.take(upto), l)
                    &&& hand_letters@[l as int] + tally(g.take(upto), l) == letters@[l as int]
                    &&& (played_on_board@.contains(l) <==> tally(g.take(upto), l) > 0)
                },
        decreases bounds.max_row + 1 - row,
    {
        let mut col = bounds.min_col;
        while col <= bounds.max_col
            invariant
                board.wf(),
                g == board@,
                bounds.wf(),
                bounds.min_row <= row <= bounds.max_row,
                bounds.min_col <= col <= bounds.max_col + 1,
                upto == grid_index(row as int, col as int),
                forall|l: usize|
                    l < 26 ==> {
                        &&& old_letters_on_board@[l as int] == #[trigger] tally(g.take(upto), l)
                        &&& hand_letters@[l as int] + tally(g.take(upto), l) == letters@[l as int]
                        &&& (played_on_board@.contains(l) <==> tally(g.take(upto), l) > 0)
                    },
            decreases bounds.max_col + 1 - col,
        {
            let val = board.get_val(row, col);
            proof {
                assert(g.take(upto + 1) =~= g.take(upto).push(val));
                assert forall|l: usize| l < 26 implies #[trigger] tally(g.take(upto + 1), l) == tally(
                    g.take(upto),
                    l,
                ) + (if val == l {
                    1nat
                } else {
                    0nat
                }) by {
                    lemma_tally_push(g.take(upto), val, l);
                }
            }
            if val != EMPTY_VALUE {
                if hand_letters[val] == 0 {
                    proof {
                        lemma_tally_take_le(g, upto + 1, val);
                        assert(tally(g, val) > letters@[val as int]);
                    }
                    return None;
                }
                proof {
                    lemma_tally_le_len(g.take(upto), val);
                }
                hand_letters[val] -= 1;
                old_letters_on_board[val] += 1;
                played_on_board.insert(val);
            }
            proof {
                upto = upto + 1;
            }
            col += 1;
        }
        proof {
            let next = grid_index(row + 1, bounds.min_col as int);
            if row + 1 <= bounds.max_row {
                assert forall|i: int| upto <= i < next implies g[i] == EMPTY_VALUE by {
                    let r = i / (BOARD_SIZE as int);
                    let c = i % (BOARD_SIZE as int);
                    assert(in_grid(r, c) && !bounds.holds(r, c));
                    assert(grid_index(r, c) == i);
                }
                assert forall|l: usize| l < 26 implies #[trigger] tally(g.take(next), l) == tally(
                    g.take(upto),
                    l,
                ) by {
                    lemma_tally_skip(g, upto, next, l);
                }
                upto = next;
            } else {
                let end = g.len() as int;
                assert forall|i: int| upto <= i < end implies g[i] == EMPTY_VALUE by {
                    let r = i / (BOARD_SIZE as int);
                    let c = i % (BOARD_SIZE as int);
                    assert(in_grid(r, c) && !bounds.holds(r, c));
                    assert(grid_index(r, c) == i);
                }
                assert forall|l: usize| l < 26 implies #[trigger] tally(g.take(end), l) == tally(
                    g.take(upto),
                    l,
                ) by {
                    lemma_tally_skip(g, upto, end, l);
                }
                upto = end;
            }
        }
        row += 1;
    }
    proof {
        assert(g.take(upto) =~= g);
        assert forall|l: usize| l < 26 implies old_letters_on_board@[l as int] == #[trigger] tally(g, l)
            && hand_letters@[l as int] + tally(g, l) == letters@[l as int] && (played_on_board@.contains(
            l,
        ) <==> tally(g, l) > 0) by {
            assert(old_letters_on_board@[l as int] == tally(g.take(upto), l));
        }
    }
    Some((hand_letters, old_letters_on_board, played_on_board))
}

/// Checks how the letters of the board use the hand: whether the hand is
/// exactly consumed, partially consumed, or overdrawn.
pub fn check_usage(board: &Board, bounds: Bounds, letters: &Letters) -> (usage: LetterUsage)
    requires
        board.wf(),
        bounds.wf(),
        bounds.covers(board@),
    ensures
        usage == usage_of(board@, letters@),
{
    match letters_off_board(board, bounds, letters) {
        None => LetterUsage::Overused,
        Some((remaining, _, _)) => {
            proof {
                if overdrawn(board@, letters@) {
                    let l = choose|l: usize| l < 26 && #[trigger] tally(board@, l) > letters@[l as int];
                    assert(remaining@[l as int] + tally(board@, l) == letters@[l as int]);
                }
            }
            if is_used_up(&remaining) {
                proof {
                    assert forall|l: usize| l < 26 implies #[trigger] tally(board@, l)
                        == letters@[l as int] by {
                        assert(remaining@[l as int] + tally(board@, l) == letters@[l as int]);
                    }
                }
                LetterUsage::Finished
            } else {
                proof {
                    if consumed(board@, letters@) {
                        assert forall|l: int| 0 <= l < 26 implies remaining@[l] == 0 by {
                            let letter = l as usize;
                            assert(remaining@[letter as int] + tally(board@, letter)
                                == letters@[letter as int]);
                        }
                    }
                }
                LetterUsage::Remaining
            }
        },
    }
}

} // verus!
