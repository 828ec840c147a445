//! Whether the letters of a board hang together.
//!
//! Two cells are neighbours when they share an edge. The letters of a board
//! hang together when a path of occupied neighbouring cells leads from any
//! occupied cell to any other. A play that touches a letter of the board
//! keeps the board in one piece.

use vstd::prelude::*;
use crate::alphabet::BOARD_SIZE;
use crate::board::occupied;
use crate::line::{filled, line_col, line_index, line_row, Direction};
use crate::placement::{anchored, beside};
use crate::runs::differs_on_play;

verus! {

/// The cells `a` and `b`, each as (row, column), share an edge.
pub open spec fn adjacent(a: (int, int), b: (int, int)) -> bool {
    ||| a.0 == b.0 && (a.1 == b.1 + 1 || b.1 == a.1 + 1)
    ||| a.1 == b.1 && (a.0 == b.0 + 1 || b.0 == a.0 + 1)
}

/// `path` is a walk over occupied cells, each step to a neighbour.
pub open spec fn is_path(g: Seq<usize>, path: Seq<(int, int)>) -> bool {
    &&& path.len() > 0
    &&& forall|i: int| 0 <= i < path.len() ==> occupied(g, (#[trigger] path[i]).0, path[i].1)
    &&& forall|i: int| 0 <= i < path.len() - 1 ==> adjacent(#[trigger] path[i], path[i + 1])
}

/// A walk over occupied cells leads from `a` to `b`.
pub open spec fn linked(g: Seq<usize>, a: (int, int), b: (int, int)) -> bool {
    exists|path: Seq<(int, int)>| #[trigger] is_path(g, path) && path.first() == a && path.last() == b
}

/// The set of occupied cells is 4-connected: from every occupied cell a walk
/// over occupied cells leads to every other.
pub open spec fn connected(g: Seq<usize>) -> bool {
    forall|a: (int, int), b: (int, int)|
        occupied(g, a.0, a.1) && occupied(g, b.0, b.1) ==> #[trigger] linked(g, a, b)
}

/// The cell at offset `off` of line `line`, as (row, column).
pub open spec fn line_cell(dir: Direction, line: int, off: int) -> (int, int) {
    (line_row(dir, line, off), line_col(dir, line, off))
}

/// An occupied cell is linked to itself.
pub proof fn lemma_linked_self(g: Seq<usize>, a: (int, int))
    requires
        occupied(g, a.0, a.1),
    ensures
        linked(g, a, a),
{
    let path = seq![a];
    assert(is_path(g, path));
    assert(path.first() == a && path.last() == a);
}

/// Two occupied cells that share an edge are linked.
pub proof fn lemma_linked_step(g: Seq<usize>, a: (int, int), b: (int, int))
    requires
        occupied(g, a.0, a.1),
        occupied(g, b.0, b.1),
        adjacent(a, b),
    ensures
        linked(g, a, b),
{
    let path = seq![a, b];
    assert(is_path(g, path));
    assert(path.first() == a && path.last() == b);
}

/// A walk can be walked back.
pub proof fn lemma_linked_back(g: Seq<usize>, a: (int, int), b: (int, int))
    requires
        linked(g, a, b),
    ensures
        linked(g, b, a),
{
    let path = choose|path: Seq<(int, int)>| #[trigger]
        is_path(g, path) && path.first() == a && path.last() == b;
    let back = path.reverse();
    assert forall|i: int| 0 <= i < back.len() - 1 implies adjacent(#[trigger] back[i], back[i + 1]) by {
        let k = path.len() - 2 - i;
        assert(adjacent(path[k], path[k + 1]));
    }
    assert(is_path(g, back));
    assert(back.first() == b && back.last() == a);
}

/// A walk from `a` to `b` and a walk from `b` to `c` make a walk from `a` to `c`.
pub proof fn lemma_linked_chain(g: Seq<usize>, a: (int, int), b: (int, int), c: (int, int))
    requires
        linked(g, a, b),
        linked(g, b, c),
    ensures
        linked(g, a, c),
{
    let there = choose|path: Seq<(int, int)>| #[trigger]
        is_path(g, path) && path.first() == a && path.last() == b;
    let onward = choose|path: Seq<(int, int)>| #[trigger]
        is_path(g, path) && path.first() == b && path.last() == c;
    let path = there + onward.drop_first();
    assert forall|i: int| 0 <= i < path.len() - 1 implies adjacent(#[trigger] path[i], path[i + 1]) by {
        if i < there.len() - 1 {
            assert(adjacent(there[i], there[i + 1]));
        } else {
            let k = i - (there.len() - 1);
            assert(adjacent(onward[k], onward[k + 1]));
            if i == there.len() - 1 {
                assert(path[i] == there.last());
            } else {
                assert(path[i] == onward[k]);
            }
            assert(path[i + 1] == onward[k + 1]);
        }
    }
    assert forall|i: int| 0 <= i < path.len() implies occupied(g, (#[trigger] path[i]).0, path[i].1) by {
        if i < there.len() {
            assert(path[i] == there[i]);
        } else {
            assert(path[i] == onward[i - there.len() + 1]);
        }
    }
    assert(is_path(g, path));
    assert(path.first() == there.first());
    if onward.len() == 1 {
        assert(path.last() == there.last());
    } else {
        assert(path.last() == onward.last());
    }
}

/// A walk stays a walk when letters are added to the board.
pub proof fn lemma_linked_grow(g: Seq<usize>, g2: Seq<usize>, a: (int, int), b: (int, int))
    requires
        linked(g, a, b),
        forall|r: int, c: int| occupied(g, r, c) ==> occupied(g2, r, c),
    ensures
        linked(g2, a, b),
{
    let path = choose|path: Seq<(int, int)>| #[trigger]
        is_path(g, path) && path.first() == a && path.last() == b;
    assert(is_path(g2, path));
}

/// The filled cells of a stretch of a line are linked to its first cell.
proof fn lemma_linked_along(g: Seq<usize>, dir: Direction, line: int, start: int, off: int)
    requires
        0 <= line < BOARD_SIZE,
        0 <= start <= off < BOARD_SIZE,
        forall|k: int| start <= k <= off ==> #[trigger] filled(g, dir, line, k),
    ensures
        linked(g, line_cell(dir, line, start), line_cell(dir, line, off)),
    decreases off - start,
{
    assert(filled(g, dir, line, start));
    if off == start {
        lemma_linked_self(g, line_cell(dir, line, start));
    } else {
        lemma_linked_along(g, dir, line, start, off - 1);
        assert(filled(g, dir, line, off - 1));
        assert(filled(g, dir, line, off));
        lemma_linked_step(g, line_cell(dir, line, off - 1), line_cell(dir, line, off));
        lemma_linked_chain(
            g,
            line_cell(dir, line, start),
            line_cell(dir, line, off - 1),
            line_cell(dir, line, off),
        );
    }
}

/// Every occupied cell of the new board is linked to the first cell of the play.
proof fn lemma_linked_to_play(
    g: Seq<usize>,
    g2: Seq<usize>,
    dir: Direction,
    line: int,
    start: int,
    end: int,
    a: (int, int),
)
    requires
        differs_on_play(g, g2, dir, line, start, end),
        connected(g),
        anchored(g, dir, line, start, end - start + 1) || forall|r: int, c: int| !occupied(g, r, c),
        occupied(g2, a.0, a.1),
    ensures
        linked(g2, line_cell(dir, line, start), a),
{
    let first = line_cell(dir, line, start);
    // The cell of `a` in the coordinates of the line
    let (al, ao) = match dir {
        Direction::Horizontal => (a.0, a.1),
        Direction::Vertical => (a.1, a.0),
    };
    assert(line_cell(dir, al, ao) == a);
    assert(filled(g2, dir, al, ao));
    if al == line && start <= ao <= end {
        assert forall|k: int| start <= k <= ao implies #[trigger] filled(g2, dir, line, k) by {}
        lemma_linked_along(g2, dir, line, start, ao);
    } else {
        assert(g2[line_index(dir, al, ao)] == g[line_index(dir, al, ao)]);
        assert(occupied(g, a.0, a.1));
        assert forall|r: int, c: int| occupied(g, r, c) implies occupied(g2, r, c) by {
            let (l2, o2) = match dir {
                Direction::Horizontal => (r, c),
                Direction::Vertical => (c, r),
            };
            if l2 == line && start <= o2 <= end {
                assert(filled(g2, dir, line, o2));
            } else {
                assert(g2[line_index(dir, l2, o2)] == g[line_index(dir, l2, o2)]);
            }
        }
        assert(anchored(g, dir, line, start, end - start + 1));
        // An old letter `o` beside a cell `t` of the play
        let (o, t): ((int, int), int) = if filled(g, dir, line, start - 1) {
            (line_cell(dir, line, start - 1), start)
        } else if filled(g, dir, line, end + 1) {
            (line_cell(dir, line, end + 1), end)
        } else {
            let i = choose|i: int| 0 <= i < end - start + 1 && #[trigger] beside(g, dir, line, start + i);
            if filled(g, dir, line - 1, start + i) {
                (line_cell(dir, line - 1, start + i), start + i)
            } else {
                (line_cell(dir, line + 1, start + i), start + i)
            }
        };
        assert(start <= t <= end);
        assert(occupied(g, o.0, o.1));
        assert(adjacent(line_cell(dir, line, t), o));
        assert(filled(g2, dir, line, t));
        assert forall|k: int| start <= k <= t implies #[trigger] filled(g2, dir, line, k) by {}
        lemma_linked_along(g2, dir, line, start, t);
        lemma_linked_step(g2, line_cell(dir, line, t), o);
        lemma_linked_chain(g2, first, line_cell(dir, line, t), o);
        assert(linked(g, o, a));
        lemma_linked_grow(g, g2, o, a);
        lemma_linked_chain(g2, first, o, a);
    }
}

/// A board whose letters hang together stays in one piece under a play that
/// touches one of its letters, and a board without letters under any play.
pub proof fn lemma_play_keeps_connected(
    g: Seq<usize>,
    g2: Seq<usize>,
    dir: Direction,
    line: int,
    start: int,
    end: int,
)
    requires
        differs_on_play(g, g2, dir, line, start, end),
        connected(g),
        anchored(g, dir, line, start, end - start + 1) || forall|r: int, c: int| !occupied(g, r, c),
    ensures
        connected(g2),
{
    let first = line_cell(dir, line, start);
    assert forall|a: (int, int), b: (int, int)|
        occupied(g2, a.0, a.1) && occupied(g2, b.0, b.1) implies #[trigger] linked(g2, a, b) by {
        lemma_linked_to_play(g, g2, dir, line, start, end, a);
        lemma_linked_to_play(g, g2, dir, line, start, end, b);
        lemma_linked_back(g2, first, a);
        lemma_linked_chain(g2, a, first, b);
    }
}

} // verus!
