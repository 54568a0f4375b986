//! Which positions can still follow from which.
//!
//! Squares only ever go one way: a playable square is taken or cleared, a mark is cleared, and
//! a cleared square stays cleared. So one look at each square tells that a position can not
//! follow from another, without playing anything.
use vstd::prelude::*;

use crate::board::{HW, PLAYABLE_SQUARE, REMOVED_SQUARE};
use crate::game::Game;
use crate::moves::moved;

verus! {

/// Can a square that holds `from` come to hold `to`?
pub open spec fn may_become(from: i8, to: i8) -> bool {
    to == from || from == PLAYABLE_SQUARE || to == REMOVED_SQUARE
}

/// Can every square of `from` come to hold what it holds in `to`?
pub open spec fn reachable(from: Seq<i8>, to: Seq<i8>) -> bool {
    forall|i: int| 0 <= i < HW ==> may_become(#[trigger] from[i], to[i])
}

impl Game {
    /// Can this position still follow from `root`? Necessary for it, square by square, and
    /// what the sweep goes by: a position that fails can not come up in a game at `root`.
    pub fn reachable_from(&self, root: &Game) -> (r: bool)
        ensures
            r == reachable(root.cells@, self.cells@),
    {
        let mut i: usize = 0;
        while i < HW
            invariant
                i <= HW,
                forall|j: int| 0 <= j < i ==> may_become(#[trigger] root.cells@[j], self.cells@[j]),
            decreases HW - i,
        {
            let from: i8 = root.cells[i];
            let to: i8 = self.cells[i];
            if to != from && from != PLAYABLE_SQUARE && to != REMOVED_SQUARE {
                assert(!may_become(root.cells@[i as int], self.cells@[i as int]));
                return false;
            }
            i = i + 1;
        }
        true
    }
}

/// A position is reachable from itself.
pub proof fn lemma_reach_self(cells: Seq<i8>)
    ensures
        reachable(cells, cells),
{
}

/// What follows from what follows from a position follows from it.
pub proof fn lemma_reach_on(a: Seq<i8>, b: Seq<i8>, c: Seq<i8>)
    requires
        reachable(a, b),
        reachable(b, c),
    ensures
        reachable(a, c),
{
    assert forall|i: int| 0 <= i < HW implies may_become(#[trigger] a[i], c[i]) by {
        assert(may_become(a[i], b[i]));
        assert(may_become(b[i], c[i]));
    }
}

/// The board after a legal move is reachable from the board before it.
pub proof fn lemma_reach_move(cells: Seq<i8>, i0: int, i1: int)
    requires
        cells.len() == HW,
        0 <= i0 < HW,
        0 <= i1 < HW,
        cells[i0] == PLAYABLE_SQUARE,
        cells[i1] == PLAYABLE_SQUARE,
    ensures
        reachable(cells, moved(cells, i0, i1)),
{
    let b = moved(cells, i0, i1);
    assert forall|i: int| 0 <= i < HW implies may_become(#[trigger] cells[i], b[i]) by {}
}

/// Two moves, of two different squares each, lead to the same board in either order if no
/// square is taken by one player in one of them and by the other player in the other.
pub proof fn lemma_moves_commute(cells: Seq<i8>, a0: int, a1: int, b0: int, b1: int)
    requires
        cells.len() == HW,
        0 <= a0 < HW,
        0 <= a1 < HW,
        0 <= b0 < HW,
        0 <= b1 < HW,
        a0 != a1,
        b0 != b1,
        a0 != b1,
        b0 != a1,
    ensures
        moved(moved(cells, a0, a1), b0, b1) == moved(moved(cells, b0, b1), a0, a1),
{
    assert(moved(moved(cells, a0, a1), b0, b1) =~= moved(moved(cells, b0, b1), a0, a1));
}

} // verus!
