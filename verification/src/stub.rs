//! A stand-in for a model that always has one square in mind.
use vstd::prelude::*;

use crate::board::{PLAYABLE_SQUARE, SQUARES};
use crate::legal::{in_half, lemma_cell_of};

verus! {

/// Is nothing played?
pub open spec fn untouched(squares: Seq<i8>) -> bool {
    forall|k: int| 0 <= k < SQUARES ==> #[trigger] squares[k] == PLAYABLE_SQUARE
}

/// May the player take square `k`: it is open, and at the opening in the player's half.
pub open spec fn open_to(squares: Seq<i8>, player: int, k: int) -> bool {
    squares[k] == PLAYABLE_SQUARE && in_half(k, player, untouched(squares))
}

/// The square a player has in mind before any other.
pub open spec fn favourite(player: int) -> int {
    if player == 0 {
        0
    } else {
        4
    }
}

/// Is square `k` open to the player?
fn is_open(squares: &[i8; SQUARES], player: usize, opening: bool, k: usize) -> (r: bool)
    requires
        k < SQUARES,
        opening == untouched(squares@),
    ensures
        r == open_to(squares@, player as int, k as int),
{
    proof {
        lemma_cell_of(k as int);
    }
    let c: usize = 2 * (k % 8) + (k / 8) % 2;
    let left: bool = c < 8;
    squares[k] == PLAYABLE_SQUARE && (!opening || left == (player == 0))
}

/// The square the stand-in has in mind: the favourite if the player may take it, else the
/// first square that the player may take, else the first open square, else square 0.
pub fn spike_square(squares: &[i8; SQUARES], player: usize) -> (r: usize)
    ensures
        r < SQUARES,
        open_to(squares@, player as int, favourite(player as int)) ==> r == favourite(
            player as int,
        ),
        !open_to(squares@, player as int, favourite(player as int)) && (exists|k: int|
            0 <= k < SQUARES && #[trigger] open_to(squares@, player as int, k)) ==> {
            &&& open_to(squares@, player as int, r as int)
            &&& forall|k: int| 0 <= k < r ==> !#[trigger] open_to(squares@, player as int, k)
        },
        !(exists|k: int| 0 <= k < SQUARES && #[trigger] open_to(squares@, player as int, k)) ==> {
            &&& forall|k: int| 0 <= k < r ==> #[trigger] squares@[k] != PLAYABLE_SQUARE
            &&& squares@[r as int] == PLAYABLE_SQUARE || (r == 0 && forall|k: int|
                0 <= k < SQUARES ==> #[trigger] squares@[k] != PLAYABLE_SQUARE)
        },
{
    let mut opening: bool = true;
    let mut k: usize = 0;
    while k < SQUARES
        invariant
            k <= SQUARES,
            opening <==> forall|j: int| 0 <= j < k ==> #[trigger] squares@[j] == PLAYABLE_SQUARE,
        decreases SQUARES - k,
    {
        if squares[k] != PLAYABLE_SQUARE {
            opening = false;
        }
        k = k + 1;
    }
    let first: usize = if player == 0 {
        0
    } else {
        4
    };
    if is_open(squares, player, opening, first) {
        return first;
    }
    k = 0;
    while k < SQUARES
        invariant
            k <= SQUARES,
            opening == untouched(squares@),
            forall|j: int| 0 <= j < k ==> !#[trigger] open_to(squares@, player as int, j),
            !open_to(squares@, player as int, favourite(player as int)),
        decreases SQUARES - k,
    {
        if is_open(squares, player, opening, k) {
            return k;
        }
        k = k + 1;
    }
    k = 0;
    while k < SQUARES
        invariant
            k <= SQUARES,
            forall|j: int| 0 <= j < SQUARES ==> !#[trigger] open_to(squares@, player as int, j),
            forall|j: int| 0 <= j < k ==> #[trigger] squares@[j] != PLAYABLE_SQUARE,
            !open_to(squares@, player as int, favourite(player as int)),
        decreases SQUARES - k,
    {
        if squares[k] == PLAYABLE_SQUARE {
            return k;
        }
        k = k + 1;
    }
    0
}

} // verus!
