//! The shape of the board, the encoding of a square, and the diagonal steps between squares.
use vstd::prelude::*;

verus! {

/// Board shape. Every square with `(r + c)` even is playable: 80 of the 160.
pub const HEIGHT: usize = 10;

pub const WIDTH: usize = 16;

/// Cells per board.
pub const HW: usize = 160;

/// Playable squares per board.
pub const SQUARES: usize = 80;

/// Playable squares per row.
pub const ROW: usize = 8;

/// Square encoding. A square is one of these five things and nothing else.
pub const NON_PLAYABLE_SQUARE: i8 = 0;

pub const PLAYABLE_SQUARE: i8 = 1;

pub const REMOVED_SQUARE: i8 = 2;

pub const PLAYER_0_MARK: i8 = 3;

pub const PLAYER_1_MARK: i8 = 4;

/// "No route to the border."
pub const INF: u8 = 255;

/// A shortest path visits distinct squares of one colour of the checkerboard, and each colour
/// has 80, so no real level reaches this.
pub const MAX_LEVEL: u8 = 80;

// ------------------------------------------------------------------------------ geometry

/// The row of cell `i`.
pub open spec fn row(i: int) -> int {
    i / 16
}

/// The column of cell `i`.
pub open spec fn col(i: int) -> int {
    i % 16
}

/// Is `i` one of the squares with `(r + c)` even?
pub open spec fn even_square(i: int) -> bool {
    (row(i) + col(i)) % 2 == 0
}

/// Does cell `i` lie on the edge of the board?
pub open spec fn border(i: int) -> bool {
    row(i) == 0 || row(i) == 9 || col(i) == 0 || col(i) == 15
}

/// The row step of diagonal direction `d`: directions 0 and 1 go up, 2 and 3 down.
pub open spec fn diag_r(d: int) -> int {
    if d < 2 {
        -1
    } else {
        1
    }
}

/// The column step of diagonal direction `d`: directions 0 and 2 go left, 1 and 3 right.
pub open spec fn diag_c(d: int) -> int {
    if d % 2 == 0 {
        -1
    } else {
        1
    }
}

/// The diagonal neighbour of cell `i` in direction `d`, or -1 where that leaves the board.
/// Direction `3 - d` is opposite to `d`.
#[verifier::opaque]
pub open spec fn nb(i: int, d: int) -> int {
    let r = row(i) + diag_r(d);
    let c = col(i) + diag_c(d);
    if 0 <= r < 10 && 0 <= c < 16 {
        r * 16 + c
    } else {
        -1
    }
}

/// Facts about one diagonal step: it stays on the board or is -1, it keeps the colour of the
/// square, and it moves.
pub broadcast proof fn lemma_nb(i: int, d: int)
    requires
        0 <= i < HW,
        0 <= d < 4,
    ensures
        -1 <= #[trigger] nb(i, d) < HW,
        nb(i, d) != i,
        nb(i, d) >= 0 ==> even_square(nb(i, d)) == even_square(i),
{
    reveal(nb);
}

/// The opposite direction undoes a step.
pub proof fn lemma_nb_back(i: int, d: int)
    requires
        0 <= i < HW,
        0 <= d < 4,
        nb(i, d) >= 0,
    ensures
        nb(nb(i, d), 3 - d) == i,
{
    reveal(nb);
}

/// Where a step leads, in terms of the flat index.
pub proof fn lemma_nb_index(i: int, d: int)
    requires
        0 <= i < HW,
        0 <= d < 4,
    ensures
        nb(i, d) >= 0 ==> nb(i, d) == i + diag_r(d) * 16 + diag_c(d),
{
    reveal(nb);
}

/// Different directions lead to different cells.
pub proof fn lemma_nb_distinct(i: int, d: int, e: int)
    requires
        0 <= i < HW,
        0 <= d < 4,
        0 <= e < 4,
        d != e,
        nb(i, d) >= 0,
    ensures
        nb(i, d) != nb(i, e),
{
    reveal(nb);
}

/// Two cells of one colour in the same pair of columns of a row are the same cell.
pub proof fn lemma_even_half(i: int, j: int)
    requires
        0 <= i < HW,
        0 <= j < HW,
        even_square(i) == even_square(j),
        i / 2 == j / 2,
    ensures
        i == j,
{
}

/// Does cell `i` hold a mark of player `p`?
pub open spec fn mark(cells: Seq<i8>, p: i8, i: int) -> bool {
    0 <= i < HW && cells[i] == p
}

/// Is `p` the mark of one of the two players?
pub open spec fn is_player(p: i8) -> bool {
    p == PLAYER_0_MARK || p == PLAYER_1_MARK
}

pub(crate) fn on_border(i: usize) -> (b: bool)
    requires
        i < HW,
    ensures
        b == border(i as int),
{
    let r: usize = i / WIDTH;
    let c: usize = i % WIDTH;
    r == 0 || r == HEIGHT - 1 || c == 0 || c == WIDTH - 1
}

/// The cell one diagonal step `d` from `i`, or `None` if that leaves the board.
pub(crate) fn step(i: usize, d: usize) -> (n: Option<usize>)
    requires
        i < HW,
        d < 4,
    ensures
        nb(i as int, d as int) < 0 <==> n is None,
        n matches Some(j) ==> j == nb(i as int, d as int) && j < HW && j != i,
{
    proof {
        lemma_nb(i as int, d as int);
        reveal(nb);
    }
    let r: usize = i / WIDTH;
    let c: usize = i % WIDTH;
    let up: bool = d < 2;
    let left: bool = d % 2 == 0;
    if (up && r == 0) || (!up && r == HEIGHT - 1) || (left && c == 0) || (!left && c == WIDTH - 1) {
        None
    } else {
        let nr: usize = if up {
            r - 1
        } else {
            r + 1
        };
        let nc: usize = if left {
            c - 1
        } else {
            c + 1
        };
        Some(nr * WIDTH + nc)
    }
}

/// Is the cell one step `d` from `i` a mark of player `p`?
pub(crate) fn mark_at(cells: &[i8], i: usize, d: usize, p: i8) -> (b: bool)
    requires
        cells@.len() == HW,
        i < HW,
        d < 4,
    ensures
        b == mark(cells@, p, nb(i as int, d as int)),
{
    match step(i, d) {
        Some(n) => cells[n] == p,
        None => false,
    }
}

/// The index of a player's score.
pub open spec fn player_of(p: i8) -> int {
    if p == PLAYER_0_MARK {
        0
    } else {
        1
    }
}

pub(crate) fn player_index(p: i8) -> (k: usize)
    ensures
        k == player_of(p),
        k < 2,
{
    if p == PLAYER_0_MARK {
        0
    } else {
        1
    }
}

} // verus!
