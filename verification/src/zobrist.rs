//! Zobrist hashing: a 64-bit key per position, updated by XOR as moves are played.
//!
//! The point is transpositions. Two different move orders that reach the same board are the
//! same position, and a search keyed by hash merges them into one node instead of searching
//! both. So the key is a function of the board alone.
//!
//! The board is the whole state: levels, scores and the legal mask are all derived from it,
//! and the move count matters only as "has anything been played", which the board shows.
//! Moves are simultaneous, so there is no side to move to fold in either.
//!
//! [`step`] takes a hash, the board *before* the move, and the move, and returns the hash
//! after, without touching a game. That is what lets a search look up a child node before
//! deciding whether to build one.
//!
//! Keys are a closed formula, so there is nothing to construct and no table to pass around,
//! and a given board hashes the same in every run.
use vstd::prelude::*;

use crate::board::{nb, HW, PLAYABLE_SQUARE, PLAYER_0_MARK, PLAYER_1_MARK, REMOVED_SQUARE, SQUARES};
use crate::game::squares_of;
use crate::legal::{cell_of, legal_cell, lemma_bit_of, lemma_cell_of};
use crate::moves::{blasted, in_blast, lemma_blast_step, moved};
use crate::rng::{mix, mix64, GOLDEN};

verus! {

/// The hash of the opening position, where every square is playable.
pub const OPENING: u64 = 0;

/// Where the keys' generator starts.
const SEED: u64 = 0x5EED_A1F4_1E50_2B17;

/// One value per thing a square can hold.
pub open spec fn is_state(v: i8) -> bool {
    0 <= v < 5
}

/// Every square holds one of the five things a square can hold.
pub open spec fn states(squares: Seq<i8>) -> bool {
    &&& squares.len() == SQUARES
    &&& forall|k: int| 0 <= k < SQUARES ==> is_state(#[trigger] squares[k])
}

/// The `n`th output, from 1, of the keys' SplitMix64 generator.
pub open spec fn generated(n: u64) -> u64 {
    mix(0x5EED_A1F4_1E50_2B17u64.wrapping_add(n.wrapping_mul(GOLDEN)))
}

/// The key of a square in a state. Squares take three outputs of the generator each, in
/// order: removed, player 0's mark, player 1's mark.
///
/// The playable state's key is zero, which is what makes the opening position hash to
/// [`OPENING`] and a placed mark cost one XOR instead of two: there is no old key to cancel.
pub open spec fn key_of(square: int, state: i8) -> u64 {
    if state == REMOVED_SQUARE {
        generated((3 * square + 1) as u64)
    } else if state == PLAYER_0_MARK {
        generated((3 * square + 2) as u64)
    } else if state == PLAYER_1_MARK {
        generated((3 * square + 3) as u64)
    } else {
        0
    }
}

/// The XOR of the keys of the first `n` squares.
pub open spec fn hash_upto(squares: Seq<i8>, n: nat) -> u64
    decreases n,
{
    if n == 0 {
        OPENING
    } else {
        hash_upto(squares, (n - 1) as nat) ^ key_of(n - 1, squares[n - 1])
    }
}

/// The hash of a board, given as its 80 playable squares.
pub open spec fn hash_of(squares: Seq<i8>) -> u64 {
    hash_upto(squares, SQUARES as nat)
}

/// The diagonal neighbour of a square, as a square, or -1 off the board.
pub open spec fn square_nb(k: int, d: int) -> int {
    if nb(cell_of(k), d) < 0 {
        -1
    } else {
        nb(cell_of(k), d) / 2
    }
}

/// The XOR that turns a square holding `state` into a removed one.
pub open spec fn blast_key(k: int, state: i8) -> u64 {
    key_of(k, state) ^ key_of(k, REMOVED_SQUARE)
}

/// The hash after clearing square `c` and its first `n` neighbours.
pub open spec fn blast_hash(h: u64, squares: Seq<i8>, c: int, n: nat) -> u64
    decreases n,
{
    if n == 0 {
        h ^ blast_key(c, squares[c])
    } else {
        let before = blast_hash(h, squares, c, (n - 1) as nat);
        let m = square_nb(c, n - 1);
        if m < 0 {
            before
        } else {
            before ^ blast_key(m, squares[m])
        }
    }
}

/// The hash after a move.
pub open spec fn hash_step(h: u64, squares: Seq<i8>, i0: int, i1: int) -> u64 {
    if i0 != i1 {
        h ^ key_of(i0, PLAYER_0_MARK) ^ key_of(i1, PLAYER_1_MARK)
    } else {
        blast_hash(h, squares, i0, 4)
    }
}

fn key(square: usize, state: i8) -> (k: u64)
    requires
        square < SQUARES,
    ensures
        k == key_of(square as int, state),
{
    let n: u64 = 3 * (square as u64);
    if state == REMOVED_SQUARE {
        mix64(SEED.wrapping_add((n + 1).wrapping_mul(GOLDEN)))
    } else if state == PLAYER_0_MARK {
        mix64(SEED.wrapping_add((n + 2).wrapping_mul(GOLDEN)))
    } else if state == PLAYER_1_MARK {
        mix64(SEED.wrapping_add((n + 3).wrapping_mul(GOLDEN)))
    } else {
        0
    }
}

/// Hash a board from scratch. For a root position, or to check an incremental chain.
pub fn hash(cells: &[i8; SQUARES]) -> (h: u64)
    requires
        states(cells@),
    ensures
        h == hash_of(cells@),
{
    let mut h: u64 = OPENING;
    let mut k: usize = 0;
    while k < SQUARES
        invariant
            k <= SQUARES,
            h == hash_upto(cells@, k as nat),
        decreases SQUARES - k,
    {
        h = h ^ key(k, cells[k]);
        k = k + 1;
    }
    h
}

/// The diagonal neighbour of a square.
fn neighbour(k: usize, d: usize) -> (m: Option<usize>)
    requires
        k < SQUARES,
        d < 4,
    ensures
        m is None <==> square_nb(k as int, d as int) < 0,
        m matches Some(j) ==> j == square_nb(k as int, d as int) && j < SQUARES,
{
    proof {
        lemma_cell_of(k as int);
    }
    match crate::board::step(legal_cell(k), d) {
        Some(n) => Some(n / 2),
        None => None,
    }
}

/// The hash after playing `i0` and `i1` on the board `cells` currently holds.
///
/// `cells` must be the position *before* the move and `h` its hash; both squares must be
/// legal, which the caller knows from the mask.
///
/// An ordinary move is two XORs and never looks at the board: each square goes from playable,
/// whose key is zero, to a mark. A collision is the only case that has to read anything: five
/// squares are cleared and what they held decides the key to cancel.
pub fn step(h: u64, cells: &[i8; SQUARES], i0: usize, i1: usize) -> (r: u64)
    requires
        states(cells@),
        i0 < SQUARES,
        i1 < SQUARES,
    ensures
        r == hash_step(h, cells@, i0 as int, i1 as int),
{
    if i0 != i1 {
        return h ^ key(i0, PLAYER_0_MARK) ^ key(i1, PLAYER_1_MARK);
    }
    let mut r: u64 = h ^ (key(i0, cells[i0]) ^ key(i0, REMOVED_SQUARE));
    let mut d: usize = 0;
    while d < 4
        invariant
            d <= 4,
            i0 < SQUARES,
            r == blast_hash(h, cells@, i0 as int, d as nat),
        decreases 4 - d,
    {
        if let Some(m) = neighbour(i0, d) {
            r = r ^ (key(m, cells[m]) ^ key(m, REMOVED_SQUARE));
        }
        d = d + 1;
    }
    r
}

// ---------------------------------------------------------------------------------- laws

proof fn lemma_xor_swap(a: u64, b: u64, c: u64)
    ensures
        (a ^ b) ^ c == (a ^ c) ^ b,
        (a ^ b) ^ b == a,
        a ^ (b ^ c) == (a ^ b) ^ c,
        a ^ 0 == a,
        0 ^ a == a,
{
    assert((a ^ b) ^ c == (a ^ c) ^ b) by (bit_vector);
    assert((a ^ b) ^ b == a) by (bit_vector);
    assert(a ^ (b ^ c) == (a ^ b) ^ c) by (bit_vector);
    assert(a ^ 0 == a) by (bit_vector);
    assert(0 ^ a == a) by (bit_vector);
}

/// Changing one square changes the hash by the keys of what it held and what it holds.
pub proof fn lemma_hash_update(squares: Seq<i8>, k: int, v: i8, n: nat)
    requires
        squares.len() == SQUARES,
        0 <= k < SQUARES,
        n <= SQUARES,
    ensures
        hash_upto(squares.update(k, v), n) == if k < n {
            (hash_upto(squares, n) ^ key_of(k, squares[k])) ^ key_of(k, v)
        } else {
            hash_upto(squares, n)
        },
    decreases n,
{
    if n > 0 {
        let m = (n - 1) as nat;
        lemma_hash_update(squares, k, v, m);
        let old_h = hash_upto(squares, m);
        let a = key_of(k, squares[k]);
        let b = key_of(k, v);
        if k == m {
            lemma_xor_swap(old_h, a, a);
        } else if k < m {
            let c = key_of(m as int, squares[m as int]);
            lemma_xor_swap(old_h, a, c);
            lemma_xor_swap(old_h ^ a, b, c);
        }
    }
}

/// The opening position hashes to [`OPENING`].
pub proof fn lemma_opening_hash(n: nat)
    requires
        n <= SQUARES,
    ensures
        hash_upto(squares_of(crate::balance::opening()), n) == OPENING,
    decreases n,
{
    if n > 0 {
        lemma_opening_hash((n - 1) as nat);
        lemma_cell_of(n - 1);
        lemma_xor_swap(OPENING, 0, 0);
        assert(squares_of(crate::balance::opening())[n - 1] == PLAYABLE_SQUARE);
    }
}

/// The squares of a board with one cell of an even square changed.
proof fn lemma_squares_update(cells: Seq<i8>, k: int, v: i8)
    requires
        cells.len() == HW,
        0 <= k < SQUARES,
    ensures
        squares_of(cells.update(cell_of(k), v)) == squares_of(cells).update(k, v),
{
    lemma_cell_of(k);
    assert forall|j: int| 0 <= j < SQUARES implies squares_of(cells.update(cell_of(k), v))[j]
        == squares_of(cells).update(k, v)[j] by {
        lemma_cell_of(j);
    }
    assert(squares_of(cells.update(cell_of(k), v)) =~= squares_of(cells).update(k, v));
}

/// The neighbour of an even square is an even square.
proof fn lemma_square_nb(k: int, d: int)
    requires
        0 <= k < SQUARES,
        0 <= d < 4,
    ensures
        -1 <= square_nb(k, d) < SQUARES,
        square_nb(k, d) >= 0 <==> nb(cell_of(k), d) >= 0,
        square_nb(k, d) >= 0 ==> cell_of(square_nb(k, d)) == nb(cell_of(k), d) && square_nb(k, d)
            != k,
{
    lemma_cell_of(k);
    crate::board::lemma_nb(cell_of(k), d);
    if nb(cell_of(k), d) >= 0 {
        lemma_bit_of(nb(cell_of(k), d));
    }
}

/// Clearing square by square steps the hash square by square.
proof fn lemma_blast_hash(cells: Seq<i8>, c: int, n: nat)
    requires
        cells.len() == HW,
        0 <= c < SQUARES,
        n <= 4,
    ensures
        hash_of(squares_of(blasted(cells, cell_of(c), n as int))) == blast_hash(
            hash_of(squares_of(cells)),
            squares_of(cells),
            c,
            n,
        ),
    decreases n,
{
    let x = cell_of(c);
    let s = squares_of(cells);
    lemma_cell_of(c);
    if n == 0 {
        assert(blasted(cells, x, 0) =~= cells.update(x, REMOVED_SQUARE));
        lemma_squares_update(cells, c, REMOVED_SQUARE);
        lemma_hash_update(s, c, REMOVED_SQUARE, SQUARES as nat);
        lemma_xor_swap(hash_of(s), key_of(c, s[c]), key_of(c, REMOVED_SQUARE));
    } else {
        let d = n - 1;
        lemma_blast_hash(cells, c, d as nat);
        lemma_square_nb(c, d);
        lemma_blast_step(cells, x, d);
        let m = square_nb(c, d);
        if m >= 0 {
            let before = blasted(cells, x, d);
            let t = squares_of(before);
            lemma_squares_update(before, m, REMOVED_SQUARE);
            lemma_hash_update(t, m, REMOVED_SQUARE, SQUARES as nat);
            lemma_not_yet(c, d);
            lemma_cell_of(m);
            assert(t[m] == s[m]);
            lemma_xor_swap(hash_of(t), key_of(m, s[m]), key_of(m, REMOVED_SQUARE));
        }
    }
}

/// A neighbour is not among the cells cleared before it.
proof fn lemma_not_yet(c: int, d: int)
    requires
        0 <= c < SQUARES,
        0 <= d < 4,
        nb(cell_of(c), d) >= 0,
    ensures
        !in_blast(cell_of(c), d, nb(cell_of(c), d)),
{
    lemma_cell_of(c);
    let x = cell_of(c);
    crate::board::lemma_nb(x, d);
    if in_blast(x, d, nb(x, d)) {
        let e = choose|e: int| 0 <= e < d && nb(x, d) == #[trigger] nb(x, e);
        crate::board::lemma_nb_distinct(x, d, e);
    }
}

/// Stepping the hash lands exactly where rehashing the resulting board lands.
pub proof fn lemma_step_matches_rehash(cells: Seq<i8>, k0: int, k1: int)
    requires
        cells.len() == HW,
        0 <= k0 < SQUARES,
        0 <= k1 < SQUARES,
        k0 == k1 || (cells[cell_of(k0)] == PLAYABLE_SQUARE && cells[cell_of(k1)]
            == PLAYABLE_SQUARE),
    ensures
        hash_step(hash_of(squares_of(cells)), squares_of(cells), k0, k1) == hash_of(
            squares_of(moved(cells, cell_of(k0), cell_of(k1))),
        ),
{
    lemma_cell_of(k0);
    lemma_cell_of(k1);
    let s = squares_of(cells);
    if k0 == k1 {
        lemma_blast_hash(cells, k0, 4);
    } else {
        let one = cells.update(cell_of(k0), PLAYER_0_MARK);
        lemma_squares_update(cells, k0, PLAYER_0_MARK);
        lemma_squares_update(one, k1, PLAYER_1_MARK);
        lemma_hash_update(s, k0, PLAYER_0_MARK, SQUARES as nat);
        let t = squares_of(one);
        lemma_hash_update(t, k1, PLAYER_1_MARK, SQUARES as nat);
        assert(s[k0] == PLAYABLE_SQUARE);
        assert(t[k1] == PLAYABLE_SQUARE);
        lemma_xor_swap(hash_of(s), 0, 0);
        lemma_xor_swap(hash_of(t), 0, 0);
    }
}

/// Two moves on four different squares lead to the same board, and so to the same hash, in
/// either order.
pub proof fn lemma_orders_hash_the_same(h: u64, s: Seq<i8>, a0: int, a1: int, b0: int, b1: int)
    requires
        s.len() == SQUARES,
        0 <= a0 < SQUARES,
        0 <= a1 < SQUARES,
        0 <= b0 < SQUARES,
        0 <= b1 < SQUARES,
        a0 != a1,
        b0 != b1,
    ensures
        ({
            let after_a = s.update(a0, PLAYER_0_MARK).update(a1, PLAYER_1_MARK);
            let after_b = s.update(b0, PLAYER_0_MARK).update(b1, PLAYER_1_MARK);
            hash_step(hash_step(h, s, a0, a1), after_a, b0, b1) == hash_step(
                hash_step(h, s, b0, b1),
                after_b,
                a0,
                a1,
            )
        }),
{
    let w = key_of(a0, PLAYER_0_MARK);
    let x = key_of(a1, PLAYER_1_MARK);
    let y = key_of(b0, PLAYER_0_MARK);
    let z = key_of(b1, PLAYER_1_MARK);
    assert((((h ^ w) ^ x) ^ y) ^ z == (((h ^ y) ^ z) ^ w) ^ x) by (bit_vector);
}

} // verus!
