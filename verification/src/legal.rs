//! Which squares are still playable, as a bitboard.
//!
//! The 80 squares with `(r + c)` even pack into 80 bits: `i / 2` maps them onto `0..80`
//! densely and in row-major order, since row `r`'s playable columns are `2j + (r & 1)`, so
//! `i / 2 == r * 8 + j`. Order matters: a sampler's cumulative scan walks bits low to high,
//! which is board order.
use vstd::prelude::*;

use crate::board::{col, even_square, HW, PLAYABLE_SQUARE, SQUARES};
use crate::sums::{lemma_sum_nonneg, sum_to, unit};

verus! {

/// `u64`s in a legality mask. This is a count of words, not a width.
pub const LEGAL_WORDS: usize = 2;

/// The opening-move half-board rule, by word: `c < 8` is `j < 4` for both row parities, so
/// the rule is the low nibble of every byte and applying it is one `AND`.
const LEFT_0: u64 = 0x0F0F_0F0F_0F0F_0F0F;

const LEFT_1: u64 = 0x0F0F;

const RIGHT_0: u64 = 0xF0F0_F0F0_F0F0_F0F0;

const RIGHT_1: u64 = 0xF0F0;

/// The 80 valid bits, by word: the opening position.
const ALL_0: u64 = 0xFFFF_FFFF_FFFF_FFFF;

const ALL_1: u64 = 0xFFFF;

// ---------------------------------------------------------------------------------- bits

/// Is bit `j` of `w` set?
pub open spec fn word_bit(w: u64, j: int) -> bool {
    (w >> (j as u64)) & 1 == 1
}

/// Is bit `k` of the mask set?
pub open spec fn holds(words: Seq<u64>, k: int) -> bool {
    word_bit(words[k / 64], k % 64)
}

/// The number of bits of the mask set below bit `k`.
pub open spec fn count_below(words: Seq<u64>, k: nat) -> int {
    sum_to(
        |j: int| unit(holds(words, j)),
        k,
    )
}

/// The cell that bit `k` stands for.
pub open spec fn cell_of(k: int) -> int {
    2 * k + (k / 8) % 2
}

/// A bit's cell is an even square, and bit and cell determine each other.
pub proof fn lemma_cell_of(k: int)
    requires
        0 <= k < SQUARES,
    ensures
        0 <= cell_of(k) < HW,
        even_square(cell_of(k)),
        cell_of(k) / 2 == k,
        k % 8 < 4 <==> col(cell_of(k)) < 8,
{
}

pub proof fn lemma_bit_of(i: int)
    requires
        0 <= i < HW,
    ensures
        0 <= i / 2 < SQUARES,
        even_square(i) <==> cell_of(i / 2) == i,
{
}

proof fn lemma_clear_bit(w: u64, a: u64, b: u64)
    requires
        a < 64,
        b < 64,
    ensures
        word_bit(w & !(1u64 << a), b as int) <==> word_bit(w, b as int) && a != b,
{
    assert((((w & !(1u64 << a)) >> b) & 1 == 1) <==> ((w >> b) & 1 == 1 && a != b))
        by (bit_vector)
        requires
            a < 64,
            b < 64,
    ;
}

proof fn lemma_set_bit(w: u64, a: u64, b: u64)
    requires
        a < 64,
        b < 64,
    ensures
        word_bit(w | (1u64 << a), b as int) <==> word_bit(w, b as int) || a == b,
{
    assert((((w | (1u64 << a)) >> b) & 1 == 1) <==> ((w >> b) & 1 == 1 || a == b))
        by (bit_vector)
        requires
            a < 64,
            b < 64,
    ;
}

proof fn lemma_and_bit(w: u64, m: u64, b: u64)
    requires
        b < 64,
    ensures
        word_bit(w & m, b as int) <==> word_bit(w, b as int) && word_bit(m, b as int),
{
    assert((((w & m) >> b) & 1 == 1) <==> ((w >> b) & 1 == 1 && (m >> b) & 1 == 1))
        by (bit_vector)
        requires
            b < 64,
    ;
}

/// A word is zero exactly if it has no bit set.
proof fn lemma_zero_word(w: u64)
    ensures
        w == 0 <==> forall|j: int| 0 <= j < 64 ==> !#[trigger] word_bit(w, j),
{
    if w == 0 {
        assert forall|j: int| 0 <= j < 64 implies !#[trigger] word_bit(w, j) by {
            let b = j as u64;
            assert((0u64 >> b) & 1 == 0) by (bit_vector)
                requires
                    b < 64,
            ;
        }
    } else if forall|j: int| 0 <= j < 64 ==> !#[trigger] word_bit(w, j) {
        lemma_some_bit(w, 64);
    }
}

/// A word below `2^n` without a bit set below `n` is zero.
proof fn lemma_some_bit(w: u64, n: u64)
    requires
        n <= 64,
        forall|j: int| 0 <= j < n ==> !#[trigger] word_bit(w, j),
        n == 64 || w < (1u64 << n),
    ensures
        w == 0,
    decreases n,
{
    if n == 0 {
        assert(w < (1u64 << 0u64) ==> w == 0) by (bit_vector);
    } else {
        let m = (n - 1) as u64;
        assert(!word_bit(w, m as int));
        assert((w >> m) & 1 != 1 && (n == 64 || w < (1u64 << n)) ==> w < (1u64 << m))
            by (bit_vector)
            requires
                1 <= n <= 64,
                m == n - 1,
        ;
        lemma_some_bit(w, m);
    }
}

/// The masks of the half-board rule, bit by bit.
proof fn lemma_halves(b: u64)
    requires
        b < 64,
    ensures
        word_bit(LEFT_0, b as int) <==> b % 8 < 4,
        word_bit(LEFT_1, b as int) <==> b < 16 && b % 8 < 4,
        word_bit(RIGHT_0, b as int) <==> b % 8 >= 4,
        word_bit(RIGHT_1, b as int) <==> b < 16 && b % 8 >= 4,
        word_bit(ALL_0, b as int),
        word_bit(ALL_1, b as int) <==> b < 16,
{
    assert(((0x0F0F_0F0F_0F0F_0F0Fu64 >> b) & 1 == 1) <==> b % 8 < 4) by (bit_vector)
        requires
            b < 64,
    ;
    assert(((0x0F0Fu64 >> b) & 1 == 1) <==> b < 16 && b % 8 < 4) by (bit_vector)
        requires
            b < 64,
    ;
    assert(((0xF0F0_F0F0_F0F0_F0F0u64 >> b) & 1 == 1) <==> b % 8 >= 4) by (bit_vector)
        requires
            b < 64,
    ;
    assert(((0xF0F0u64 >> b) & 1 == 1) <==> b < 16 && b % 8 >= 4) by (bit_vector)
        requires
            b < 64,
    ;
    assert((0xFFFF_FFFF_FFFF_FFFFu64 >> b) & 1 == 1) by (bit_vector)
        requires
            b < 64,
    ;
    assert(((0xFFFFu64 >> b) & 1 == 1) <==> b < 16) by (bit_vector)
        requires
            b < 64,
    ;
}

/// Adding a bit, stated of the whole mask.
proof fn lemma_mask_set(words: Seq<u64>, k: int)
    requires
        words.len() == LEGAL_WORDS,
        0 <= k < 128,
    ensures
        forall|j: int|
            0 <= j < 128 ==> (#[trigger] holds(
                words.update(k / 64, words[k / 64] | (1u64 << ((k % 64) as u64))),
                j,
            ) <==> holds(words, j) || j == k),
{
    let w2 = words.update(k / 64, words[k / 64] | (1u64 << ((k % 64) as u64)));
    assert forall|j: int| 0 <= j < 128 implies (#[trigger] holds(w2, j) <==> holds(words, j) || j
        == k) by {
        lemma_set_bit(words[k / 64], (k % 64) as u64, (j % 64) as u64);
    }
}

/// Clearing a bit, stated of the whole mask.
proof fn lemma_mask_clear(words: Seq<u64>, k: int)
    requires
        words.len() == LEGAL_WORDS,
        0 <= k < 128,
    ensures
        forall|j: int|
            0 <= j < 128 ==> (#[trigger] holds(
                words.update(k / 64, words[k / 64] & !(1u64 << ((k % 64) as u64))),
                j,
            ) <==> holds(words, j) && j != k),
{
    let w2 = words.update(k / 64, words[k / 64] & !(1u64 << ((k % 64) as u64)));
    assert forall|j: int| 0 <= j < 128 implies (#[trigger] holds(w2, j) <==> holds(words, j) && j
        != k) by {
        lemma_clear_bit(words[k / 64], (k % 64) as u64, (j % 64) as u64);
    }
}

// ------------------------------------------------------------------------------ operations

/// Word and bit for a board index. A non-playable index aliases onto its even neighbour,
/// harmless because that bit is never set.
fn legal_bit(i: usize) -> (r: (usize, u64))
    requires
        i < HW,
    ensures
        r.0 == (i / 2) / 64,
        r.1 == 1u64 << (((i / 2) % 64) as u64),
{
    let k: usize = i / 2;
    (k / 64, 1u64 << ((k % 64) as u64))
}

/// The board index a bit position stands for: the decoder for a mask of legal moves.
pub fn legal_cell(k: usize) -> (i: usize)
    ensures
        i == (k << 1) | ((k >> 3) & 1),
        k < 0x4000_0000 ==> i == cell_of(k as int),
{
    assert(k < 0x4000_0000 ==> (k << 1) | ((k >> 3) & 1) == 2 * k + (k / 8) % 2) by (bit_vector);
    (k << 1) | ((k >> 3) & 1)
}

/// Mark a square as no longer playable: every square a move writes, marked or blasted.
pub(crate) fn clear_legal(legal: &mut [u64], i: usize)
    requires
        old(legal)@.len() == LEGAL_WORDS,
        i < HW,
    ensures
        final(legal)@.len() == LEGAL_WORDS,
        forall|j: int|
            0 <= j < 128 ==> (#[trigger] holds(final(legal)@, j) <==> holds(old(legal)@, j) && j
                != i / 2),
{
    proof {
        lemma_mask_clear(legal@, (i / 2) as int);
    }
    let (w, b) = legal_bit(i);
    legal[w] = legal[w] & !b;
}

/// Bit `k` of the mask is set exactly if one of the two cells it may stand for is playable;
/// there are no bits past the last square.
pub open spec fn scanned(cells: Seq<i8>, words: Seq<u64>) -> bool {
    &&& words.len() == LEGAL_WORDS
    &&& forall|k: int|
        0 <= k < 128 ==> (#[trigger] holds(words, k) <==> k < SQUARES && (cells[2 * k]
            == PLAYABLE_SQUARE || cells[2 * k + 1] == PLAYABLE_SQUARE))
}

/// The legality mask of a board: one bit for each playable square.
pub(crate) fn scan_legal(cells: &[i8]) -> (words: [u64; LEGAL_WORDS])
    requires
        cells@.len() == HW,
    ensures
        scanned(cells@, words@),
{
    let mut words: [u64; LEGAL_WORDS] = [0u64, 0u64];
    proof {
        lemma_zero_word(0);
        assert forall|k: int| 0 <= k < 128 implies !#[trigger] holds(words@, k) by {
            assert(!word_bit(0, k % 64));
        }
    }
    let mut i: usize = 0;
    while i < HW
        invariant
            i <= HW,
            cells@.len() == HW,
            words@.len() == LEGAL_WORDS,
            forall|k: int|
                0 <= k < 128 ==> (#[trigger] holds(words@, k) <==> k < SQUARES && ((2 * k < i
                    && cells@[2 * k] == PLAYABLE_SQUARE) || (2 * k + 1 < i && cells@[2 * k + 1]
                    == PLAYABLE_SQUARE))),
        decreases HW - i,
    {
        if cells[i] == PLAYABLE_SQUARE {
            proof {
                lemma_mask_set(words@, (i / 2) as int);
            }
            let (w, b) = legal_bit(i);
            words[w] = words[w] | b;
        }
        i = i + 1;
    }
    words
}

/// May `player` play the square of bit `k`, where only the half-board rule is asked?
pub open spec fn in_half(k: int, player: int, first: bool) -> bool {
    !first || (if player == 0 {
        k % 8 < 4
    } else {
        k % 8 >= 4
    })
}

/// The mask narrowed to the half the player is confined to on the opening move.
pub(crate) fn narrow(words: [u64; LEGAL_WORDS], first: bool, player: usize) -> (r: [u64;
    LEGAL_WORDS])
    ensures
        forall|k: int|
            0 <= k < 128 ==> (#[trigger] holds(r@, k) <==> holds(words@, k) && k < SQUARES
                && in_half(k, player as int, first)),
{
    let m0: u64 = if !first {
        ALL_0
    } else if player == 0 {
        LEFT_0
    } else {
        RIGHT_0
    };
    let m1: u64 = if !first {
        ALL_1
    } else if player == 0 {
        LEFT_1
    } else {
        RIGHT_1
    };
    let r: [u64; LEGAL_WORDS] = [words[0] & m0, words[1] & m1];
    proof {
        assert forall|k: int| 0 <= k < 128 implies (#[trigger] holds(r@, k) <==> holds(words@, k)
            && k < SQUARES && in_half(k, player as int, first)) by {
            let b = (k % 64) as u64;
            lemma_halves(b);
            if k < 64 {
                lemma_and_bit(words@[0], m0, b);
                assert(k / 64 == 0);
            } else {
                lemma_and_bit(words@[1], m1, b);
                assert(k / 64 == 1);
            }
        }
    }
    r
}

/// The mask has no bit set.
pub open spec fn blank(words: Seq<u64>) -> bool {
    forall|k: int| 0 <= k < 128 ==> !#[trigger] holds(words, k)
}

/// An empty mask is exactly "no playable square left".
pub(crate) fn is_empty(words: [u64; LEGAL_WORDS]) -> (r: bool)
    ensures
        r <==> blank(words@),
{
    let r: bool = words[0] == 0 && words[1] == 0;
    proof {
        lemma_zero_word(words@[0]);
        lemma_zero_word(words@[1]);
        if r {
            assert forall|k: int| 0 <= k < 128 implies !#[trigger] holds(words@, k) by {
                if k < 64 {
                    assert(!word_bit(words@[0], k % 64));
                } else {
                    assert(!word_bit(words@[1], k % 64));
                }
            }
        }
        if forall|k: int| 0 <= k < 128 ==> !#[trigger] holds(words@, k) {
            assert forall|j: int| 0 <= j < 64 implies !#[trigger] word_bit(words@[0], j) by {
                assert(!holds(words@, j));
            }
            assert forall|j: int| 0 <= j < 64 implies !#[trigger] word_bit(words@[1], j) by {
                assert(!holds(words@, 64 + j));
                assert((64 + j) / 64 == 1 && (64 + j) % 64 == j);
            }
        }
    }
    r
}

/// Is bit `k` of the mask set?
pub(crate) fn test_bit(words: [u64; LEGAL_WORDS], k: usize) -> (r: bool)
    requires
        k < 128,
    ensures
        r == holds(words@, k as int),
{
    (words[k / 64] >> ((k % 64) as u64)) & 1 == 1
}

/// How many bits of the mask are set.
pub(crate) fn count_bits(words: [u64; LEGAL_WORDS]) -> (c: u32)
    ensures
        c == count_below(words@, 128),
        c <= 128,
{
    let mut c: u32 = 0;
    let mut k: usize = 0;
    while k < 128
        invariant
            k <= 128,
            c == count_below(words@, k as nat),
            c <= k,
        decreases 128 - k,
    {
        if test_bit(words, k) {
            c = c + 1;
        }
        k = k + 1;
    }
    c
}

/// Counting bits is monotone.
pub proof fn lemma_count_mono(words: Seq<u64>, a: nat, b: nat)
    requires
        a <= b,
    ensures
        0 <= count_below(words, a) <= count_below(words, b),
    decreases b,
{
    if a < b {
        lemma_count_mono(words, a, (b - 1) as nat);
    } else {
        lemma_sum_nonneg(
            |j: int| unit(holds(words, j)),
            a,
        );
    }
}

/// The bit of the `k`th set bit of a mask, from the low end.
pub(crate) fn select_bit(words: [u64; LEGAL_WORDS], k: u32) -> (b: usize)
    requires
        k < count_below(words@, 128),
    ensures
        b < 128,
        holds(words@, b as int),
        count_below(words@, b as nat) == k,
{
    let mut seen: u32 = 0;
    let mut b: usize = 0;
    while b < 128
        invariant
            b <= 128,
            seen <= k,
            seen == count_below(words@, b as nat),
            k < count_below(words@, 128),
        decreases 128 - b,
    {
        if test_bit(words, b) {
            if seen == k {
                return b;
            }
            seen = seen + 1;
        }
        b = b + 1;
    }
    0
}

/// Words with the same bits are equal.
proof fn lemma_same_bits(a: u64, b: u64)
    requires
        forall|j: int| 0 <= j < 64 ==> #[trigger] word_bit(a, j) == word_bit(b, j),
    ensures
        a == b,
{
    let x = a ^ b;
    assert forall|j: int| 0 <= j < 64 implies !#[trigger] word_bit(x, j) by {
        let n = j as u64;
        assert(word_bit(a, j) == word_bit(b, j));
        assert((((a ^ b) >> n) & 1 == 1) <==> (((a >> n) & 1 == 1) != ((b >> n) & 1 == 1)))
            by (bit_vector)
            requires
                n < 64,
        ;
    }
    lemma_zero_word(x);
    assert((a ^ b) == 0 ==> a == b) by (bit_vector);
}

/// Masks with the same bits are equal.
pub proof fn lemma_same_mask(a: Seq<u64>, b: Seq<u64>)
    requires
        a.len() == LEGAL_WORDS,
        b.len() == LEGAL_WORDS,
        forall|k: int| 0 <= k < 128 ==> #[trigger] holds(a, k) == holds(b, k),
    ensures
        a == b,
{
    assert forall|j: int| 0 <= j < 64 implies #[trigger] word_bit(a[0], j) == word_bit(b[0], j) by {
        assert(holds(a, j) == holds(b, j));
    }
    lemma_same_bits(a[0], b[0]);
    assert forall|j: int| 0 <= j < 64 implies #[trigger] word_bit(a[1], j) == word_bit(b[1], j) by {
        assert(holds(a, 64 + j) == holds(b, 64 + j));
        assert((64 + j) / 64 == 1 && (64 + j) % 64 == j);
    }
    lemma_same_bits(a[1], b[1]);
    assert(a =~= b);
}

/// A board has one mask.
pub proof fn lemma_scan_unique(cells: Seq<i8>, a: Seq<u64>, b: Seq<u64>)
    requires
        scanned(cells, a),
        scanned(cells, b),
    ensures
        a == b,
{
    lemma_same_mask(a, b);
}

/// Every board has a mask.
pub proof fn lemma_scan_exists(cells: Seq<i8>)
    ensures
        exists|w: Seq<u64>| #[trigger] scanned(cells, w),
{
    let w = lemma_scan_upto(cells, SQUARES as nat);
    assert(scanned(cells, w));
}

proof fn lemma_scan_upto(cells: Seq<i8>, n: nat) -> (w: Seq<u64>)
    requires
        n <= SQUARES,
    ensures
        w.len() == LEGAL_WORDS,
        forall|k: int|
            0 <= k < 128 ==> (#[trigger] holds(w, k) <==> k < n && (cells[2 * k] == PLAYABLE_SQUARE
                || cells[2 * k + 1] == PLAYABLE_SQUARE)),
    decreases n,
{
    if n == 0 {
        let w = seq![0u64, 0u64];
        lemma_zero_word(0);
        assert forall|k: int| 0 <= k < 128 implies !#[trigger] holds(w, k) by {
            assert(!word_bit(0, k % 64));
        }
        w
    } else {
        let m = n - 1;
        let v = lemma_scan_upto(cells, m as nat);
        if cells[2 * m] == PLAYABLE_SQUARE || cells[2 * m + 1] == PLAYABLE_SQUARE {
            lemma_mask_set(v, m);
            v.update(m / 64, v[m / 64] | (1u64 << ((m % 64) as u64)))
        } else {
            v
        }
    }
}

} // verus!
