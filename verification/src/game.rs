//! The alpha-lines game: one board, scored incrementally.
//!
//! Every cell carries a *level*: the number of steps to the nearest border cell, walking
//! only over that player's own marks. A border mark is level 0, any other mark is
//! `1 + min(own-player diagonal neighbours)`, and [`INF`] means no route to the border.
//!
//! A run only scores if it can reach the border, and reachability is exactly
//! `level != INF`. So the score moves only when a cell crosses between INF and finite;
//! level changes that stay finite are bookkeeping. Levels rather than a reachable bit
//! because a bit cannot survive a deletion in the middle of a line anchored at both ends.
//!
//! [`Game`] is the public surface.
use vstd::prelude::*;

use crate::balance::{
    halved, lemma_level_below_marks, lemma_move_halved, lemma_opening_halved, opening,
};
use crate::board::{col, even_square, is_player, mark, nb};
use crate::legal::{
    blank, cell_of, count_below, count_bits, holds, in_half, is_empty, lemma_bit_of, lemma_cell_of,
    lemma_same_mask, narrow, scan_legal, scanned, select_bit, test_bit,
};
use crate::levels::{lemma_levels_unique, levels_exact};
use crate::moves::{in_blast, moved, play, writes_bit};
use crate::rng::bounded_draw;
use crate::score::{lemma_score_bound, score_board, score_of};
use crate::sums::{lemma_sum_nonneg, sum_to, unit};
use crate::tally::move_stats;

pub use crate::board::{
    HEIGHT, HW, INF, NON_PLAYABLE_SQUARE, PLAYABLE_SQUARE, PLAYER_0_MARK, PLAYER_1_MARK,
    REMOVED_SQUARE, ROW, SQUARES, WIDTH,
};
pub use crate::legal::{legal_cell, LEGAL_WORDS};
pub use crate::repair::rebuild_levels;
pub use crate::rng::Rng;
pub use crate::scratch::Scratch;

verus! {

/// The bound on the levels of a game in play: a player holds at most a quarter of the board's
/// cells in marks, and a shortest path visits each once. A bound, not a mechanism: nothing in
/// play comes to it.
pub const MAX_LEVEL: u8 = 40;

/// No level of a game in play comes to [`MAX_LEVEL`].
pub proof fn lemma_level_in_play(g: Game, p: i8, x: int)
    requires
        g.wf(),
        halved(g.cells@),
        is_player(p),
        mark(g.cells@, p, x),
    ensures
        g.levels@[x] < MAX_LEVEL || g.levels@[x] == INF,
{
    if g.levels@[x] != INF {
        lemma_level_below_marks(g.cells@, g.levels@, p, x);
    }
}

/// Only even squares are playable.
pub open spec fn playable_even(cells: Seq<i8>) -> bool {
    forall|i: int|
        0 <= i < HW && #[trigger] cells[i] == PLAYABLE_SQUARE ==> even_square(i)
}

/// The mask has one bit for each playable square, and no other.
pub open spec fn mask_exact(cells: Seq<i8>, words: Seq<u64>) -> bool {
    &&& words.len() == LEGAL_WORDS
    &&& forall|k: int|
        0 <= k < 128 ==> (#[trigger] holds(words, k) <==> k < SQUARES && cells[cell_of(k)]
            == PLAYABLE_SQUARE)
}

/// Some square of the board is still playable.
pub open spec fn any_playable(cells: Seq<i8>) -> bool {
    exists|i: int| 0 <= i < HW && #[trigger] cells[i] == PLAYABLE_SQUARE
}

/// Has anything been played on the board?
pub open spec fn any_played(cells: Seq<i8>) -> bool {
    exists|i: int|
        0 <= i < HW && #[trigger] cells[i] != PLAYABLE_SQUARE && cells[i] != NON_PLAYABLE_SQUARE
}

/// May `player` play square `i` of the board? It must be playable, and if it is the opening
/// move it must lie in the player's half: columns 0 to 7 for player 0, the others for
/// player 1.
pub open spec fn may_play_on(cells: Seq<i8>, first: bool, i: int, player: int) -> bool {
    &&& 0 <= i < HW
    &&& cells[i] == PLAYABLE_SQUARE
    &&& !first || (if player == 0 {
        col(i) < 8
    } else {
        col(i) >= 8
    })
}

/// The number of squares `player` may play, among those of the first `k` bits.
pub open spec fn moves_below(cells: Seq<i8>, first: bool, player: int, k: nat) -> int {
    sum_to(|j: int| unit(may_play_on(cells, first, cell_of(j), player)), k)
}

/// The number of squares `player` may play.
pub open spec fn moves_open_on(cells: Seq<i8>, first: bool, player: int) -> int {
    moves_below(cells, first, player, SQUARES as nat)
}

/// The `n`th square, in board order, that `player` may play.
pub open spec fn nth_move_on(cells: Seq<i8>, first: bool, player: int, n: int) -> int {
    cell_of(
        choose|b: int|
            0 <= b < SQUARES && may_play_on(cells, first, #[trigger] cell_of(b), player)
                && moves_below(cells, first, player, b as nat) == n,
    )
}

/// One game: fixed-size arrays, no indirection, no allocation. Clone it into a tree node, play
/// it forward, throw it away.
///
/// It carries the scorer's derived state, `levels` and the running `scores`, which is why a
/// clone is a memcpy while [`Self::from_cells`] has to pay for a search from the border and a
/// full rescore. The [`Scratch`] is not part of it; pass one in.
#[derive(PartialEq, Eq, Debug)]
pub struct Game {
    /// The board, row-major, in the encoding of the square constants.
    pub cells: [i8; HW],
    /// Steps to the border through own marks, parallel to `cells`. See the module docs.
    pub levels: [u8; HW],
    /// Running score, integer because every score is a sum of run lengths.
    pub scores: [i32; 2],
    /// Only ever compared against zero, for the opening-move half-board rule.
    pub move_count: u32,
    pub finished: bool,
    /// The playable squares, one bit each.
    pub legal: [u64; LEGAL_WORDS],
}

impl Clone for Game {
    fn clone(&self) -> (g: Self)
        ensures
            g == *self,
    {
        Game {
            cells: self.cells,
            levels: self.levels,
            scores: self.scores,
            move_count: self.move_count,
            finished: self.finished,
            legal: self.legal,
        }
    }
}

impl Default for Game {
    fn default() -> (g: Self)
        ensures
            g.wf(),
            g.cells@ == opening(),
            g.move_count == 0,
    {
        Self::new()
    }
}

impl Game {
    /// The derived state agrees with the board.
    pub open spec fn wf(&self) -> bool {
        &&& levels_exact(self.cells@, self.levels@)
        &&& self.scores@[0] == score_of(self.cells@, PLAYER_0_MARK)
        &&& self.scores@[1] == score_of(self.cells@, PLAYER_1_MARK)
        &&& playable_even(self.cells@)
        &&& mask_exact(self.cells@, self.legal@)
        &&& self.finished <==> !any_playable(self.cells@)
    }

    /// May `player` play square `i`? It must be playable, and on the opening move it must lie
    /// in the player's half.
    pub open spec fn may_play(&self, i: int, player: int) -> bool {
        may_play_on(self.cells@, self.move_count == 0, i, player)
    }

    /// Is `w` the player's mask: the squares open, in the half the player is confined to on
    /// the opening move?
    pub open spec fn is_mask(&self, w: Seq<u64>, player: int) -> bool {
        forall|k: int|
            0 <= k < 128 ==> (#[trigger] holds(w, k) <==> holds(self.legal@, k) && k < SQUARES
                && in_half(k, player, self.move_count == 0))
    }

    /// The opening position: 80 playable squares, nothing played.
    pub fn new() -> (g: Self)
        ensures
            g.wf(),
            g.cells@ == opening(),
            g.move_count == 0,
            !g.finished,
            halved(g.cells@),
            g.scores@ == seq![0i32, 0i32],
    {
        let mut cells: [i8; HW] = [NON_PLAYABLE_SQUARE; HW];
        let mut i: usize = 0;
        while i < HW
            invariant
                i <= HW,
                forall|j: int|
                    0 <= j < HW ==> #[trigger] cells@[j] == (if j < i && even_square(j) {
                        PLAYABLE_SQUARE
                    } else {
                        NON_PLAYABLE_SQUARE
                    }),
            decreases HW - i,
        {
            let r: usize = i / WIDTH;
            let c: usize = i % WIDTH;
            if (r + c) % 2 == 0 {
                cells[i] = PLAYABLE_SQUARE;
            }
            i = i + 1;
        }
        assert(cells@ =~= opening());
        let legal: [u64; LEGAL_WORDS] = scan_legal(&cells);
        let levels: [u8; HW] = [INF; HW];
        let g = Game { cells, levels, scores: [0, 0], move_count: 0, finished: false, legal };
        proof {
            lemma_opening_halved();
            lemma_scanned(g.cells@, g.legal@);
            lemma_no_marks(g.cells@, PLAYER_0_MARK);
            lemma_no_marks(g.cells@, PLAYER_1_MARK);
            assert(levels_exact(g.cells@, g.levels@));
            assert(g.cells@[0] == PLAYABLE_SQUARE);
            assert(g.scores@ =~= seq![0i32, 0i32]);
        }
        g
    }

    /// Adopt an arbitrary board: levels from the search from the border, scores from a full
    /// rescan, legality from a scan for playable squares.
    ///
    /// `move_count` comes back as 0 or 1, not the real count: the board records whether a move
    /// was made, not how many, and the half-board rule only asks which.
    pub fn from_cells(cells: [i8; HW], s: &mut Scratch) -> (g: Self)
        requires
            old(s).wf(),
        ensures
            final(s).wf(),
            final(s).same_account(old(s)),
            g.cells == cells,
            levels_exact(g.cells@, g.levels@),
            g.scores@[0] == score_of(g.cells@, PLAYER_0_MARK),
            g.scores@[1] == score_of(g.cells@, PLAYER_1_MARK),
            g.move_count == (if any_played(cells@) {
                1u32
            } else {
                0
            }),
            g.finished <==> !any_playable(cells@),
            scanned(g.cells@, g.legal@),
            g.wf() <==> playable_even(cells@),
    {
        let legal: [u64; LEGAL_WORDS] = scan_legal(&cells);
        let mut played: bool = false;
        let mut i: usize = 0;
        while i < HW
            invariant
                i <= HW,
                played <==> exists|j: int|
                    0 <= j < i && #[trigger] cells@[j] != PLAYABLE_SQUARE && cells@[j]
                        != NON_PLAYABLE_SQUARE,
            decreases HW - i,
        {
            if cells[i] != PLAYABLE_SQUARE && cells[i] != NON_PLAYABLE_SQUARE {
                played = true;
            }
            i = i + 1;
        }
        let move_count: u32 = if played {
            1
        } else {
            0
        };
        let finished: bool = is_empty(legal);
        proof {
            lemma_scan_empty(cells@, legal@);
            if playable_even(cells@) {
                lemma_scanned(cells@, legal@);
            }
        }
        let mut levels: [u8; HW] = [INF; HW];
        rebuild_levels(&cells, &mut levels, s);
        proof {
            assert forall|x: int| #[trigger]
                mark(cells@, PLAYER_0_MARK, x) implies crate::levels::is_level(
                cells@,
                x,
                levels@[x],
            ) by {}
            assert forall|x: int| #[trigger]
                mark(cells@, PLAYER_1_MARK, x) implies crate::levels::is_level(
                cells@,
                x,
                levels@[x],
            ) by {}
        }
        let score_0: i32 = score_board(&cells, &levels, PLAYER_0_MARK);
        let score_1: i32 = score_board(&cells, &levels, PLAYER_1_MARK);
        Game { cells, levels, scores: [score_0, score_1], move_count, finished, legal }
    }

    /// Adopt an arbitrary board given as its 80 playable squares, in bit order.
    pub fn from_squares(squares: [i8; SQUARES], s: &mut Scratch) -> (g: Self)
        requires
            old(s).wf(),
        ensures
            final(s).wf(),
            final(s).same_account(old(s)),
            g.cells@ == spread_out(squares@),
            squares_of(g.cells@) == squares@,
            g.wf(),
            g.move_count == (if any_played(g.cells@) {
                1u32
            } else {
                0
            }),
    {
        let mut cells: [i8; HW] = [NON_PLAYABLE_SQUARE; HW];
        let mut k: usize = 0;
        while k < SQUARES
            invariant
                k <= SQUARES,
                forall|i: int|
                    0 <= i < HW ==> #[trigger] cells@[i] == (if even_square(i) && i / 2 < k {
                        squares@[i / 2]
                    } else {
                        NON_PLAYABLE_SQUARE
                    }),
            decreases SQUARES - k,
        {
            proof {
                lemma_cell_of(k as int);
            }
            let c: usize = legal_cell(k);
            cells[c] = squares[k];
            proof {
                assert forall|i: int| 0 <= i < HW implies #[trigger] cells@[i] == (if even_square(i)
                    && i / 2 < k + 1 {
                    squares@[i / 2]
                } else {
                    NON_PLAYABLE_SQUARE
                }) by {
                    lemma_bit_of(i);
                }
            }
            k = k + 1;
        }
        proof {
            assert(cells@ =~= spread_out(squares@));
            assert forall|k: int| 0 <= k < SQUARES implies squares_of(cells@)[k] == squares@[k] by {
                lemma_cell_of(k);
            }
            assert(squares_of(cells@) =~= squares@);
        }
        Self::from_cells(cells, s)
    }

    /// The squares `player` may play, as a mask: 80 bits, decoded by [`legal_cell`]. On the
    /// opening move this is narrowed to the player's half; after it, both players see the
    /// same two words, so `legal_moves(0) | legal_moves(1)` is the playable set.
    pub fn legal_moves(&self, player: usize) -> (w: [u64; LEGAL_WORDS])
        ensures
            self.is_mask(w@, player as int),
            self.wf() ==> forall|k: int|
                0 <= k < 128 ==> (#[trigger] holds(w@, k) <==> k < SQUARES && self.may_play(
                    cell_of(k),
                    player as int,
                )),
    {
        let w: [u64; LEGAL_WORDS] = narrow(self.legal, self.move_count == 0, player);
        proof {
            if self.wf() {
                assert forall|k: int| 0 <= k < 128 implies (#[trigger] holds(w@, k) <==> k < SQUARES
                    && self.may_play(cell_of(k), player as int)) by {
                    if k < SQUARES {
                        lemma_cell_of(k);
                    }
                    assert(holds(self.legal@, k) <==> k < SQUARES && self.cells@[cell_of(k)]
                        == PLAYABLE_SQUARE);
                }
            }
        }
        w
    }

    /// The number of squares `player` may play.
    pub open spec fn moves_open(&self, player: int) -> int {
        moves_open_on(self.cells@, self.move_count == 0, player)
    }

    /// How many moves `player` has: a count of bits, not a board scan.
    pub fn legal_count(&self, player: usize) -> (n: u32)
        requires
            self.wf(),
        ensures
            n == self.moves_open(player as int),
    {
        let w: [u64; LEGAL_WORDS] = self.legal_moves(player);
        proof {
            lemma_moves_open(self.cells@, self.move_count == 0, player as int, w@);
        }
        count_bits(w)
    }

    /// The board index of the `k`th set bit of a mask, from the low end.
    pub fn select(w: [u64; LEGAL_WORDS], k: u32) -> (i: usize)
        requires
            k < count_below(w@, 128),
        ensures
            exists|b: int|
                0 <= b < 128 && i == cell_of(b) && #[trigger] holds(w@, b) && count_below(
                    w@,
                    b as nat,
                ) == k,
    {
        let b: usize = select_bit(w, k);
        assert(holds(w@, b as int));
        legal_cell(b)
    }

    /// A uniform draw over a mask.
    pub fn uniform(w: [u64; LEGAL_WORDS], rng: &mut Rng) -> (i: usize)
        requires
            count_below(w@, 128) > 0,
        ensures
            ({
                let draw = bounded_draw(
                    old(rng).state(),
                    count_below(w@, 128) as u64,
                    u64::MAX as nat,
                );
                &&& final(rng).state() == draw.1
                &&& exists|b: int|
                    0 <= b < 128 && i == cell_of(b) && #[trigger] holds(w@, b) && count_below(
                        w@,
                        b as nat,
                    ) == draw.0
            }),
    {
        let count: u32 = count_bits(w);
        let k: u64 = rng.randint(count as u64);
        Self::select(w, k as u32)
    }

    /// Does `player`'s mask hold the bit for `i`?
    pub fn holds_bit(&self, i: usize, player: usize) -> (r: bool)
        requires
            self.wf(),
        ensures
            r == self.may_play(i as int, player as int),
    {
        if i >= HW {
            return false;
        }
        proof {
            lemma_bit_of(i as int);
        }
        if legal_cell(i / 2) != i {
            return false;  // not an even square, so it holds no bit of its own
        }
        let w: [u64; LEGAL_WORDS] = self.legal_moves(player);
        test_bit(w, i / 2)
    }

    /// Play the moves `i0` and `i1`, as board indices. Equal indices are a collision, which
    /// clears that square and its four diagonal neighbours.
    pub fn action_step(&mut self, i0: usize, i1: usize, s: &mut Scratch)
        requires
            old(self).wf(),
            old(self).may_play(i0 as int, 0),
            old(self).may_play(i1 as int, 1),
            old(self).move_count < u32::MAX,
            old(s).wf(),
        ensures
            final(self).wf(),
            final(self).cells@ == moved(old(self).cells@, i0 as int, i1 as int),
            final(self).move_count == old(self).move_count + 1,
            halved(old(self).cells@) ==> halved(final(self).cells@),
            final(s).wf(),
            final(s).same_settings(old(s)),
            final(s).counters() == move_stats(
                old(s).counters(),
                old(self).cells@,
                i0 as int,
                i1 as int,
                old(s).rebuilds(),
            ),
    {
        let ghost a = self.cells@;
        let ghost words = self.legal@;
        proof {
            lemma_score_bound(a, PLAYER_0_MARK);
            lemma_score_bound(a, PLAYER_1_MARK);
        }
        play(
            &mut self.cells,
            &mut self.levels,
            &mut self.scores,
            &mut self.legal,
            i0,
            i1,
            s,
        );
        self.move_count = self.move_count + 1;
        self.finished = is_empty(self.legal);
        proof {
            lemma_moved_mask(a, words, self.legal@, i0 as int, i1 as int);
            lemma_mask_empty(self.cells@, self.legal@);
            if halved(a) {
                lemma_move_halved(a, i0 as int, i1 as int);
            }
        }
    }

    /// Play one move drawn uniformly over each player's legal squares, player 0's first.
    pub fn uniform_step(&mut self, rng: &mut Rng, s: &mut Scratch)
        requires
            old(self).wf(),
            old(self).moves_open(0) > 0,
            old(self).moves_open(1) > 0,
            old(self).move_count < u32::MAX,
            old(s).wf(),
        ensures
            ({
                let first = bounded_draw(
                    old(rng).state(),
                    old(self).moves_open(0) as u64,
                    u64::MAX as nat,
                );
                let second = bounded_draw(
                    first.1,
                    old(self).moves_open(1) as u64,
                    u64::MAX as nat,
                );
                &&& final(rng).state() == second.1
                &&& old(self).may_play(old(self).nth_move(0, first.0), 0)
                &&& old(self).may_play(old(self).nth_move(1, second.0), 1)
                &&& final(self).cells@ == moved(
                    old(self).cells@,
                    old(self).nth_move(0, first.0),
                    old(self).nth_move(1, second.0),
                )
                &&& final(s).counters() == move_stats(
                    old(s).counters(),
                    old(self).cells@,
                    old(self).nth_move(0, first.0),
                    old(self).nth_move(1, second.0),
                    old(s).rebuilds(),
                )
            }),
            final(self).wf(),
            final(self).move_count == old(self).move_count + 1,
            halved(old(self).cells@) ==> halved(final(self).cells@),
            final(s).wf(),
            final(s).same_settings(old(s)),
    {
        let w0: [u64; LEGAL_WORDS] = self.legal_moves(0);
        let w1: [u64; LEGAL_WORDS] = self.legal_moves(1);
        proof {
            lemma_moves_open(self.cells@, self.move_count == 0, 0, w0@);
            lemma_moves_open(self.cells@, self.move_count == 0, 1, w1@);
        }
        let ghost before = rng.state();
        let i0: usize = Self::uniform(w0, rng);
        let ghost middle = rng.state();
        let i1: usize = Self::uniform(w1, rng);
        proof {
            let d0 = bounded_draw(before, self.moves_open(0) as u64, u64::MAX as nat);
            let d1 = bounded_draw(middle, self.moves_open(1) as u64, u64::MAX as nat);
            lemma_nth_move(self.cells@, self.move_count == 0, 0, w0@, d0.0, i0 as int);
            lemma_nth_move(self.cells@, self.move_count == 0, 1, w1@, d1.0, i1 as int);
        }
        self.action_step(i0, i1, s);
    }

    /// The `n`th square, in board order, that `player` may play.
    pub open spec fn nth_move(&self, player: int, n: int) -> int {
        nth_move_on(self.cells@, self.move_count == 0, player, n)
    }

    /// Win, draw or loss per player, as 1, 0 or -1: who has the higher score. Only meaningful
    /// once the game is finished.
    pub fn terminal_values(&self) -> (v: [i8; 2])
        ensures
            v@ == outcome(self.scores@),
    {
        let v: [i8; 2] = if self.scores[0] > self.scores[1] {
            [1, -1]
        } else if self.scores[0] < self.scores[1] {
            [-1, 1]
        } else {
            [0, 0]
        };
        assert(v@ =~= outcome(self.scores@));
        v
    }

    /// The board as its 80 playable squares, in bit order.
    pub fn squares(&self) -> (b: [i8; SQUARES])
        ensures
            b@ == squares_of(self.cells@),
    {
        let mut b: [i8; SQUARES] = [0i8; SQUARES];
        let mut k: usize = 0;
        while k < SQUARES
            invariant
                k <= SQUARES,
                forall|j: int| 0 <= j < k ==> #[trigger] b@[j] == self.cells@[cell_of(j)],
            decreases SQUARES - k,
        {
            proof {
                lemma_cell_of(k as int);
            }
            b[k] = self.cells[legal_cell(k)];
            k = k + 1;
        }
        assert(b@ =~= squares_of(self.cells@));
        b
    }
}

/// Win, draw or loss per player, as 1, 0 or -1.
pub open spec fn outcome(scores: Seq<i32>) -> Seq<i8> {
    if scores[0] > scores[1] {
        seq![1i8, -1i8]
    } else if scores[0] < scores[1] {
        seq![-1i8, 1i8]
    } else {
        seq![0i8, 0i8]
    }
}

/// The 80 playable squares of a board, in bit order.
pub open spec fn squares_of(cells: Seq<i8>) -> Seq<i8> {
    Seq::new(SQUARES as nat, |k: int| cells[cell_of(k)])
}

/// The board with the given playable squares, in bit order, on its even squares.
pub open spec fn spread_out(squares: Seq<i8>) -> Seq<i8> {
    Seq::new(
        HW as nat,
        |i: int|
            if even_square(i) {
                squares[i / 2]
            } else {
                NON_PLAYABLE_SQUARE
            },
    )
}

/// Only even squares hold anything.
pub open spec fn odd_blank(cells: Seq<i8>) -> bool {
    forall|i: int| 0 <= i < HW && !even_square(i) ==> #[trigger] cells[i] == NON_PLAYABLE_SQUARE
}

/// A board on which only even squares hold anything is what its 80 squares spread out to.
pub proof fn lemma_spread_out(cells: Seq<i8>)
    requires
        cells.len() == HW,
        odd_blank(cells),
    ensures
        spread_out(squares_of(cells)) == cells,
{
    assert forall|i: int| 0 <= i < HW implies spread_out(squares_of(cells))[i] == cells[i] by {
        lemma_bit_of(i);
    }
    assert(spread_out(squares_of(cells)) =~= cells);
}

/// A move on even squares leaves the others blank.
pub proof fn lemma_move_odd_blank(cells: Seq<i8>, i0: int, i1: int)
    requires
        cells.len() == HW,
        odd_blank(cells),
        0 <= i0 < HW,
        0 <= i1 < HW,
        even_square(i0),
        even_square(i1),
    ensures
        odd_blank(moved(cells, i0, i1)),
{
    broadcast use crate::board::lemma_nb;

    assert forall|i: int| 0 <= i < HW && !even_square(i) implies #[trigger] moved(
        cells,
        i0,
        i1,
    )[i] == NON_PLAYABLE_SQUARE by {
        if i0 == i1 && in_blast(i0, 4, i) {
            let d = choose|d: int| 0 <= d < 4 && i == #[trigger] nb(i0, d);
            assert(even_square(nb(i0, d)));
        }
    }
}

/// On a board whose playable squares are even, scanning gives the exact mask.
pub proof fn lemma_scanned(cells: Seq<i8>, words: Seq<u64>)
    requires
        scanned(cells, words),
        playable_even(cells),
    ensures
        mask_exact(cells, words),
{
    assert forall|k: int| 0 <= k < 128 implies (#[trigger] holds(words, k) <==> k < SQUARES
        && cells[cell_of(k)] == PLAYABLE_SQUARE) by {
        if k < SQUARES {
            lemma_cell_of(k);
            lemma_bit_of(2 * k);
            lemma_bit_of(2 * k + 1);
            assert((2 * k) / 2 == k && (2 * k + 1) / 2 == k);
            assert(cells[2 * k] == PLAYABLE_SQUARE ==> even_square(2 * k));
            assert(cells[2 * k + 1] == PLAYABLE_SQUARE ==> even_square(2 * k + 1));
        }
    }
}

/// A scanned mask is empty exactly if nothing is playable; and where it is exact, only even
/// squares are playable.
pub proof fn lemma_scan_empty(cells: Seq<i8>, words: Seq<u64>)
    requires
        scanned(cells, words),
    ensures
        blank(words) <==> !any_playable(cells),
{
    if any_playable(cells) {
        let i = choose|i: int| 0 <= i < HW && #[trigger] cells[i] == PLAYABLE_SQUARE;
        let k = i / 2;
        assert(i == 2 * k || i == 2 * k + 1);
        assert(holds(words, k));
    }
    if exists|k: int| 0 <= k < 128 && #[trigger] holds(words, k) {
        let k = choose|k: int| 0 <= k < 128 && #[trigger] holds(words, k);
        if cells[2 * k] == PLAYABLE_SQUARE {
        } else {
            assert(cells[2 * k + 1] == PLAYABLE_SQUARE);
        }
    }
}

/// An exact mask is empty exactly if nothing is playable.
pub proof fn lemma_mask_empty(cells: Seq<i8>, words: Seq<u64>)
    requires
        mask_exact(cells, words),
        playable_even(cells),
    ensures
        blank(words) <==> !any_playable(cells),
{
    if any_playable(cells) {
        let i = choose|i: int| 0 <= i < HW && #[trigger] cells[i] == PLAYABLE_SQUARE;
        lemma_bit_of(i);
        assert(holds(words, i / 2));
    }
    if exists|k: int| 0 <= k < 128 && #[trigger] holds(words, k) {
        let k = choose|k: int| 0 <= k < 128 && #[trigger] holds(words, k);
        lemma_cell_of(k);
        assert(cells[cell_of(k)] == PLAYABLE_SQUARE);
    }
}

/// A move keeps the mask exact.
pub proof fn lemma_moved_mask(a: Seq<i8>, before: Seq<u64>, after: Seq<u64>, i0: int, i1: int)
    requires
        a.len() == HW,
        0 <= i0 < HW,
        0 <= i1 < HW,
        playable_even(a),
        mask_exact(a, before),
        even_square(i0),
        even_square(i1),
        after.len() == LEGAL_WORDS,
        forall|k: int|
            0 <= k < 128 ==> (#[trigger] holds(after, k) <==> holds(before, k) && !writes_bit(
                i0,
                i1,
                k,
            )),
    ensures
        playable_even(moved(a, i0, i1)),
        mask_exact(moved(a, i0, i1), after),
{
    broadcast use crate::board::lemma_nb;

    let b = moved(a, i0, i1);
    assert forall|i: int| 0 <= i < HW && #[trigger] b[i] == PLAYABLE_SQUARE implies even_square(
        i,
    ) by {
        assert(a[i] == PLAYABLE_SQUARE);
    }
    assert forall|k: int| 0 <= k < 128 implies (#[trigger] holds(after, k) <==> k < SQUARES
        && b[cell_of(k)] == PLAYABLE_SQUARE) by {
        assert(holds(before, k) <==> k < SQUARES && a[cell_of(k)] == PLAYABLE_SQUARE);
        if k < SQUARES {
            lemma_cell_of(k);
            let x = cell_of(k);
            lemma_bit_of(i0);
            lemma_bit_of(i1);
            if i0 == i1 {
                if in_blast(i0, 4, x) && x != i0 {
                    let d = choose|d: int| 0 <= d < 4 && x == #[trigger] nb(i0, d);
                    assert(nb(i0, d) >= 0 && k == nb(i0, d) / 2);
                }
                if writes_bit(i0, i1, k) && k != i0 / 2 {
                    let d = choose|d: int|
                        0 <= d < 4 && (#[trigger] nb(i0, d)) >= 0 && k == nb(i0, d) / 2;
                    lemma_bit_of(nb(i0, d));
                    assert(x == nb(i0, d));
                }
            }
        }
    }
}

/// A board without marks of `p` scores nothing for `p`.
pub proof fn lemma_no_marks(cells: Seq<i8>, p: i8)
    requires
        forall|i: int| !#[trigger] mark(cells, p, i),
    ensures
        score_of(cells, p) == 0,
{
    let f = |i: int| crate::score::run_points(cells, p, i, crate::levels::live(cells, p, i));
    assert forall|i: int| 0 <= i < HW implies #[trigger] f(i) <= 0 by {
        assert(!mark(cells, p, i));
    }
    crate::sums::lemma_sum_upper(f, HW as nat, 0);
    lemma_score_bound(cells, p);
}

/// The bits of a mask of legal moves are the squares that may be played.
pub proof fn lemma_moves_open(cells: Seq<i8>, first: bool, player: int, w: Seq<u64>)
    requires
        forall|k: int|
            0 <= k < 128 ==> (#[trigger] holds(w, k) <==> k < SQUARES && may_play_on(
                cells,
                first,
                cell_of(k),
                player,
            )),
    ensures
        count_below(w, 128) == moves_open_on(cells, first, player),
        forall|b: nat|
            b <= SQUARES ==> #[trigger] count_below(w, b) == moves_below(cells, first, player, b),
{
    let f = |j: int| unit(holds(w, j));
    let h = |j: int| unit(may_play_on(cells, first, cell_of(j), player));
    assert forall|b: nat| b <= SQUARES implies #[trigger] count_below(w, b) == moves_below(
        cells,
        first,
        player,
        b,
    ) by {
        crate::sums::lemma_sum_eq(f, h, b);
        assert(count_below(w, b) == sum_to(f, b));
        assert(moves_below(cells, first, player, b) == sum_to(h, b));
    }
    crate::sums::lemma_sum_tail(f, SQUARES as nat, 128);
    assert(count_below(w, SQUARES as nat) == moves_open_on(cells, first, player));
    assert(count_below(w, SQUARES as nat) == sum_to(f, SQUARES as nat));
    assert(count_below(w, 128) == sum_to(f, 128));
}

/// The square that a bit with `n` legal bits below it stands for is the `n`th legal move.
pub(crate) proof fn lemma_nth_move(cells: Seq<i8>, first: bool, player: int, w: Seq<u64>, n: int, i: int)
    requires
        forall|k: int|
            0 <= k < 128 ==> (#[trigger] holds(w, k) <==> k < SQUARES && may_play_on(
                cells,
                first,
                cell_of(k),
                player,
            )),
        exists|b: int|
            0 <= b < 128 && i == cell_of(b) && #[trigger] holds(w, b) && count_below(w, b as nat)
                == n,
    ensures
        i == nth_move_on(cells, first, player, n),
        may_play_on(cells, first, i, player),
{
    let b = choose|b: int|
        0 <= b < 128 && i == cell_of(b) && #[trigger] holds(w, b) && count_below(w, b as nat) == n;
    lemma_moves_open(cells, first, player, w);
    assert(count_below(w, b as nat) == moves_below(cells, first, player, b as nat));
    assert(may_play_on(cells, first, cell_of(b), player));
    let c = choose|c: int|
        0 <= c < SQUARES && may_play_on(cells, first, #[trigger] cell_of(c), player)
            && moves_below(cells, first, player, c as nat) == n;
    if b < c {
        lemma_strict(cells, first, player, b as nat, c as nat);
    } else if c < b {
        lemma_strict(cells, first, player, c as nat, b as nat);
    }
}

/// The count of legal moves grows across a legal one.
proof fn lemma_strict(cells: Seq<i8>, first: bool, player: int, a: nat, b: nat)
    requires
        a < b,
        may_play_on(cells, first, cell_of(a as int), player),
    ensures
        moves_below(cells, first, player, a) < moves_below(cells, first, player, b),
    decreases b,
{
    let h = |j: int| unit(may_play_on(cells, first, cell_of(j), player));
    assert(moves_below(cells, first, player, b) == moves_below(
        cells,
        first,
        player,
        (b - 1) as nat,
    ) + h(b - 1));
    if b > a + 1 {
        lemma_strict(cells, first, player, a, (b - 1) as nat);
    }
}

/// Where anything is playable, a player has a move after the opening move.
pub proof fn lemma_has_move(cells: Seq<i8>, player: int)
    requires
        playable_even(cells),
        any_playable(cells),
    ensures
        moves_open_on(cells, false, player) > 0,
{
    let i = choose|i: int| 0 <= i < HW && #[trigger] cells[i] == PLAYABLE_SQUARE;
    lemma_bit_of(i);
    lemma_open_one(cells, false, player, i / 2);
}

/// One legal move makes the count of legal moves positive.
pub proof fn lemma_open_one(cells: Seq<i8>, first: bool, player: int, k: int)
    requires
        0 <= k < SQUARES,
        may_play_on(cells, first, cell_of(k), player),
    ensures
        moves_open_on(cells, first, player) > 0,
{
    let h = |j: int| unit(may_play_on(cells, first, cell_of(j), player));
    lemma_sum_nonneg(h, k as nat);
    assert(moves_below(cells, first, player, k as nat) == sum_to(h, k as nat));
    lemma_strict(cells, first, player, k as nat, SQUARES as nat);
}

/// The board is the whole state: everything else a game carries, but for how many moves were
/// made, follows from it. So adopting a board lands where playing there landed.
pub proof fn lemma_board_is_state(a: Game, b: Game)
    requires
        a.wf(),
        b.wf(),
        a.cells@ == b.cells@,
    ensures
        a.levels@ == b.levels@,
        a.scores@ == b.scores@,
        a.finished == b.finished,
        a.legal@ == b.legal@,
        a.move_count == b.move_count ==> a == b,
{
    lemma_levels_unique(a.cells@, a.levels@, b.levels@);
    assert(a.scores@ =~= b.scores@);
    assert forall|k: int| 0 <= k < 128 implies #[trigger] holds(a.legal@, k) == holds(
        b.legal@,
        k,
    ) by {
        assert(holds(a.legal@, k) <==> k < SQUARES && a.cells@[cell_of(k)] == PLAYABLE_SQUARE);
    }
    lemma_same_mask(a.legal@, b.legal@);
    assert(a.cells =~= b.cells);
    assert(a.levels =~= b.levels);
    assert(a.scores =~= b.scores);
    assert(a.legal =~= b.legal);
}

} // verus!
