//! A batch of games scored incrementally.
//!
//! Per cell, alongside the board value, a **level** is stored: the number of steps to the
//! nearest border cell, walking only over that player's own marks. The provider relation is
//! derived, not stored: neighbour `n` is a valid provider for `x` exactly when
//! `level[n] < level[x]`. Strict inequality makes cycles impossible by construction: every
//! mark is held up by something strictly closer to the border, and the chain has to bottom
//! out at the border.
//!
//! [`check_invariants`] checks the levels and the running score of a board directly.
use vstd::prelude::*;

use vstd::string::*;

use crate::balance::opening;
use crate::board::{border, col, even_square, is_player, mark, nb, row};
use crate::game::{any_playable, mask_exact, playable_even, Game};
use crate::legal::{
    blank, cell_of, count_below, count_bits, holds, in_half, is_empty, legal_cell, lemma_bit_of,
    lemma_cell_of, lemma_same_mask, lemma_scan_exists, lemma_scan_unique, narrow, scan_legal,
    scanned, test_bit,
};
use crate::levels::{
    exact_for, is_level, lemma_below_cap, lemma_levels_unique, lemma_local_exact, levels_exact,
    relaxed, rests, supported,
};
use crate::moves::{has_room, moved, play, scores_moved, writes_bit};
use crate::order::{game_applied, step_applied, BatchStep, GameMove};
use crate::repair::{best_neighbour, computed_level, derived_level, lemma_best_neighbour};
use crate::score::{lemma_score_bound, score_board, score_of};
use crate::sums::{lemma_sum_eq, sum_to, unit};
use crate::tally::move_stats;
use crate::text::{comma_list, decimal, hex, push_decimal, push_hex, push_list, push_signed, signed};
use crate::window::{block, lemma_block_range, lemma_with_block, window, window_ref};

pub use crate::board::{
    HEIGHT, HW, INF, MAX_LEVEL, NON_PLAYABLE_SQUARE, PLAYABLE_SQUARE, PLAYER_0_MARK,
    PLAYER_1_MARK, REMOVED_SQUARE, SQUARES, WIDTH,
};
pub use crate::legal::LEGAL_WORDS;
pub use crate::moves::{insert, remove};
pub use crate::repair::rebuild_levels;
pub use crate::rng::Rng;
pub use crate::scratch::{Scratch, Stats};

verus! {

/// The flat index of row `rc.0` and column `rc.1`.
pub open spec fn flat(rc: (usize, usize)) -> int {
    rc.0 * 16 + rc.1
}

/// Apply one move for one game, given as rows and columns.
///
/// A collision (both players choosing the same square) clears that square and its four
/// diagonal neighbours. Those five are handled as independent single-cell removals. Each
/// victim is handled under whichever player happens to own it.
pub fn apply_move(
    cells: &mut [i8],
    level: &mut [u8],
    score: &mut [i32],
    legal: &mut [u64],
    at0: (usize, usize),
    at1: (usize, usize),
    s: &mut Scratch,
)
    requires
        flat(at0) < HW,
        flat(at1) < HW,
        levels_exact(old(cells)@, old(level)@),
        flat(at0) == flat(at1) ==> at0 == at1,
        old(score)@.len() == 2,
        old(legal)@.len() == LEGAL_WORDS,
        has_room(old(score)@[0] as int, old(cells)@, PLAYER_0_MARK),
        has_room(old(score)@[1] as int, old(cells)@, PLAYER_1_MARK),
        old(s).wf(),
    ensures
        final(cells)@ == moved(old(cells)@, flat(at0), flat(at1)),
        levels_exact(final(cells)@, final(level)@),
        scores_moved(old(score)@, final(score)@, old(cells)@, final(cells)@),
        final(legal)@.len() == LEGAL_WORDS,
        forall|k: int|
            0 <= k < 128 ==> (#[trigger] holds(final(legal)@, k) <==> holds(old(legal)@, k)
                && !writes_bit(flat(at0), flat(at1), k)),
        final(s).wf(),
        final(s).same_settings(old(s)),
        final(s).counters() == move_stats(
            old(s).counters(),
            old(cells)@,
            flat(at0),
            flat(at1),
            old(s).rebuilds(),
        ),
{
    let i0: usize = at0.0 * WIDTH + at0.1;
    let i1: usize = at1.0 * WIDTH + at1.1;
    play(cells, level, score, legal, i0, i1, s);
}

// --------------------------------------------------------------------------- validation

/// The first mark from `i` on whose level is not what its neighbours give it.
pub open spec fn first_inconsistent(cells: Seq<i8>, level: Seq<u8>, i: int) -> Option<int>
    decreases HW - i,
{
    if i >= HW {
        None
    } else if is_player(cells[i]) && level[i] != derived_level(cells, level, cells[i], i) {
        Some(i)
    } else {
        first_inconsistent(cells, level, i + 1)
    }
}

/// What is wrong with a board's levels or running score, in words.
pub open spec fn board_fault(cells: Seq<i8>, level: Seq<u8>, score: Seq<i32>) -> Option<Seq<char>> {
    match first_inconsistent(cells, level, 0) {
        Some(i) => Some(
            "level invariant broken at cell "@ + decimal(i as nat) + " (r"@ + decimal(
                row(i) as nat,
            ) + " c"@ + decimal(col(i) as nat) + "): stored "@ + decimal(level[i] as nat)
                + ", derived "@ + decimal(derived_level(cells, level, cells[i], i) as nat),
        ),
        None => if score[0] != score_of(cells, PLAYER_0_MARK) {
            Some(score_fault(0, score[0] as int, score_of(cells, PLAYER_0_MARK)))
        } else if score[1] != score_of(cells, PLAYER_1_MARK) {
            Some(score_fault(1, score[1] as int, score_of(cells, PLAYER_1_MARK)))
        } else {
            None
        },
    }
}

pub open spec fn score_fault(player: nat, have: int, want: int) -> Seq<char> {
    "score for player "@ + decimal(player) + " is "@ + signed(have) + ", reference scorer says "@
        + signed(want)
}

/// Levels that agree with their neighbours everywhere are the exact distances, not merely
/// consistent among themselves: strictly falling levels have to end at the border.
pub proof fn lemma_consistent_exact(cells: Seq<i8>, level: Seq<u8>, p: i8)
    requires
        is_player(p),
        cells.len() == HW,
        level.len() == HW,
        forall|i: int| #[trigger]
            mark(cells, p, i) ==> level[i] == derived_level(cells, level, p, i),
    ensures
        exact_for(cells, level, p),
{
    broadcast use crate::board::lemma_nb;

    assert forall|x: int| #[trigger] mark(cells, p, x) implies rests(cells, level, p, x)
        && supported(cells, level, p, x) && (border(x) ==> level[x] == 0) && (level[x] == INF
        || level[x] <= MAX_LEVEL) by {
        lemma_best_neighbour(cells, level, p, x, 4);
        let best = best_neighbour(cells, level, p, x, 4);
        if level[x] != INF && !border(x) {
            let d = choose|d: int|
                0 <= d < 4 && mark(cells, p, #[trigger] nb(x, d)) && level[nb(x, d)] == best;
            assert(mark(cells, p, nb(x, d)) && level[nb(x, d)] + 1 == level[x]);
        }
    }
    assert forall|x: int| #[trigger] mark(cells, p, x) implies relaxed(cells, level, p, x) by {
        if level[x] != INF {
            lemma_below_cap(cells, level, p, x);
            assert forall|d: int| 0 <= d < 4 && mark(cells, p, #[trigger] nb(x, d)) implies level[nb(
                x,
                d,
            )] <= level[x] + 1 by {
                let y = nb(x, d);
                crate::board::lemma_nb_back(x, d);
                assert(mark(cells, p, y));
                lemma_best_neighbour(cells, level, p, y, 4);
                assert(mark(cells, p, nb(y, 3 - d)));
            }
        }
    }
    lemma_local_exact(cells, level, p);
}

/// Exact levels agree with their neighbours everywhere.
pub proof fn lemma_exact_consistent(cells: Seq<i8>, level: Seq<u8>, p: i8, x: int)
    requires
        is_player(p),
        cells.len() == HW,
        level.len() == HW,
        exact_for(cells, level, p),
        mark(cells, p, x),
    ensures
        level[x] == derived_level(cells, level, p, x),
{
    broadcast use crate::board::lemma_nb;

    crate::levels::lemma_exact_local(cells, level, p);
    lemma_best_neighbour(cells, level, p, x, 4);
    let best = best_neighbour(cells, level, p, x, 4);
    assert(rests(cells, level, p, x));
    if !border(x) {
        if best != INF {
            let d = choose|d: int|
                0 <= d < 4 && mark(cells, p, #[trigger] nb(x, d)) && level[nb(x, d)] == best;
            let y = nb(x, d);
            crate::board::lemma_nb_back(x, d);
            assert(mark(cells, p, y));
            assert(relaxed(cells, level, p, y));
            assert(mark(cells, p, nb(y, 3 - d)));
            assert(level[x] <= best + 1);
        }
        if level[x] != INF {
            let e = choose|e: int|
                0 <= e < 4 && mark(cells, p, #[trigger] nb(x, e)) && level[nb(x, e)] + 1
                    == level[x];
            assert(best <= level[nb(x, e)]);
        }
    }
}

/// No mark from `i` on is inconsistent.
proof fn lemma_first_inconsistent(cells: Seq<i8>, level: Seq<u8>, i: int)
    requires
        0 <= i <= HW,
    ensures
        first_inconsistent(cells, level, i) is None <==> forall|j: int|
            i <= j < HW && is_player(#[trigger] cells[j]) ==> level[j] == derived_level(
                cells,
                level,
                cells[j],
                j,
            ),
    decreases HW - i,
{
    if i < HW {
        lemma_first_inconsistent(cells, level, i + 1);
    }
}

/// Check the level invariant and the running score for one board.
pub fn check_invariants(cells: &[i8], level: &[u8], score: &[i32]) -> (r: Result<(), String>)
    requires
        cells@.len() == HW,
        level@.len() == HW,
        score@.len() >= 2,
    ensures
        match r {
            Ok(_) => board_fault(cells@, level@, score@) is None,
            Err(e) => board_fault(cells@, level@, score@) == Some(e@),
        },
        r is Ok <==> {
            &&& exact_for(cells@, level@, PLAYER_0_MARK)
            &&& exact_for(cells@, level@, PLAYER_1_MARK)
            &&& score@[0] == score_of(cells@, PLAYER_0_MARK)
            &&& score@[1] == score_of(cells@, PLAYER_1_MARK)
        },
{
    let mut i: usize = 0;
    while i < HW
        invariant
            i <= HW,
            cells@.len() == HW,
            level@.len() == HW,
            first_inconsistent(cells@, level@, 0) == first_inconsistent(cells@, level@, i as int),
        decreases HW - i,
    {
        let p: i8 = cells[i];
        if p == PLAYER_0_MARK || p == PLAYER_1_MARK {
            let want: u8 = computed_level(cells, level, i, p);
            if level[i] != want {
                let mut e = String::new();
                e.append("level invariant broken at cell ");
                push_decimal(&mut e, i as u64);
                e.append(" (r");
                push_decimal(&mut e, (i / WIDTH) as u64);
                e.append(" c");
                push_decimal(&mut e, (i % WIDTH) as u64);
                e.append("): stored ");
                push_decimal(&mut e, level[i] as u64);
                e.append(", derived ");
                push_decimal(&mut e, want as u64);
                proof {
                    assert(mark(cells@, p, i as int));
                    if exact_for(cells@, level@, p) {
                        lemma_exact_consistent(cells@, level@, p, i as int);
                    }
                    assert(Some(e@) == board_fault(cells@, level@, score@));
                }
                return Err(e);
            }
        }
        i = i + 1;
    }
    proof {
        lemma_first_inconsistent(cells@, level@, 0);
        assert forall|j: int| #[trigger] mark(cells@, PLAYER_0_MARK, j) implies level@[j]
            == derived_level(cells@, level@, PLAYER_0_MARK, j) by {
            assert(is_player(cells@[j]));
        }
        assert forall|j: int| #[trigger] mark(cells@, PLAYER_1_MARK, j) implies level@[j]
            == derived_level(cells@, level@, PLAYER_1_MARK, j) by {
            assert(is_player(cells@[j]));
        }
        lemma_consistent_exact(cells@, level@, PLAYER_0_MARK);
        lemma_consistent_exact(cells@, level@, PLAYER_1_MARK);
    }
    let want_0: i32 = score_board(cells, level, PLAYER_0_MARK);
    if score[0] != want_0 {
        return Err(score_message(0, score[0], want_0));
    }
    let want_1: i32 = score_board(cells, level, PLAYER_1_MARK);
    if score[1] != want_1 {
        return Err(score_message(1, score[1], want_1));
    }
    Ok(())
}

fn score_message(player: u64, have: i32, want: i32) -> (e: String)
    ensures
        e@ == score_fault(player as nat, have as int, want as int),
{
    let mut e = String::new();
    e.append("score for player ");
    push_decimal(&mut e, player);
    e.append(" is ");
    push_signed(&mut e, have);
    e.append(", reference scorer says ");
    push_signed(&mut e, want);
    assert(e@ =~= score_fault(player as nat, have as int, want as int));
    e
}

// ------------------------------------------------------------------------- batched game

/// One game of a batch.
pub struct Position {
    pub cells: Seq<i8>,
    pub levels: Seq<u8>,
    pub scores: Seq<i32>,
    /// The playable squares, as a bit mask.
    pub words: Seq<u64>,
    pub move_count: int,
    pub finished: bool,
}

impl Position {
    /// The levels and the running scores are those of the board.
    pub open spec fn scored(self) -> bool {
        &&& levels_exact(self.cells, self.levels)
        &&& self.scores.len() == 2
        &&& self.scores[0] == score_of(self.cells, PLAYER_0_MARK)
        &&& self.scores[1] == score_of(self.cells, PLAYER_1_MARK)
    }

    /// The mask has one bit for each playable square, only even squares are playable, and the
    /// game is finished exactly if none is left.
    pub open spec fn tidy(self) -> bool {
        &&& playable_even(self.cells)
        &&& mask_exact(self.cells, self.words)
        &&& self.finished <==> !any_playable(self.cells)
    }

    /// What [`IncrementalGame::check_invariants`] checks: every mark has its level, the
    /// running scores are those of the board, the mask has the bits of the playable squares,
    /// and the game is finished exactly if there is none.
    pub open spec fn sane(self) -> bool {
        &&& exact_for(self.cells, self.levels, PLAYER_0_MARK)
        &&& exact_for(self.cells, self.levels, PLAYER_1_MARK)
        &&& self.scores[0] == score_of(self.cells, PLAYER_0_MARK)
        &&& self.scores[1] == score_of(self.cells, PLAYER_1_MARK)
        &&& scanned(self.cells, self.words)
        &&& self.finished <==> !any_playable(self.cells)
    }

    /// May `player` play square `i`?
    pub open spec fn may_play(self, i: int, player: int) -> bool {
        &&& self.cells[i] == PLAYABLE_SQUARE
        &&& self.move_count != 0 || (if player == 0 {
            col(i) < 8
        } else {
            col(i) >= 8
        })
    }

    /// The game after the moves `i0` and `i1`.
    pub open spec fn stepped(self, after: Position, i0: int, i1: int) -> bool {
        &&& after.cells == moved(self.cells, i0, i1)
        &&& after.scored()
        &&& after.words.len() == LEGAL_WORDS
        &&& forall|k: int|
            0 <= k < 128 ==> (#[trigger] holds(after.words, k) <==> holds(self.words, k)
                && !writes_bit(i0, i1, k))
        &&& after.move_count == self.move_count + 1
        &&& after.finished == (self.finished || blank(after.words))
    }
}

/// A batch of games scored incrementally.
pub struct IncrementalGame {
    pub n: usize,
    /// (N, H, W) row-major.
    pub boards: Vec<i8>,
    /// (N, H, W) row-major levels, parallel to `boards`.
    pub levels: Vec<u8>,
    /// (N, 2) running score. Integer because every score is a sum of run lengths.
    pub scores: Vec<i32>,
    pub move_counts: Vec<i32>,
    pub finished: Vec<bool>,
    pub half_width: usize,
    pub rng: Rng,
    /// Squares still playable, two words per game. This is what a sampler walks instead of a
    /// mask, what [`Self::get_legal_masks`] expands from, and what makes the finished check
    /// two comparisons instead of a board scan.
    pub legal: Vec<u64>,
    pub scratch: Scratch,
}

impl IncrementalGame {
    /// The games of the batch.
    pub open spec fn positions(&self) -> Seq<Position> {
        Seq::new(self.n as nat, |g: int| self.position(g))
    }

    /// The vectors have the batch's shape.
    pub open spec fn shaped(&self) -> bool {
        &&& self.boards@.len() == self.n * HW
        &&& self.levels@.len() == self.n * HW
        &&& self.scores@.len() == self.n * 2
        &&& self.move_counts@.len() == self.n
        &&& self.finished@.len() == self.n
        &&& self.legal@.len() == self.n * LEGAL_WORDS
        &&& self.half_width == WIDTH / 2
        &&& self.scratch.wf()
    }

    /// The `g`th game.
    pub open spec fn position(&self, g: int) -> Position {
        Position {
            cells: block(self.boards@, g, HW as int),
            levels: block(self.levels@, g, HW as int),
            scores: block(self.scores@, g, 2),
            words: block(self.legal@, g, LEGAL_WORDS as int),
            move_count: self.move_counts@[g] as int,
            finished: self.finished@[g],
        }
    }

    /// Every game's levels and running scores are those of its board.
    pub open spec fn wf(&self) -> bool {
        &&& self.shaped()
        &&& forall|g: int| 0 <= g < self.n ==> (#[trigger] self.position(g)).scored()
    }

    /// Every game's mask and finished flag are those of its board.
    pub open spec fn tidy(&self) -> bool {
        forall|g: int| 0 <= g < self.n ==> (#[trigger] self.position(g)).tidy()
    }

    /// Everything but the games themselves is the same.
    pub open spec fn same_batch(&self, other: &IncrementalGame) -> bool {
        &&& self.n == other.n
        &&& self.half_width == other.half_width
        &&& self.rng == other.rng
        &&& self.scratch.same_settings(&other.scratch)
    }

    /// Derive one game's legality bitboard from its board. Only needed when adopting a
    /// position from outside; during play the bitboard is maintained, never rebuilt.
    fn rebuild_legal(&mut self, g: usize)
        requires
            old(self).shaped(),
            g < old(self).n,
        ensures
            *final(self) == (IncrementalGame { legal: final(self).legal, ..*old(self) }),
            final(self).shaped(),
            scanned(final(self).position(g as int).cells, final(self).position(g as int).words),
            forall|h: int|
                0 <= h < old(self).n && h != g ==> #[trigger] final(self).position(h).words
                    == old(self).position(h).words,
    {
        proof {
            lemma_block_range(g as int, HW as int, self.n as int);
        }
        let words: [u64; LEGAL_WORDS] = scan_legal(window_ref(&self.boards, g, HW));
        let size: usize = self.legal.len();
        assert(g * LEGAL_WORDS + 1 < size);
        self.legal.set(g * LEGAL_WORDS, words[0]);
        self.legal.set(g * LEGAL_WORDS + 1, words[1]);
        proof {
            assert(self.position(g as int).words =~= words@);
            assert forall|h: int| 0 <= h < self.n && h != g implies #[trigger] self.position(
                h,
            ).words == old(self).position(h).words by {
                assert(self.position(h).words =~= old(self).position(h).words);
            }
        }
    }

    /// This game's legality words: a count is a count of ones, a legality check is a bit
    /// test.
    pub fn legal_bits(&self, g: usize) -> (w: [u64; LEGAL_WORDS])
        requires
            self.shaped(),
            g < self.n,
        ensures
            w@ == self.position(g as int).words,
    {
        let size: usize = self.legal.len();
        assert(g * LEGAL_WORDS + 1 < size);
        let w: [u64; LEGAL_WORDS] = [
            self.legal[g * LEGAL_WORDS],
            self.legal[g * LEGAL_WORDS + 1],
        ];
        assert(w@ =~= self.position(g as int).words);
        w
    }

    /// An empty bitboard is exactly "no playable square left".
    fn no_moves_left(&self, g: usize) -> (r: bool)
        requires
            self.shaped(),
            g < self.n,
        ensures
            r <==> blank(self.position(g as int).words),
    {
        is_empty(self.legal_bits(g))
    }

    /// Adopt an arbitrary board state, deriving levels and scores.
    pub fn from_state(
        boards: Vec<i8>,
        move_counts: Vec<i32>,
        finished: Vec<bool>,
        seed: u64,
    ) -> (r: Self)
        requires
            boards@.len() == move_counts@.len() * HW,
            finished@.len() == move_counts@.len(),
        ensures
            r.wf(),
            r.n == move_counts@.len(),
            r.boards == boards,
            r.move_counts == move_counts,
            r.finished == finished,
            r.rng.state() == crate::rng::seeded(seed),
            r.scratch.counters() == Stats::zero(),
            r.scratch.rebuilds(),
            forall|g: int|
                0 <= g < r.n ==> scanned(
                    (#[trigger] r.position(g)).cells,
                    r.position(g).words,
                ),
    {
        let n: usize = move_counts.len();
        let total: usize = boards.len();
        let levels: Vec<u8> = vec![INF; total];
        let scores: Vec<i32> = vec![0; n * 2];
        let legal: Vec<u64> = vec![0; n * LEGAL_WORDS];
        let mut r = IncrementalGame {
            n,
            boards,
            levels,
            scores,
            move_counts,
            finished,
            half_width: WIDTH / 2,
            rng: Rng::new(seed),
            legal,
            scratch: Scratch::new(),
        };
        let ghost r0 = r;
        let mut g: usize = 0;
        while g < n
            invariant
                g <= n,
                n == r.n,
                r.shaped(),
                r == (IncrementalGame { legal: r.legal, ..r0 }),
                forall|h: int|
                    0 <= h < g ==> scanned(
                        (#[trigger] r.position(h)).cells,
                        r.position(h).words,
                    ),
            decreases n - g,
        {
            let ghost before = r;
            r.rebuild_legal(g);
            proof {
                assert forall|h: int| 0 <= h < g + 1 implies scanned(
                    (#[trigger] r.position(h)).cells,
                    r.position(h).words,
                ) by {
                    if h < g {
                        assert(scanned(before.position(h).cells, before.position(h).words));
                    }
                }
            }
            g = g + 1;
        }
        let ghost r1 = r;
        g = 0;
        while g < n
            invariant
                g <= n,
                n == r.n,
                r.shaped(),
                r.boards == r0.boards,
                r.move_counts == r0.move_counts,
                r.finished == r0.finished,
                r.legal == r1.legal,
                r.rng == r0.rng,
                r.scratch.same_account(&r0.scratch),
                forall|h: int| 0 <= h < g ==> (#[trigger] r.position(h)).scored(),
            decreases n - g,
        {
            let ghost before = r;
            r.rescore(g);
            proof {
                assert forall|h: int| 0 <= h < g + 1 implies (#[trigger] r.position(
                    h,
                )).scored() by {
                    if h < g {
                        assert(before.position(h).scored());
                        assert(r.position(h) == before.position(h));
                    }
                }
            }
            g = g + 1;
        }
        proof {
            assert forall|h: int| 0 <= h < r.n implies scanned(
                (#[trigger] r.position(h)).cells,
                r.position(h).words,
            ) by {
                assert(scanned(r1.position(h).cells, r1.position(h).words));
            }
        }
        r
    }

    /// Derive one game's levels and scores from its board.
    fn rescore(&mut self, g: usize)
        requires
            old(self).shaped(),
            g < old(self).n,
        ensures
            final(self).shaped(),
            final(self).same_batch(old(self)),
            final(self).scratch.same_account(&old(self).scratch),
            final(self).rng == old(self).rng,
            final(self).boards == old(self).boards,
            final(self).move_counts == old(self).move_counts,
            final(self).finished == old(self).finished,
            final(self).legal == old(self).legal,
            final(self).position(g as int).scored(),
            forall|h: int|
                0 <= h < old(self).n && h != g ==> #[trigger] final(self).position(h)
                    == old(self).position(h),
    {
        proof {
            lemma_block_range(g as int, HW as int, self.n as int);
        }
        let cells = window_ref(&self.boards, g, HW);
        let level = window(&mut self.levels, g, HW);
        rebuild_levels(cells, level, &mut self.scratch);
        proof {
            lemma_players(cells@, level@);
        }
        let score_0: i32 = score_board(cells, level, PLAYER_0_MARK);
        let score_1: i32 = score_board(cells, level, PLAYER_1_MARK);
        let ghost fresh = level@;
        let size: usize = self.scores.len();
        assert(g * 2 + 1 < size);
        self.scores.set(g * 2, score_0);
        self.scores.set(g * 2 + 1, score_1);
        proof {
            lemma_with_block(old(self).levels@, self.n as int, g as int, HW as int, fresh);
            assert(self.position(g as int).levels == fresh);
            assert forall|h: int| 0 <= h < self.n && h != g implies #[trigger] self.position(h)
                == old(self).position(h) by {
                assert(block(self.levels@, h, HW as int) == block(
                    old(self).levels@,
                    h,
                    HW as int,
                ));
                assert(self.position(h).scores =~= old(self).position(h).scores);
            }
        }
    }

    /// A batch of games in the opening position.
    pub fn new(num_games: usize, seed: u64) -> (r: Self)
        requires
            num_games * HW <= usize::MAX,
        ensures
            r.wf(),
            r.tidy(),
            r.n == num_games,
            r.rng.state() == crate::rng::seeded(seed),
            r.scratch.counters() == Stats::zero(),
            r.scratch.rebuilds(),
            forall|g: int|
                0 <= g < r.n ==> {
                    &&& (#[trigger] r.position(g)).cells == opening()
                    &&& r.position(g).move_count == 0
                    &&& !r.position(g).finished
                },
    {
        let mut boards: Vec<i8> = vec![NON_PLAYABLE_SQUARE; num_games * HW];
        let mut i: usize = 0;
        while i < boards.len()
            invariant
                i <= boards@.len(),
                boards@.len() == num_games * HW,
                forall|j: int|
                    0 <= j < boards@.len() ==> #[trigger] boards@[j] == (if j < i && even_square(
                        j % 160,
                    ) {
                        PLAYABLE_SQUARE
                    } else {
                        NON_PLAYABLE_SQUARE
                    }),
            decreases boards@.len() - i,
        {
            let j: usize = i % HW;
            if (j / WIDTH + j % WIDTH) % 2 == 0 {
                boards.set(i, PLAYABLE_SQUARE);
            }
            i = i + 1;
        }
        let move_counts: Vec<i32> = vec![0; num_games];
        let finished: Vec<bool> = vec![false; num_games];
        let r = Self::from_state(boards, move_counts, finished, seed);
        proof {
            assert forall|g: int| 0 <= g < r.n implies {
                &&& (#[trigger] r.position(g)).cells == opening()
                &&& r.position(g).move_count == 0
                &&& !r.position(g).finished
                &&& r.position(g).tidy()
            } by {
                lemma_opening_block(r.boards@, r.n as int, g);
                lemma_opening_tidy(r.position(g));
            }
        }
        r
    }

    /// Apply the moves `i0` and `i1` to game `g`.
    fn apply_at(&mut self, g: usize, i0: usize, i1: usize)
        requires
            old(self).wf(),
            g < old(self).n,
            i0 < HW,
            i1 < HW,
            old(self).position(g as int).move_count < i32::MAX,
        ensures
            final(self).wf(),
            final(self).same_batch(old(self)),
            old(self).position(g as int).stepped(
                final(self).position(g as int),
                i0 as int,
                i1 as int,
            ),
            final(self).scratch.counters() == move_stats(
                old(self).scratch.counters(),
                old(self).position(g as int).cells,
                i0 as int,
                i1 as int,
                old(self).scratch.rebuilds(),
            ),
            forall|h: int|
                0 <= h < old(self).n && h != g ==> #[trigger] final(self).position(h)
                    == old(self).position(h),
    {
        let ghost pos = self.position(g as int);
        proof {
            lemma_block_range(g as int, HW as int, self.n as int);
            assert(pos.scored());
            lemma_score_bound(pos.cells, PLAYER_0_MARK);
            lemma_score_bound(pos.cells, PLAYER_1_MARK);
        }
        let cells = window(&mut self.boards, g, HW);
        let level = window(&mut self.levels, g, HW);
        let score = window(&mut self.scores, g, 2);
        let legal = window(&mut self.legal, g, LEGAL_WORDS);
        play(cells, level, score, legal, i0, i1, &mut self.scratch);
        let ghost c1 = cells@;
        let ghost l1 = level@;
        let ghost s1 = score@;
        let ghost w1 = legal@;
        self.move_counts.set(g, self.move_counts[g] + 1);
        proof {
            let n = self.n as int;
            lemma_with_block(old(self).boards@, n, g as int, HW as int, c1);
            lemma_with_block(old(self).levels@, n, g as int, HW as int, l1);
            lemma_with_block(old(self).scores@, n, g as int, 2, s1);
            lemma_with_block(old(self).legal@, n, g as int, LEGAL_WORDS as int, w1);
        }
        if self.no_moves_left(g) {
            self.finished.set(g, true);
        }
        proof {
            let after = self.position(g as int);
            assert(after.cells == c1);
            assert(after.levels == l1);
            assert(after.scores == s1);
            assert(after.words == w1);
            assert(after.scored());
            assert(after.move_count == pos.move_count + 1);
            assert(after.finished == (pos.finished || blank(after.words)));
            assert forall|h: int| 0 <= h < self.n && h != g implies #[trigger] self.position(h)
                == old(self).position(h) by {
                assert(block(self.boards@, h, HW as int) == block(old(self).boards@, h, HW as int));
                assert(block(self.levels@, h, HW as int) == block(old(self).levels@, h, HW as int));
                assert(block(self.scores@, h, 2) == block(old(self).scores@, h, 2));
                assert(block(self.legal@, h, LEGAL_WORDS as int) == block(
                    old(self).legal@,
                    h,
                    LEGAL_WORDS as int,
                ));
            }
            assert forall|h: int| 0 <= h < self.n implies (#[trigger] self.position(
                h,
            )).scored() by {
                if h != g {
                    assert(old(self).position(h).scored());
                }
            }
        }
    }
}

/// A batch of checkerboards holds the opening position in every block.
proof fn lemma_opening_block(boards: Seq<i8>, n: int, g: int)
    requires
        0 <= g < n,
        boards.len() == n * HW,
        forall|j: int|
            0 <= j < boards.len() ==> #[trigger] boards[j] == (if even_square(j % 160) {
                PLAYABLE_SQUARE
            } else {
                NON_PLAYABLE_SQUARE
            }),
    ensures
        block(boards, g, HW as int) == opening(),
{
    let b = block(boards, g, HW as int);
    assert forall|j: int| 0 <= j < HW implies b[j] == #[trigger] opening()[j] by {
        assert((g * 160 + j) % 160 == j);
    }
    assert(b =~= opening());
}

proof fn lemma_opening_tidy(pos: Position)
    requires
        pos.cells == opening(),
        scanned(pos.cells, pos.words),
        !pos.finished,
    ensures
        pos.tidy(),
{
    assert(pos.cells[0] == PLAYABLE_SQUARE);
    crate::game::lemma_scanned(pos.cells, pos.words);
}

proof fn lemma_players(cells: Seq<i8>, level: Seq<u8>)
    requires
        levels_exact(cells, level),
    ensures
        exact_for(cells, level, PLAYER_0_MARK),
        exact_for(cells, level, PLAYER_1_MARK),
{
    assert forall|x: int| #[trigger] mark(cells, PLAYER_0_MARK, x) implies is_level(
        cells,
        x,
        level[x],
    ) by {}
    assert forall|x: int| #[trigger] mark(cells, PLAYER_1_MARK, x) implies is_level(
        cells,
        x,
        level[x],
    ) by {}
}

/// A legal move keeps a game tidy.
pub proof fn lemma_step_tidy(before: Position, after: Position, i0: int, i1: int)
    requires
        before.cells.len() == HW,
        before.tidy(),
        0 <= i0 < HW,
        0 <= i1 < HW,
        before.cells[i0] == PLAYABLE_SQUARE,
        before.cells[i1] == PLAYABLE_SQUARE,
        before.stepped(after, i0, i1),
    ensures
        after.tidy(),
{
    crate::game::lemma_moved_mask(before.cells, before.words, after.words, i0, i1);
    crate::game::lemma_mask_empty(after.cells, after.words);
}

/// A move leads to one position, whichever way its levels were repaired and in whatever order
/// the games of a batch were moved.
pub proof fn lemma_step_unique(before: Position, a: Position, b: Position, i0: int, i1: int)
    requires
        before.stepped(a, i0, i1),
        before.stepped(b, i0, i1),
    ensures
        a == b,
{
    lemma_levels_unique(a.cells, a.levels, b.levels);
    assert(a.scores =~= b.scores);
    assert forall|k: int| 0 <= k < 128 implies #[trigger] holds(a.words, k) == holds(
        b.words,
        k,
    ) by {
        assert(holds(a.words, k) <==> holds(before.words, k) && !writes_bit(i0, i1, k));
    }
    lemma_same_mask(a.words, b.words);
}

/// A game of a batch carries what the same board carries as a game by itself.
pub proof fn lemma_batch_matches_game(pos: Position, g: Game)
    requires
        pos.scored(),
        g.wf(),
        pos.cells == g.cells@,
    ensures
        pos.levels == g.levels@,
        pos.scores == g.scores@,
        pos.tidy() ==> pos.words == g.legal@ && pos.finished == g.finished,
{
    lemma_levels_unique(pos.cells, pos.levels, g.levels@);
    assert(pos.scores =~= g.scores@);
    if pos.tidy() {
        assert forall|k: int| 0 <= k < 128 implies #[trigger] holds(pos.words, k) == holds(
            g.legal@,
            k,
        ) by {
            assert(holds(g.legal@, k) <==> k < 80 && g.cells@[cell_of(k)] == PLAYABLE_SQUARE);
        }
        lemma_same_mask(pos.words, g.legal@);
    }
}

/// A square of a batch move, by row and column.
pub open spec fn square_at(r: Seq<i64>, c: Seq<i64>, g: int) -> int {
    r[g] * 16 + c[g]
}

/// The squares of a batch move, by rows and columns.
pub open spec fn squares_at(r: Seq<i64>, c: Seq<i64>) -> Seq<int> {
    Seq::new(r.len(), |g: int| square_at(r, c, g))
}

/// Board indices as whole numbers.
pub open spec fn whole(idx: Seq<i64>) -> Seq<int> {
    Seq::new(idx.len(), |g: int| idx[g] as int)
}

/// The counters after the moves of the active games among the first `n`.
pub open spec fn batch_stats(
    st: Stats,
    games: Seq<Position>,
    first: Seq<int>,
    second: Seq<int>,
    active: Seq<bool>,
    rebuilds: bool,
    n: nat,
) -> Stats
    decreases n,
{
    if n == 0 {
        st
    } else {
        let before = batch_stats(st, games, first, second, active, rebuilds, (n - 1) as nat);
        if active[n - 1] {
            move_stats(before, games[n - 1].cells, first[n - 1], second[n - 1], rebuilds)
        } else {
            before
        }
    }
}

/// The counters go by the squares of the active games.
pub proof fn lemma_batch_stats(
    st: Stats,
    games: Seq<Position>,
    a: (Seq<int>, Seq<int>, Seq<bool>),
    b: (Seq<int>, Seq<int>, Seq<bool>),
    rebuilds: bool,
    n: nat,
)
    requires
        forall|g: int|
            0 <= g < n ==> #[trigger] a.2[g] == b.2[g] && (a.2[g] ==> a.0[g] == b.0[g] && a.1[g]
                == b.1[g]),
    ensures
        batch_stats(st, games, a.0, a.1, a.2, rebuilds, n) == batch_stats(
            st,
            games,
            b.0,
            b.1,
            b.2,
            rebuilds,
            n,
        ),
    decreases n,
{
    if n > 0 {
        lemma_batch_stats(st, games, a, b, rebuilds, (n - 1) as nat);
        assert(a.2[n - 1] == b.2[n - 1]);
    }
}

/// Can the moves be applied to the game: squares of the board, and the move can be counted?
pub open spec fn applicable(pos: Position, i0: int, i1: int) -> bool {
    &&& 0 <= i0 < HW
    &&& 0 <= i1 < HW
    &&& pos.move_count < i32::MAX
}

impl IncrementalGame {
    /// Apply one move to one game.
    pub fn apply_game(&mut self, g: usize, r0: i64, c0: i64, r1: i64, c1: i64)
        requires
            old(self).wf(),
            g < old(self).n,
            0 <= r0 && 0 <= c0 && 0 <= r1 && 0 <= c1,
            applicable(old(self).position(g as int), r0 * 16 + c0, r1 * 16 + c1),
            r0 * 16 + c0 == r1 * 16 + c1 ==> r0 == r1,
        ensures
            final(self).wf(),
            final(self).same_batch(old(self)),
            old(self).position(g as int).stepped(
                final(self).position(g as int),
                r0 * 16 + c0,
                r1 * 16 + c1,
            ),
            forall|h: int|
                0 <= h < old(self).n && h != g ==> #[trigger] final(self).position(h)
                    == old(self).position(h),
            final(self).scratch.counters() == move_stats(
                old(self).scratch.counters(),
                old(self).position(g as int).cells,
                r0 * 16 + c0,
                r1 * 16 + c1,
                old(self).scratch.rebuilds(),
            ),
            game_applied(
                old(self).positions(),
                final(self).positions(),
                (GameMove { game: g as int, first: r0 * 16 + c0, second: r1 * 16 + c1 }),
            ),
    {
        let i0: usize = (r0 as usize) * WIDTH + (c0 as usize);
        let i1: usize = (r1 as usize) * WIDTH + (c1 as usize);
        self.apply_at(g, i0, i1);
    }

    /// Apply one move to each active game.
    pub fn apply_step(&mut self, r0: &[i64], c0: &[i64], r1: &[i64], c1: &[i64], active: &[bool])
        requires
            old(self).wf(),
            r0@.len() >= old(self).n,
            c0@.len() >= old(self).n,
            r1@.len() >= old(self).n,
            c1@.len() >= old(self).n,
            active@.len() >= old(self).n,
            forall|g: int|
                0 <= g < old(self).n && #[trigger] active@[g] ==> {
                    &&& 0 <= r0@[g] && 0 <= c0@[g] && 0 <= r1@[g] && 0 <= c1@[g]
                    &&& applicable(
                        old(self).position(g),
                        square_at(r0@, c0@, g),
                        square_at(r1@, c1@, g),
                    )
                    &&& square_at(r0@, c0@, g) == square_at(r1@, c1@, g) ==> r0@[g] == r1@[g]
                },
        ensures
            final(self).wf(),
            final(self).same_batch(old(self)),
            forall|g: int|
                0 <= g < old(self).n ==> if active@[g] {
                    old(self).position(g).stepped(
                        #[trigger] final(self).position(g),
                        square_at(r0@, c0@, g),
                        square_at(r1@, c1@, g),
                    )
                } else {
                    final(self).position(g) == old(self).position(g)
                },
            final(self).scratch.counters() == batch_stats(
                old(self).scratch.counters(),
                old(self).positions(),
                squares_at(r0@, c0@),
                squares_at(r1@, c1@),
                active@,
                old(self).scratch.rebuilds(),
                old(self).n as nat,
            ),
            step_applied(
                old(self).positions(),
                final(self).positions(),
                (BatchStep {
                    first: squares_at(r0@, c0@),
                    second: squares_at(r1@, c1@),
                    active: active@,
                }),
            ),
    {
        let n: usize = self.n;
        let mut g: usize = 0;
        while g < n
            invariant
                g <= n,
                n == old(self).n,
                self.wf(),
                self.same_batch(old(self)),
                self.scratch.counters() == batch_stats(
                    old(self).scratch.counters(),
                    old(self).positions(),
                    squares_at(r0@, c0@),
                    squares_at(r1@, c1@),
                    active@,
                    old(self).scratch.rebuilds(),
                    g as nat,
                ),
                r0@.len() >= n,
                c0@.len() >= n,
                r1@.len() >= n,
                c1@.len() >= n,
                active@.len() >= n,
                forall|h: int|
                    0 <= h < n && #[trigger] active@[h] ==> {
                        &&& 0 <= r0@[h] && 0 <= c0@[h] && 0 <= r1@[h] && 0 <= c1@[h]
                        &&& applicable(
                            old(self).position(h),
                            square_at(r0@, c0@, h),
                            square_at(r1@, c1@, h),
                        )
                        &&& square_at(r0@, c0@, h) == square_at(r1@, c1@, h) ==> r0@[h] == r1@[h]
                    },
                forall|h: int|
                    g <= h < n ==> #[trigger] self.position(h) == old(self).position(h),
                forall|h: int|
                    0 <= h < g ==> if active@[h] {
                        old(self).position(h).stepped(
                            #[trigger] self.position(h),
                            square_at(r0@, c0@, h),
                            square_at(r1@, c1@, h),
                        )
                    } else {
                        self.position(h) == old(self).position(h)
                    },
            decreases n - g,
        {
            if active[g] {
                assert(self.position(g as int) == old(self).position(g as int));
                let ghost before = *self;
                self.apply_game(g, r0[g], c0[g], r1[g], c1[g]);
                proof {
                    assert forall|h: int| 0 <= h < g implies if active@[h] {
                        old(self).position(h).stepped(
                            #[trigger] self.position(h),
                            square_at(r0@, c0@, h),
                            square_at(r1@, c1@, h),
                        )
                    } else {
                        self.position(h) == old(self).position(h)
                    } by {
                        assert(self.position(h) == before.position(h));
                    }
                    assert forall|h: int| g + 1 <= h < n implies #[trigger] self.position(h)
                        == old(self).position(h) by {
                        assert(self.position(h) == before.position(h));
                    }
                }
            }
            g = g + 1;
        }
    }

    /// The games that are not finished.
    pub open spec fn actives(&self) -> Seq<bool> {
        self.finished@.map_values(|f: bool| !f)
    }

    /// Is there an active game?
    pub open spec fn any_active(&self) -> bool {
        exists|g: int| 0 <= g < self.n && !#[trigger] self.finished@[g]
    }

    /// Are both moves legal in game `g`?
    pub open spec fn legal_pair(&self, idx_0: Seq<i64>, idx_1: Seq<i64>, g: int) -> bool {
        self.position(g).may_play(idx_0[g] as int, 0) && self.position(g).may_play(
            idx_1[g] as int,
            1,
        )
    }

    /// The active games below `k` for which a move is illegal, in order.
    pub open spec fn illegal_games(&self, idx_0: Seq<i64>, idx_1: Seq<i64>, k: nat) -> Seq<usize>
        decreases k,
    {
        if k == 0 {
            seq![]
        } else {
            let rest = self.illegal_games(idx_0, idx_1, (k - 1) as nat);
            if !self.finished@[k - 1] && !self.legal_pair(idx_0, idx_1, k - 1) {
                rest.push((k - 1) as usize)
            } else {
                rest
            }
        }
    }

    /// May `player` play square `i` of game `g`?
    fn is_legal(&self, g: usize, i: usize, player: usize) -> (r: bool)
        requires
            self.shaped(),
            g < self.n,
            i < HW,
        ensures
            r == self.position(g as int).may_play(i as int, player as int),
    {
        proof {
            lemma_block_range(g as int, HW as int, self.n as int);
        }
        let cells = window_ref(&self.boards, g, HW);
        if cells[i] != PLAYABLE_SQUARE {
            return false;
        }
        if self.move_counts[g] != 0 {
            return true;
        }
        let c: usize = i % WIDTH;
        if player == 0 {
            c < self.half_width
        } else {
            c >= self.half_width
        }
    }

    /// Play one move in every game that is not finished, given as board indices. Where a
    /// move is illegal in some game, no game is updated.
    pub fn action_step(&mut self, idx_0: &[i64], idx_1: &[i64]) -> (r: Result<(), String>)
        requires
            old(self).wf(),
            idx_0@.len() >= old(self).n,
            idx_1@.len() >= old(self).n,
            forall|g: int|
                0 <= g < old(self).n && !#[trigger] old(self).finished@[g] ==> {
                    &&& 0 <= idx_0@[g] < HW
                    &&& 0 <= idx_1@[g] < HW
                    &&& old(self).move_counts@[g] < i32::MAX
                },
        ensures
            ({
                let illegal = old(self).illegal_games(idx_0@, idx_1@, old(self).n as nat);
                match r {
                    Ok(_) => illegal.len() == 0 && final(self).scratch.counters() == batch_stats(
                        old(self).scratch.counters(),
                        old(self).positions(),
                        whole(idx_0@),
                        whole(idx_1@),
                        old(self).actives(),
                        old(self).scratch.rebuilds(),
                        old(self).n as nat,
                    ) && forall|g: int|
                        0 <= g < old(self).n ==> if old(self).finished@[g] {
                            final(self).position(g) == old(self).position(g)
                        } else {
                            old(self).position(g).stepped(
                                #[trigger] final(self).position(g),
                                idx_0@[g] as int,
                                idx_1@[g] as int,
                            )
                        },
                    Err(e) => illegal.len() > 0 && *final(self) == *old(self) && e@
                        == illegal_message(illegal),
                }
            }),
            final(self).wf(),
            final(self).same_batch(old(self)),
            old(self).tidy() ==> final(self).tidy(),
    {
        let n: usize = self.n;
        let mut active: Vec<bool> = Vec::new();
        let mut invalid: Vec<usize> = Vec::new();
        let mut r0: Vec<i64> = Vec::new();
        let mut c0: Vec<i64> = Vec::new();
        let mut r1: Vec<i64> = Vec::new();
        let mut c1: Vec<i64> = Vec::new();
        let mut g: usize = 0;
        while g < n
            invariant
                g <= n,
                *self == *old(self),
                n == self.n,
                self.wf(),
                idx_0@.len() >= n,
                idx_1@.len() >= n,
                forall|h: int|
                    0 <= h < n && !#[trigger] self.finished@[h] ==> {
                        &&& 0 <= idx_0@[h] < HW
                        &&& 0 <= idx_1@[h] < HW
                        &&& self.move_counts@[h] < i32::MAX
                    },
                active@.len() == g,
                r0@.len() == g,
                c0@.len() == g,
                r1@.len() == g,
                c1@.len() == g,
                forall|h: int| 0 <= h < g ==> #[trigger] active@[h] == !self.finished@[h],
                forall|h: int|
                    0 <= h < g && #[trigger] active@[h] ==> {
                        &&& 0 <= r0@[h] && 0 <= c0@[h] && 0 <= r1@[h] && 0 <= c1@[h]
                        &&& square_at(r0@, c0@, h) == idx_0@[h]
                        &&& square_at(r1@, c1@, h) == idx_1@[h]
                        &&& idx_0@[h] == idx_1@[h] ==> r0@[h] == r1@[h]
                    },
                invalid@ == self.illegal_games(idx_0@, idx_1@, g as nat),
                invalid@.len() == 0 ==> forall|h: int|
                    0 <= h < g && #[trigger] active@[h] ==> self.legal_pair(idx_0@, idx_1@, h),
            decreases n - g,
        {
            let on: bool = !self.finished[g];
            active.push(on);
            if on {
                let i0: i64 = idx_0[g];
                let i1: i64 = idx_1[g];
                if !self.is_legal(g, i0 as usize, 0) || !self.is_legal(g, i1 as usize, 1) {
                    invalid.push(g);
                }
                r0.push(i0 / 16);
                c0.push(i0 % 16);
                r1.push(i1 / 16);
                c1.push(i1 % 16);
            } else {
                r0.push(0);
                c0.push(0);
                r1.push(0);
                c1.push(0);
            }
            g = g + 1;
        }
        if invalid.len() > 0 {
            return Err(illegal_text(&invalid));
        }
        proof {
            assert forall|h: int| 0 <= h < n && #[trigger] active@[h] implies applicable(
                self.position(h),
                square_at(r0@, c0@, h),
                square_at(r1@, c1@, h),
            ) by {
                assert(self.legal_pair(idx_0@, idx_1@, h));
                assert(!self.finished@[h]);
            }
        }
        self.apply_step(
            r0.as_slice(),
            c0.as_slice(),
            r1.as_slice(),
            c1.as_slice(),
            active.as_slice(),
        );
        proof {
            lemma_batch_stats(
                old(self).scratch.counters(),
                old(self).positions(),
                (squares_at(r0@, c0@), squares_at(r1@, c1@), active@),
                (whole(idx_0@), whole(idx_1@), old(self).actives()),
                old(self).scratch.rebuilds(),
                n as nat,
            );
            assert forall|h: int| 0 <= h < n implies if old(self).finished@[h] {
                self.position(h) == old(self).position(h)
            } else {
                old(self).position(h).stepped(
                    #[trigger] self.position(h),
                    idx_0@[h] as int,
                    idx_1@[h] as int,
                )
            } by {
                assert(active@[h] == !old(self).finished@[h]);
            }
            if old(self).tidy() {
                assert forall|h: int| 0 <= h < n implies (#[trigger] self.position(h)).tidy() by {
                    let before = old(self).position(h);
                    assert(before.tidy());
                    assert(before.scored());
                    assert(active@[h] == !old(self).finished@[h]);
                    if active@[h] {
                        assert(old(self).legal_pair(idx_0@, idx_1@, h));
                        lemma_step_tidy(
                            before,
                            self.position(h),
                            idx_0@[h] as int,
                            idx_1@[h] as int,
                        );
                    }
                }
            }
        }
        Ok(())
    }

    /// Pick the repair strategy for a removal that may have cut a component: `true` (the
    /// default) re-derives the whole component, `false` walks levels up. The resulting state
    /// is identical either way, so this is purely a cost knob.
    pub fn set_bfs_repair(&mut self, on: bool)
        requires
            old(self).wf(),
        ensures
            final(self).wf(),
            final(self).scratch.rebuilds() == on,
            final(self).scratch.counters() == old(self).scratch.counters(),
            *final(self) == (IncrementalGame { scratch: final(self).scratch, ..*old(self) }),
    {
        self.scratch.choose_repair(on);
        assert forall|g: int| 0 <= g < self.n implies (#[trigger] self.position(g)).scored() by {
            assert(old(self).position(g).scored());
        }
    }

    /// Path counters accumulated since construction.
    pub fn stats(&self) -> (s: Stats)
        ensures
            s == self.scratch.counters(),
    {
        self.scratch.read_stats()
    }

    /// Set the path counters to zero.
    pub fn reset_stats(&mut self)
        requires
            old(self).wf(),
        ensures
            final(self).wf(),
            final(self).scratch.counters() == Stats::zero(),
            final(self).scratch.rebuilds() == old(self).scratch.rebuilds(),
            *final(self) == (IncrementalGame { scratch: final(self).scratch, ..*old(self) }),
    {
        self.scratch.clear_stats();
        assert forall|g: int| 0 <= g < self.n implies (#[trigger] self.position(g)).scored() by {
            assert(old(self).position(g).scored());
        }
    }
}

/// What a rejected batch move is answered.
pub open spec fn illegal_message(games: Seq<usize>) -> Seq<char> {
    "Invalid move detected in batch at game indices: ["@ + comma_list(games)
        + "]. Execution aborted; no games updated."@
}

fn illegal_text(games: &Vec<usize>) -> (e: String)
    ensures
        e@ == illegal_message(games@),
{
    let mut e = String::new();
    e.append("Invalid move detected in batch at game indices: [");
    push_list(&mut e, games);
    e.append("]. Execution aborted; no games updated.");
    assert(e@ =~= illegal_message(games@));
    e
}

// ------------------------------------------------------------------------ dense masks

/// Is square `i` among the bits of the mask?
pub open spec fn dense(words: Seq<u64>, i: int) -> bool {
    even_square(i) && holds(words, i / 2)
}

/// A mask expanded to one entry per cell.
fn expand(words: [u64; LEGAL_WORDS]) -> (m: [bool; HW])
    requires
        forall|k: int| SQUARES <= k < 128 ==> !#[trigger] holds(words@, k),
    ensures
        forall|i: int| 0 <= i < HW ==> #[trigger] m@[i] == dense(words@, i),
{
    let mut m: [bool; HW] = [false; HW];
    let mut k: usize = 0;
    while k < SQUARES
        invariant
            k <= SQUARES,
            forall|i: int|
                0 <= i < HW ==> #[trigger] m@[i] == (dense(words@, i) && i / 2 < k),
        decreases SQUARES - k,
    {
        proof {
            lemma_cell_of(k as int);
        }
        if test_bit(words, k) {
            let c: usize = legal_cell(k);
            m[c] = true;
        }
        proof {
            assert forall|i: int| 0 <= i < HW implies #[trigger] m@[i] == (dense(words@, i) && i / 2
                < k + 1) by {
                lemma_bit_of(i);
            }
        }
        k = k + 1;
    }
    m
}

/// The squares of game `pos` that `player` may choose from, as the mask says.
pub open spec fn open_to(pos: Position, player: int, i: int) -> bool {
    dense(pos.words, i) && in_half(i / 2, player, pos.move_count == 0)
}

/// Copy one game's entries into a batch.
fn copy_block(out: &mut [bool], g: usize, m: [bool; HW])
    requires
        g * HW + HW <= old(out)@.len(),
    ensures
        final(out)@.len() == old(out)@.len(),
        forall|j: int|
            0 <= j < old(out)@.len() ==> #[trigger] final(out)@[j] == (if g * 160 <= j < g * 160
                + 160 {
                m@[j - g * 160]
            } else {
                old(out)@[j]
            }),
{
    let size: usize = out.len();
    assert(g * 160 + 160 <= size);
    let base: usize = g * HW;
    let mut i: usize = 0;
    while i < HW
        invariant
            i <= HW,
            base == g * 160,
            base + 160 <= out@.len(),
            out@.len() == old(out)@.len(),
            out@.len() <= usize::MAX,
            forall|j: int|
                0 <= j < old(out)@.len() ==> #[trigger] out@[j] == (if base <= j < base + i {
                    m@[j - base]
                } else {
                    old(out)@[j]
                }),
        decreases HW - i,
    {
        out[base + i] = m[i];
        i = i + 1;
    }
}

impl IncrementalGame {
    /// The entries that [`Self::legal_masks_into`] gives game `g`.
    pub open spec fn masked(
        &self,
        g: int,
        mask_0: Seq<bool>,
        mask_1: Seq<bool>,
        count_0: Seq<u32>,
        count_1: Seq<u32>,
    ) -> bool {
        &&& forall|i: int|
            0 <= i < HW ==> #[trigger] mask_0[g * 160 + i] == open_to(self.position(g), 0, i)
        &&& forall|i: int|
            0 <= i < HW ==> #[trigger] mask_1[g * 160 + i] == open_to(self.position(g), 1, i)
        &&& count_0[g] == open_count(self.position(g), 0)
        &&& count_1[g] == open_count(self.position(g), 1)
    }

    /// The same of every game.
    pub open spec fn all_masked(
        &self,
        mask_0: Seq<bool>,
        mask_1: Seq<bool>,
        count_0: Seq<u32>,
        count_1: Seq<u32>,
    ) -> bool {
        forall|g: int|
            0 <= g < self.n ==> #[trigger] self.masked(g, mask_0, mask_1, count_0, count_1)
    }

    /// The dense (N, H, W) masks, expanded from the bitboard, and how many squares each holds.
    pub fn get_legal_masks(&self) -> (r: (Vec<bool>, Vec<bool>, Vec<u32>, Vec<u32>))
        requires
            self.wf(),
        ensures
            r.0@.len() == self.n * HW,
            r.1@.len() == self.n * HW,
            r.2@.len() == self.n,
            r.3@.len() == self.n,
            forall|g: int|
                0 <= g < self.n ==> #[trigger] self.masked(g, r.0@, r.1@, r.2@, r.3@),
    {
        let total: usize = self.boards.len();
        let mut m0: Vec<bool> = vec![false; total];
        let mut m1: Vec<bool> = vec![false; total];
        let mut c0: Vec<u32> = vec![0; self.n];
        let mut c1: Vec<u32> = vec![0; self.n];
        self.legal_masks_into(
            m0.as_mut_slice(),
            m1.as_mut_slice(),
            c0.as_mut_slice(),
            c1.as_mut_slice(),
        );
        (m0, m1, c0, c1)
    }

    /// [`Self::get_legal_masks`] into caller-owned buffers. The buffers may be dirty; every
    /// entry written here is written unconditionally.
    pub fn legal_masks_into(
        &self,
        mask_0: &mut [bool],
        mask_1: &mut [bool],
        count_0: &mut [u32],
        count_1: &mut [u32],
    )
        requires
            self.wf(),
            old(mask_0)@.len() >= self.n * HW,
            old(mask_1)@.len() >= self.n * HW,
            old(count_0)@.len() >= self.n,
            old(count_1)@.len() >= self.n,
        ensures
            final(mask_0)@.len() == old(mask_0)@.len(),
            final(mask_1)@.len() == old(mask_1)@.len(),
            final(count_0)@.len() == old(count_0)@.len(),
            final(count_1)@.len() == old(count_1)@.len(),
            self.all_masked(
                final(mask_0)@,
                final(mask_1)@,
                final(count_0)@,
                final(count_1)@,
            ),
    {
        let mut g: usize = 0;
        while g < self.n
            invariant
                g <= self.n,
                self.wf(),
                mask_0@.len() == old(mask_0)@.len(),
                mask_1@.len() == old(mask_1)@.len(),
                count_0@.len() == old(count_0)@.len(),
                count_1@.len() == old(count_1)@.len(),
                mask_0@.len() >= self.n * HW,
                mask_1@.len() >= self.n * HW,
                count_0@.len() >= self.n,
                count_1@.len() >= self.n,
                forall|h: int|
                    0 <= h < g ==> #[trigger] self.masked(h, mask_0@, mask_1@, count_0@, count_1@),
            decreases self.n - g,
        {
            let ghost a0 = mask_0@;
            let ghost a1 = mask_1@;
            let ghost b0 = count_0@;
            let ghost b1 = count_1@;
            let first: bool = self.move_counts[g] == 0;
            let w0: [u64; LEGAL_WORDS] = narrow(self.legal_bits(g), first, 0);
            let w1: [u64; LEGAL_WORDS] = narrow(self.legal_bits(g), first, 1);
            copy_block(mask_0, g, expand(w0));
            copy_block(mask_1, g, expand(w1));
            count_0[g] = count_bits(w0);
            count_1[g] = count_bits(w1);
            proof {
                let pos = self.position(g as int);
                lemma_open_count(pos, 0, w0@);
                lemma_open_count(pos, 1, w1@);
                assert forall|i: int| 0 <= i < HW implies dense(w0@, i) == open_to(pos, 0, i)
                    && #[trigger] dense(w1@, i) == open_to(pos, 1, i) by {
                    lemma_bit_of(i);
                }
                assert(self.masked(g as int, mask_0@, mask_1@, count_0@, count_1@)) by {
                    assert forall|i: int| 0 <= i < HW implies #[trigger] mask_0@[g * 160 + i]
                        == open_to(pos, 0, i) by {
                        assert(dense(w1@, i) == open_to(pos, 1, i));
                    }
                    assert forall|i: int| 0 <= i < HW implies #[trigger] mask_1@[g * 160 + i]
                        == open_to(pos, 1, i) by {
                        assert(dense(w1@, i) == open_to(pos, 1, i));
                    }
                }
                assert forall|h: int| 0 <= h < g implies #[trigger] self.masked(
                    h,
                    mask_0@,
                    mask_1@,
                    count_0@,
                    count_1@,
                ) by {
                    assert(self.masked(h, a0, a1, b0, b1));
                    assert forall|i: int| 0 <= i < HW implies #[trigger] mask_0@[h * 160 + i]
                        == open_to(self.position(h), 0, i) by {
                        assert(a0[h * 160 + i] == open_to(self.position(h), 0, i));
                    }
                    assert forall|i: int| 0 <= i < HW implies #[trigger] mask_1@[h * 160 + i]
                        == open_to(self.position(h), 1, i) by {
                        assert(a1[h * 160 + i] == open_to(self.position(h), 1, i));
                    }
                }
            }
            g = g + 1;
        }
    }

    // -------------------------------------------------------------------- checking a batch

    /// What is wrong with game `g`, in words.
    pub open spec fn game_fault(&self, g: int) -> Option<Seq<char>> {
        let pos = self.position(g);
        match legal_fault(pos) {
            Some(e) => Some(e),
            None => board_fault(pos.cells, pos.levels, pos.scores),
        }
    }

    /// What is wrong with the first faulty game from `g` on, in words.
    pub open spec fn first_fault(&self, g: int) -> Option<Seq<char>>
        decreases self.n - g,
    {
        if g >= self.n {
            None
        } else {
            match self.game_fault(g) {
                Some(e) => Some("game "@ + decimal(g as nat) + ": "@ + e),
                None => self.first_fault(g + 1),
            }
        }
    }

    /// The legality bitboard must agree with the board, bit for bit, and so must the finished
    /// flag.
    fn check_legal(&self, g: usize) -> (r: Result<(), String>)
        requires
            self.shaped(),
            g < self.n,
        ensures
            match r {
                Ok(_) => legal_fault(self.position(g as int)) is None,
                Err(e) => legal_fault(self.position(g as int)) == Some(e@),
            },
    {
        proof {
            lemma_block_range(g as int, HW as int, self.n as int);
        }
        let ghost pos = self.position(g as int);
        let want: [u64; LEGAL_WORDS] = scan_legal(window_ref(&self.boards, g, HW));
        let have: [u64; LEGAL_WORDS] = self.legal_bits(g);
        proof {
            lemma_scan_unique(pos.cells, scan_of(pos.cells), want@);
        }
        if have[0] != want[0] || have[1] != want[1] {
            let mut e = String::new();
            e.append("legality bitboard is wrong: have [0x");
            push_hex(&mut e, have[0], 16);
            e.append(", 0x");
            push_hex(&mut e, have[1], 4);
            e.append("], board says [0x");
            push_hex(&mut e, want[0], 16);
            e.append(", 0x");
            push_hex(&mut e, want[1], 4);
            e.append("]");
            proof {
                assert(pos.words != want@) by {
                    if pos.words == want@ {
                        assert(have@[0] == want@[0] && have@[1] == want@[1]);
                    }
                }
                assert(Some(e@) == legal_fault(pos));
            }
            return Err(e);
        }
        assert(pos.words =~= want@);
        let empty: bool = is_empty(want);
        if self.finished[g] != empty {
            let mut e = String::new();
            e.append("finished is ");
            if self.finished[g] {
                e.append("true");
            } else {
                e.append("false");
            }
            e.append(" but ");
            push_decimal(&mut e, count_bits(want) as u64);
            e.append(" squares are still playable");
            assert(Some(e@) == legal_fault(pos));
            return Err(e);
        }
        Ok(())
    }

    /// Check every game in the batch: its bitboard, its finished flag, its levels and its
    /// running score.
    pub fn check_invariants(&self) -> (r: Result<(), String>)
        requires
            self.shaped(),
        ensures
            match r {
                Ok(_) => self.first_fault(0) is None,
                Err(e) => self.first_fault(0) == Some(e@),
            },
            r is Ok <==> forall|g: int| 0 <= g < self.n ==> (#[trigger] self.position(g)).sane(),
    {
        proof {
            lemma_first_fault(self, 0);
        }
        let mut g: usize = 0;
        while g < self.n
            invariant
                g <= self.n,
                self.shaped(),
                self.first_fault(0) == self.first_fault(g as int),
            decreases self.n - g,
        {
            proof {
                lemma_block_range(g as int, HW as int, self.n as int);
            }
            let mut found: Option<String> = None;
            match self.check_legal(g) {
                Err(e) => {
                    found = Some(e);
                },
                Ok(_) => {
                    match check_invariants(
                        window_ref(&self.boards, g, HW),
                        window_ref(&self.levels, g, HW),
                        window_ref(&self.scores, g, 2),
                    ) {
                        Err(e) => {
                            found = Some(e);
                        },
                        Ok(_) => {},
                    }
                },
            }
            if let Some(e) = found {
                let mut text = String::new();
                text.append("game ");
                push_decimal(&mut text, g as u64);
                text.append(": ");
                text.append(e.as_str());
                assert(Some(text@) == self.first_fault(g as int));
                proof {
                    lemma_first_fault(self, 0);
                }
                return Err(text);
            }
            g = g + 1;
        }
        Ok(())
    }
}

/// The number of squares of game `pos` that `player` may choose from.
pub open spec fn open_count(pos: Position, player: int) -> int {
    sum_to(
        |k: int| unit(holds(pos.words, k) && in_half(k, player, pos.move_count == 0)),
        SQUARES as nat,
    )
}

proof fn lemma_open_count(pos: Position, player: int, w: Seq<u64>)
    requires
        forall|k: int|
            0 <= k < 128 ==> (#[trigger] holds(w, k) <==> holds(pos.words, k) && k < SQUARES
                && in_half(k, player, pos.move_count == 0)),
    ensures
        count_below(w, 128) == open_count(pos, player),
{
    let f = |j: int| unit(holds(w, j));
    let h = |k: int| unit(holds(pos.words, k) && in_half(k, player, pos.move_count == 0));
    crate::sums::lemma_sum_tail(f, SQUARES as nat, 128);
    lemma_sum_eq(f, h, SQUARES as nat);
    assert(count_below(w, 128) == sum_to(f, 128));
    assert(open_count(pos, player) == sum_to(h, SQUARES as nat));
}

/// The mask of a board.
pub open spec fn scan_of(cells: Seq<i8>) -> Seq<u64> {
    choose|w: Seq<u64>| #[trigger] scanned(cells, w)
}

pub open spec fn truth_text(b: bool) -> Seq<char> {
    if b {
        "true"@
    } else {
        "false"@
    }
}

/// What is wrong with a game's mask or finished flag, in words.
pub open spec fn legal_fault(pos: Position) -> Option<Seq<char>> {
    let want = scan_of(pos.cells);
    if pos.words != want {
        Some(
            "legality bitboard is wrong: have [0x"@ + hex(pos.words[0] as nat, 16) + ", 0x"@ + hex(
                pos.words[1] as nat,
                4,
            ) + "], board says [0x"@ + hex(want[0] as nat, 16) + ", 0x"@ + hex(
                want[1] as nat,
                4,
            ) + "]"@,
        )
    } else if pos.finished != blank(want) {
        Some(
            "finished is "@ + truth_text(pos.finished) + " but "@ + decimal(
                count_below(want, 128) as nat,
            ) + " squares are still playable"@,
        )
    } else {
        None
    }
}

/// The check of a game finds nothing wrong exactly if the game is sane.
proof fn lemma_game_fault(b: &IncrementalGame, g: int)
    requires
        b.shaped(),
        0 <= g < b.n,
    ensures
        b.game_fault(g) is None <==> b.position(g).sane(),
{
    let pos = b.position(g);
    lemma_block_range(g, HW as int, b.n as int);
    lemma_scan_exists(pos.cells);
    let want = scan_of(pos.cells);
    if scanned(pos.cells, pos.words) {
        lemma_scan_unique(pos.cells, want, pos.words);
    }
    crate::game::lemma_scan_empty(pos.cells, want);
    lemma_first_inconsistent(pos.cells, pos.levels, 0);
    if exact_for(pos.cells, pos.levels, PLAYER_0_MARK) && exact_for(
        pos.cells,
        pos.levels,
        PLAYER_1_MARK,
    ) {
        assert forall|j: int| 0 <= j < HW && is_player(#[trigger] pos.cells[j]) implies pos.levels[j]
            == derived_level(pos.cells, pos.levels, pos.cells[j], j) by {
            let p = pos.cells[j];
            assert(mark(pos.cells, p, j));
            lemma_exact_consistent(pos.cells, pos.levels, p, j);
        }
    }
    if first_inconsistent(pos.cells, pos.levels, 0) is None {
        assert forall|j: int| #[trigger] mark(pos.cells, PLAYER_0_MARK, j) implies pos.levels[j]
            == derived_level(pos.cells, pos.levels, PLAYER_0_MARK, j) by {
            assert(is_player(pos.cells[j]));
        }
        assert forall|j: int| #[trigger] mark(pos.cells, PLAYER_1_MARK, j) implies pos.levels[j]
            == derived_level(pos.cells, pos.levels, PLAYER_1_MARK, j) by {
            assert(is_player(pos.cells[j]));
        }
        lemma_consistent_exact(pos.cells, pos.levels, PLAYER_0_MARK);
        lemma_consistent_exact(pos.cells, pos.levels, PLAYER_1_MARK);
    }
}

proof fn lemma_first_fault(b: &IncrementalGame, g: int)
    requires
        b.shaped(),
        0 <= g <= b.n,
    ensures
        b.first_fault(g) is None <==> forall|h: int|
            g <= h < b.n ==> (#[trigger] b.position(h)).sane(),
    decreases b.n - g,
{
    if g < b.n {
        lemma_game_fault(b, g);
        lemma_first_fault(b, g + 1);
    }
}

/// A game whose levels, scores, mask and finished flag are those of its board is sane.
pub proof fn lemma_tidy_sane(pos: Position)
    requires
        pos.scored(),
        pos.tidy(),
    ensures
        pos.sane(),
{
    lemma_tidy_scanned(pos);
    lemma_players(pos.cells, pos.levels);
}

/// The exact mask of a board on which only even squares are playable is the scanned one.
proof fn lemma_tidy_scanned(pos: Position)
    requires
        pos.cells.len() == HW,
        pos.tidy(),
    ensures
        scanned(pos.cells, pos.words),
{
    assert forall|k: int| 0 <= k < 128 implies (#[trigger] holds(pos.words, k) <==> k < SQUARES && (
    pos.cells[2 * k] == PLAYABLE_SQUARE || pos.cells[2 * k + 1] == PLAYABLE_SQUARE)) by {
        if k < SQUARES {
            lemma_cell_of(k);
            lemma_bit_of(2 * k);
            lemma_bit_of(2 * k + 1);
            assert((2 * k) / 2 == k && (2 * k + 1) / 2 == k);
            assert(pos.cells[2 * k] == PLAYABLE_SQUARE ==> even_square(2 * k));
            assert(pos.cells[2 * k + 1] == PLAYABLE_SQUARE ==> even_square(2 * k + 1));
        }
    }
}

} // verus!
