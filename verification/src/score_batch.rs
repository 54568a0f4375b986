//! Single-threaded random games for the score demo. No search or inference.
use vstd::prelude::*;

use crate::balance::{
    count_of, halved, lemma_move_takes, lemma_open_squares, lemma_score_halved, opening,
};
use crate::board::{HW, PLAYABLE_SQUARE, PLAYER_0_MARK, PLAYER_1_MARK, SQUARES};
use crate::game::{
    lemma_has_move, lemma_open_one, moves_open_on, nth_move_on, squares_of, Game, Rng, Scratch,
};
use crate::legal::{cell_of, lemma_cell_of};
use crate::moves::moved;
use crate::rng::{bounded_draw, seeded};

verus! {

/// A game that began in the opening position: its derived state agrees with its board, as
/// long as nothing was played the board is the opening position, and every move took a
/// playable square.
pub open spec fn from_opening(g: Game) -> bool {
    &&& g.wf()
    &&& halved(g.cells@)
    &&& g.move_count == 0 ==> g.cells@ == opening()
    &&& g.move_count + count_of(g.cells@, PLAYABLE_SQUARE) <= SQUARES
}

/// The board a slot's next move is played on: a finished game starts over.
pub open spec fn start_cells(g: Game) -> Seq<i8> {
    if g.finished {
        opening()
    } else {
        g.cells@
    }
}

/// Is a slot's next move an opening move?
pub open spec fn start_first(g: Game) -> bool {
    g.finished || g.move_count == 0
}

/// The two draws a slot's next move makes from generator state `st`: which of its open
/// squares each player takes, and the state left.
pub open spec fn draws(g: Game, st: Seq<u64>) -> (int, int, Seq<u64>) {
    let first = bounded_draw(
        st,
        moves_open_on(start_cells(g), start_first(g), 0) as u64,
        u64::MAX as nat,
    );
    let second = bounded_draw(
        first.1,
        moves_open_on(start_cells(g), start_first(g), 1) as u64,
        u64::MAX as nat,
    );
    (first.0, second.0, second.1)
}

/// How many moves a slot's game has after its next move.
pub open spec fn moves_then(g: Game) -> int {
    if g.finished {
        1
    } else {
        g.move_count + 1
    }
}

/// The generator's state after the first `n` slots have moved.
pub open spec fn state_after(games: Seq<Game>, st: Seq<u64>, n: nat) -> Seq<u64>
    decreases n,
{
    if n == 0 {
        st
    } else {
        draws(games[n - 1], state_after(games, st, (n - 1) as nat)).2
    }
}

/// The board of slot `g` after its next move, drawn from generator state `st`.
pub open spec fn played(g: Game, st: Seq<u64>) -> Seq<i8> {
    let d = draws(g, st);
    moved(
        start_cells(g),
        nth_move_on(start_cells(g), start_first(g), 0, d.0),
        nth_move_on(start_cells(g), start_first(g), 1, d.1),
    )
}

/// How many of the first `n` games are finished.
pub open spec fn finished_below(games: Seq<Game>, n: nat) -> nat
    decreases n,
{
    if n == 0 {
        0
    } else {
        finished_below(games, (n - 1) as nat) + (if games[n - 1].finished {
            1nat
        } else {
            0
        })
    }
}

/// A game from the opening that is not finished has a move for each player.
pub proof fn lemma_both_can_move(g: Game)
    requires
        from_opening(g),
        !g.finished,
    ensures
        g.moves_open(0) > 0,
        g.moves_open(1) > 0,
        g.move_count < SQUARES,
{
    if g.move_count == 0 {
        // bit 0 is the left corner square, bit 4 the first square of the right half
        lemma_cell_of(0);
        lemma_cell_of(4);
        lemma_open_one(g.cells@, true, 0, 0);
        lemma_open_one(g.cells@, true, 1, 4);
    } else {
        lemma_has_move(g.cells@, 0);
        lemma_has_move(g.cells@, 1);
    }
    let i = choose|i: int| 0 <= i < HW && #[trigger] g.cells@[i] == PLAYABLE_SQUARE;
    let f = |j: int| crate::balance::holding(g.cells@, PLAYABLE_SQUARE, j);
    crate::sums::lemma_sum_nonneg(f, HW as nat);
    assert(f(i) == 1);
}

/// A batch of games that play themselves at random, started over as they finish.
pub struct ScoreBatch {
    pub games: Vec<Game>,
    pub rng: Rng,
    pub scratch: Scratch,
}

impl ScoreBatch {
    pub open spec fn wf(&self) -> bool {
        &&& self.scratch.wf()
        &&& forall|i: int| 0 <= i < self.games@.len() ==> from_opening(#[trigger] self.games@[i])
    }

    pub fn new(batch: usize, seed: u64) -> (b: Self)
        requires
            batch > 0,
        ensures
            b.wf(),
            b.games@.len() == batch,
            forall|i: int|
                0 <= i < batch ==> (#[trigger] b.games@[i]).cells@ == opening()
                    && b.games@[i].move_count == 0,
            b.rng.state() == seeded(seed),
    {
        let mut games: Vec<Game> = Vec::new();
        let mut i: usize = 0;
        while i < batch
            invariant
                i <= batch,
                games@.len() == i,
                forall|j: int|
                    0 <= j < i ==> {
                        &&& from_opening(#[trigger] games@[j])
                        &&& games@[j].cells@ == opening()
                        &&& games@[j].move_count == 0
                    },
            decreases batch - i,
        {
            let g = Game::new();
            proof {
                lemma_open_squares(g.cells@);
            }
            games.push(g);
            i = i + 1;
        }
        ScoreBatch { games, rng: Rng::new(seed), scratch: Scratch::new() }
    }

    /// Play one random move in one slot, starting a finished game over.
    fn step_slot(&mut self, i: usize)
        requires
            old(self).wf(),
            i < old(self).games@.len(),
        ensures
            final(self).wf(),
            final(self).games@.len() == old(self).games@.len(),
            forall|j: int|
                0 <= j < old(self).games@.len() && j != i ==> #[trigger] final(self).games@[j]
                    == old(self).games@[j],
            final(self).games@[i as int].cells@ == played(
                old(self).games@[i as int],
                old(self).rng.state(),
            ),
            final(self).games@[i as int].move_count == moves_then(old(self).games@[i as int]),
            final(self).rng.state() == draws(
                old(self).games@[i as int],
                old(self).rng.state(),
            ).2,
    {
        let mut g = if self.games[i].finished {
            Game::new()
        } else {
            self.games[i].clone()
        };
        let ghost before = g;
        proof {
            assert(from_opening(self.games@[i as int]));
            if self.games@[i as int].finished {
                lemma_open_squares(g.cells@);
            }
            lemma_both_can_move(g);
        }
        g.uniform_step(&mut self.rng, &mut self.scratch);
        proof {
            let d = draws(old(self).games@[i as int], old(self).rng.state());
            let i0 = before.nth_move(0, d.0);
            let i1 = before.nth_move(1, d.1);
            lemma_move_takes(before.cells@, i0, i1);
        }
        self.games.set(i, g);
        assert forall|j: int| 0 <= j < self.games@.len() implies from_opening(
            #[trigger] self.games@[j],
        ) by {
            if j != i {
                assert(from_opening(old(self).games@[j]));
            }
        }
    }

    /// Return post-move boards, including terminal boards exactly once. A finished slot starts
    /// a new game on the next call. Both players sample independently and uniformly from their
    /// pre-move legal set. Returns how many games are finished.
    pub fn step(&mut self, cells: &mut [u8], scores: &mut [i64]) -> (finished: u64)
        requires
            old(self).wf(),
            old(cells)@.len() == old(self).games@.len() * SQUARES,
            old(scores)@.len() == old(self).games@.len() * 2,
        ensures
            final(self).wf(),
            final(self).games@.len() == old(self).games@.len(),
            forall|i: int|
                0 <= i < old(self).games@.len() ==> (#[trigger] final(self).games@[i]).cells@
                    == played(
                    old(self).games@[i],
                    state_after(old(self).games@, old(self).rng.state(), i as nat),
                ),
            final(self).rng.state() == state_after(
                old(self).games@,
                old(self).rng.state(),
                old(self).games@.len(),
            ),
            final(cells)@.len() == old(cells)@.len(),
            final(scores)@.len() == old(scores)@.len(),
            forall|i: int| #![trigger final(self).games@[i]]
                0 <= i < old(self).games@.len() ==> shown(
                    final(self).games@[i],
                    i,
                    final(cells)@,
                    final(scores)@,
                ),
            forall|i: int|
                0 <= i < old(self).games@.len() ==> (#[trigger] final(self).games@[i]).move_count
                    == moves_then(old(self).games@[i]),
            finished == finished_below(final(self).games@, final(self).games@.len()),
    {
        let n: usize = self.games.len();
        let mut finished: u64 = 0;
        let mut i: usize = 0;
        while i < n
            invariant
                i <= n,
                n == self.games@.len(),
                self.games@.len() == old(self).games@.len(),
                self.wf(),
                cells@.len() == n * SQUARES,
                scores@.len() == n * 2,
                forall|j: int| i <= j < n ==> #[trigger] self.games@[j] == old(self).games@[j],
                forall|j: int|
                    0 <= j < i ==> (#[trigger] self.games@[j]).cells@ == played(
                        old(self).games@[j],
                        state_after(old(self).games@, old(self).rng.state(), j as nat),
                    ),
                self.rng.state() == state_after(
                    old(self).games@,
                    old(self).rng.state(),
                    i as nat,
                ),
                forall|j: int|
                    0 <= j < i ==> shown(#[trigger] self.games@[j], j, cells@, scores@),
                forall|j: int|
                    0 <= j < i ==> (#[trigger] self.games@[j]).move_count == moves_then(
                        old(self).games@[j],
                    ),
                finished == finished_below(self.games@, i as nat),
                finished <= i,
            decreases n - i,
        {
            let ghost games0 = self.games@;
            self.step_slot(i);
            let ghost c0 = cells@;
            let ghost s0 = scores@;
            let squares: [i8; SQUARES] = self.games[i].squares();
            write_squares(cells, i, squares);
            let size: usize = scores.len();
            assert(2 * i + 1 < size);
            scores[2 * i] = self.games[i].scores[0] as i64;
            scores[2 * i + 1] = self.games[i].scores[1] as i64;
            proof {
                let g = self.games@[i as int];
                assert(from_opening(g));
                lemma_score_halved(g.cells@, g.levels@, PLAYER_0_MARK);
                lemma_score_halved(g.cells@, g.levels@, PLAYER_1_MARK);
                assert forall|j: int| 0 <= j < i + 1 implies shown(
                    #[trigger] self.games@[j],
                    j,
                    cells@,
                    scores@,
                ) by {
                    if j < i {
                        assert(self.games@[j] == games0[j]);
                        assert(shown(games0[j], j, c0, s0));
                        assert forall|k: int| 0 <= k < SQUARES implies #[trigger] cells@[j * 80 + k]
                            == games0[j].cells@[cell_of(k)] as u8 by {
                            assert(c0[j * 80 + k] == games0[j].cells@[cell_of(k)] as u8);
                        }
                    } else {
                        assert forall|k: int| 0 <= k < SQUARES implies #[trigger] cells@[j * 80 + k]
                            == g.cells@[cell_of(k)] as u8 by {
                            assert(squares@[k] == squares_of(g.cells@)[k]);
                        }
                    }
                }
                lemma_finished_same(games0, self.games@, i as nat);
            }
            if self.games[i].finished {
                finished = finished + 1;
            }
            i = i + 1;
        }
        finished
    }
}

/// The board and scores that [`ScoreBatch::step`] returns for game `i`.
pub open spec fn shown(g: Game, i: int, cells: Seq<u8>, scores: Seq<i64>) -> bool {
    &&& forall|k: int|
        0 <= k < SQUARES ==> #[trigger] cells[i * 80 + k] == g.cells@[cell_of(k)] as u8
    &&& scores[2 * i] == g.scores@[0]
    &&& scores[2 * i + 1] == g.scores@[1]
    &&& 0 <= g.scores@[0] <= 80
    &&& 0 <= g.scores@[1] <= 80
}

proof fn lemma_finished_same(a: Seq<Game>, b: Seq<Game>, n: nat)
    requires
        forall|j: int| 0 <= j < n ==> #[trigger] a[j] == b[j],
    ensures
        finished_below(a, n) == finished_below(b, n),
    decreases n,
{
    if n > 0 {
        lemma_finished_same(a, b, (n - 1) as nat);
        assert(a[n - 1] == b[n - 1]);
    }
}

/// Write one game's squares into a batch.
fn write_squares(out: &mut [u8], i: usize, squares: [i8; SQUARES])
    requires
        i * 80 + 80 <= old(out)@.len(),
    ensures
        final(out)@.len() == old(out)@.len(),
        forall|j: int|
            0 <= j < old(out)@.len() ==> #[trigger] final(out)@[j] == (if i * 80 <= j < i * 80
                + 80 {
                squares@[j - i * 80] as u8
            } else {
                old(out)@[j]
            }),
{
    let size: usize = out.len();
    assert(i * 80 + 80 <= size);
    let base: usize = i * SQUARES;
    let mut k: usize = 0;
    while k < SQUARES
        invariant
            k <= SQUARES,
            base == i * 80,
            base + 80 <= out@.len(),
            out@.len() <= usize::MAX,
            out@.len() == old(out)@.len(),
            forall|j: int|
                0 <= j < old(out)@.len() ==> #[trigger] out@[j] == (if base <= j < base + k {
                    squares@[j - base] as u8
                } else {
                    old(out)@[j]
                }),
        decreases SQUARES - k,
    {
        out[base + k] = squares[k] as u8;
        k = k + 1;
    }
}

} // verus!
