//! Drawing moves from a weight per square.
//!
//! The draw is by inverse distribution: a threshold below the sum of the weights, and the
//! first square, in board order, at which the running sum comes to it. The sums are the
//! caller's, behind [`Weights`]; what is here is which squares are asked about, in what order,
//! and what the answers come to, the degenerate answers included.
use vstd::prelude::*;

use crate::board::{HW, WIDTH};
use crate::game::{lemma_moves_open, Game};
use crate::incremental::{
    applicable, batch_stats, lemma_batch_stats, lemma_step_tidy, square_at, squares_at, whole,
    IncrementalGame,
};
use crate::legal::{
    cell_of, count_below, holds, in_half, legal_cell, lemma_cell_of, narrow, test_bit, LEGAL_WORDS,
};
use crate::moves::moved;
use crate::rng::{bounded_draw, Rng};
use crate::scratch::Scratch;
use crate::tally::move_stats;

verus! {

/// A weight for each square of each game.
pub trait Weights {
    /// The state of a walk over some squares.
    type Scan;

    /// Begin to draw among the squares of a mask. `None` where they carry no weight.
    fn open(&self, game: usize, legal: [u64; LEGAL_WORDS], rng: Rng) -> (Option<Self::Scan>, Rng);

    /// Add the weight of the next square, as a board index: does the running sum come to the
    /// threshold?
    fn reaches(&self, scan: Self::Scan, game: usize, cell: usize) -> (Self::Scan, bool);
}

/// Is there a favourable verdict?
pub open spec fn any_reached(verdicts: Seq<bool>) -> bool {
    exists|b: int| 0 <= b < 128 && #[trigger] verdicts[b]
}

/// The first square at which the threshold is reached, by the verdicts on the squares, as a
/// board index.
pub open spec fn is_reached(verdicts: Seq<bool>, cell: int) -> bool {
    exists|b: int|
        0 <= b < 128 && #[trigger] verdicts[b] && cell == cell_of(b) && forall|j: int|
            0 <= j < b ==> !#[trigger] verdicts[j]
}

/// The first square at which the threshold is reached, as a board index.
pub fn reached(verdicts: &Vec<bool>) -> (r: Option<usize>)
    requires
        verdicts@.len() == 128,
    ensures
        r is None <==> !any_reached(verdicts@),
        r matches Some(cell) ==> is_reached(verdicts@, cell as int),
{
    let mut b: usize = 0;
    while b < 128
        invariant
            b <= 128,
            verdicts@.len() == 128,
            forall|j: int| 0 <= j < b ==> !#[trigger] verdicts@[j],
        decreases 128 - b,
    {
        if verdicts[b] {
            assert(verdicts@[b as int]);
            return Some(legal_cell(b));
        }
        b = b + 1;
    }
    None
}

/// What a walk over the squares of a mask does at square `k`: the weight of a square on the
/// mask is added, and any other is passed over.
pub open spec fn summed<W: Weights>(
    weights: W,
    game: usize,
    legal: Seq<u64>,
    scans: Seq<W::Scan>,
    verdicts: Seq<bool>,
    k: int,
) -> bool {
    if holds(legal, k) {
        call_ensures(
            W::reaches,
            (&weights, scans[k], game, cell_of(k) as usize),
            (scans[k + 1], verdicts[k]),
        )
    } else {
        scans[k + 1] == scans[k] && !verdicts[k]
    }
}

/// The verdicts on the squares of a mask, by a given walk: `scans[k]` is its state before
/// square `k`.
pub open spec fn asked_by<W: Weights>(
    weights: W,
    game: usize,
    legal: [u64; LEGAL_WORDS],
    rngs: (Rng, Rng),
    verdicts: Seq<bool>,
    scans: Seq<W::Scan>,
) -> bool {
    &&& scans.len() == 129
    &&& verdicts.len() == 128
    &&& call_ensures(W::open, (&weights, game, legal, rngs.0), (Some(scans[0]), rngs.1))
    &&& forall|k: int|
        0 <= k < 128 ==> #[trigger] summed(weights, game, legal@, scans, verdicts, k)
}

/// The verdicts on the squares of a mask, in board order, or none at all where the squares
/// carry no weight. `rngs` is the generator before and after.
pub open spec fn asked<W: Weights>(
    weights: W,
    game: usize,
    legal: [u64; LEGAL_WORDS],
    rngs: (Rng, Rng),
    verdicts: Option<Vec<bool>>,
) -> bool {
    match verdicts {
        None => call_ensures(
            W::open,
            (&weights, game, legal, rngs.0),
            (None::<W::Scan>, rngs.1),
        ),
        Some(v) => exists|scans: Seq<W::Scan>| #[trigger]
            asked_by(weights, game, legal, rngs, v@, scans),
    }
}

/// Verdicts on the squares of a mask: a square off it has no favourable one.
pub open spec fn on_mask(legal: Seq<u64>, verdicts: Option<Vec<bool>>) -> bool {
    verdicts matches Some(v) ==> v@.len() == 128 && forall|k: int|
        0 <= k < 128 && #[trigger] v@[k] ==> holds(legal, k)
}

/// Ask for the verdicts on the squares of a mask, in board order: one for each, or none at all
/// where the squares carry no weight.
fn ask<W: Weights>(weights: &W, game: usize, legal: [u64; LEGAL_WORDS], rng: &mut Rng) -> (r:
    Option<Vec<bool>>)
    requires
        forall|k: int| 80 <= k < 128 ==> !#[trigger] holds(legal@, k),
    ensures
        asked(*weights, game, legal, (*old(rng), *final(rng)), r),
        on_mask(legal@, r),
{
    let ghost before = *rng;
    let (opened, next) = weights.open(game, legal, rng.clone());
    *rng = next;
    match opened {
        None => None,
        Some(first) => {
            let mut scan = first;
            let ghost mut scans: Seq<W::Scan> = seq![scan];
            let mut verdicts: Vec<bool> = Vec::new();
            let mut k: usize = 0;
            while k < 128
                invariant
                    k <= 128,
                    forall|j: int| 80 <= j < 128 ==> !#[trigger] holds(legal@, j),
                    verdicts@.len() == k,
                    scans.len() == k + 1,
                    call_ensures(
                        W::open,
                        (weights, game, legal, before),
                        (Some(scans[0]), next),
                    ),
                    scans[k as int] == scan,
                    forall|j: int|
                        0 <= j < k ==> #[trigger] summed(
                            *weights,
                            game,
                            legal@,
                            scans,
                            verdicts@,
                            j,
                        ),
                    forall|j: int| 0 <= j < k && #[trigger] verdicts@[j] ==> holds(legal@, j),
                decreases 128 - k,
            {
                let ghost s0 = scans;
                let ghost v0 = verdicts@;
                if test_bit(legal, k) {
                    proof {
                        assert(k < 80);
                        lemma_cell_of(k as int);
                    }
                    let (new_scan, verdict) = weights.reaches(scan, game, legal_cell(k));
                    scan = new_scan;
                    verdicts.push(verdict);
                } else {
                    verdicts.push(false);
                }
                proof {
                    scans = scans.push(scan);
                    assert forall|j: int| 0 <= j < k + 1 implies #[trigger] summed(
                        *weights,
                        game,
                        legal@,
                        scans,
                        verdicts@,
                        j,
                    ) by {
                        if j < k {
                            assert(summed(*weights, game, legal@, s0, v0, j));
                        }
                    }
                }
                k = k + 1;
            }
            let r: Option<Vec<bool>> = Some(verdicts);
            assert(asked_by(*weights, game, legal, (before, next), r->0@, scans));
            assert(asked(*weights, game, legal, (before, next), r));
            r
        },
    }
}

/// Rows and columns as board indices.
pub open spec fn cells_at(rows: Seq<i64>, cols: Seq<i64>) -> Seq<int> {
    Seq::new(rows.len(), |g: int| rows[g] * 16 + cols[g])
}

/// Board indices as integers.
pub open spec fn cells_of(idx: Seq<i64>) -> Seq<int> {
    idx.map_values(|i: i64| i as int)
}

/// Does a set of verdicts name a square?
pub open spec fn decided(verdicts: Option<Vec<bool>>) -> bool {
    verdicts matches Some(v) && any_reached(v@)
}

/// The move the verdicts on the squares of a mask come to: the first square at which the
/// threshold is reached, and a uniform draw over the mask where there is none. `rngs` is the
/// generator before and after.
pub open spec fn comes_to(
    legal: Seq<u64>,
    verdicts: Option<Vec<bool>>,
    rngs: (Rng, Rng),
    i: int,
) -> bool {
    if decided(verdicts) {
        is_reached(verdicts->0@, i) && rngs.1 == rngs.0
    } else {
        let draw = bounded_draw(
            rngs.0.state(),
            count_below(legal, 128) as u64,
            u64::MAX as nat,
        );
        &&& rngs.1.state() == draw.1
        &&& exists|b: int|
            0 <= b < 128 && i == cell_of(b) && #[trigger] holds(legal, b) && count_below(
                legal,
                b as nat,
            ) == draw.0
    }
}

impl Game {
    /// The move the verdicts on the squares of a mask come to: the first square at which the
    /// threshold is reached, and a uniform draw over the mask where the squares carry no
    /// weight or rounding has put the threshold past the whole sum.
    pub fn sampled(legal: [u64; LEGAL_WORDS], verdicts: &Option<Vec<bool>>, rng: &mut Rng) -> (i:
        usize)
        requires
            count_below(legal@, 128) > 0,
            on_mask(legal@, *verdicts),
        ensures
            exists|b: int| 0 <= b < 128 && i == cell_of(b) && #[trigger] holds(legal@, b),
            comes_to(legal@, *verdicts, (*old(rng), *final(rng)), i as int),
    {
        if let Some(v) = verdicts {
            if let Some(cell) = reached(v) {
                proof {
                    let b = choose|b: int|
                        0 <= b < 128 && #[trigger] v@[b] && cell == cell_of(b) && forall|j: int|
                            0 <= j < b ==> !#[trigger] v@[j];
                    assert(holds(legal@, b));
                    assert(any_reached(v@));
                }
                return cell;
            }
        }
        Self::uniform(legal, rng)
    }

    /// The draw of a move for `player`, by a given mask and the verdicts on its squares, which
    /// leave the generator at `mid`.
    pub open spec fn samples_by<W: Weights>(
        &self,
        weights: W,
        player: int,
        rngs: (Rng, Rng),
        i: int,
        legal: [u64; LEGAL_WORDS],
        verdicts: Option<Vec<bool>>,
        mid: Rng,
    ) -> bool {
        &&& self.is_mask(legal@, player)
        &&& asked(weights, 0, legal, (rngs.0, mid), verdicts)
        &&& comes_to(legal@, verdicts, (mid, rngs.1), i)
    }

    /// The draw of a move for `player`: the weights are asked about the squares the player may
    /// play, and the move is the one their verdicts come to.
    pub open spec fn samples<W: Weights>(
        &self,
        weights: W,
        player: int,
        rngs: (Rng, Rng),
        i: int,
    ) -> bool {
        exists|legal: [u64; LEGAL_WORDS], verdicts: Option<Vec<bool>>, mid: Rng| #[trigger]
            self.samples_by(weights, player, rngs, i, legal, verdicts, mid)
    }

    /// Draw one legal move for `player`, weighting each square. Weights need not sum to one;
    /// where there is none, the draw is uniform over the legal squares. The move is the one
    /// [`Self::sampled`] gives for the verdicts of the weights.
    pub fn sample<W: Weights>(&self, weights: &W, player: usize, rng: &mut Rng) -> (i: usize)
        requires
            self.wf(),
            self.moves_open(player as int) > 0,
        ensures
            self.may_play(i as int, player as int),
            self.samples(*weights, player as int, (*old(rng), *final(rng)), i as int),
    {
        let ghost before = *rng;
        let w: [u64; LEGAL_WORDS] = self.legal_moves(player);
        proof {
            lemma_moves_open(self.cells@, self.move_count == 0, player as int, w@);
        }
        let verdicts = ask(weights, 0, w, rng);
        let ghost mid = *rng;
        let i: usize = Self::sampled(w, &verdicts, rng);
        proof {
            let b = choose|b: int| 0 <= b < 128 && i == cell_of(b) && #[trigger] holds(w@, b);
            assert(holds(w@, b));
            assert(self.samples_by(
                *weights,
                player as int,
                (before, *rng),
                i as int,
                w,
                verdicts,
                mid,
            ));
        }
        i
    }

    /// `after` is this game after the moves `i0` and `i1`, both legal here.
    pub open spec fn plays(&self, after: &Game, i0: int, i1: int) -> bool {
        &&& self.may_play(i0, 0)
        &&& self.may_play(i1, 1)
        &&& after.cells@ == moved(self.cells@, i0, i1)
    }

    /// Play one move drawn from a weight per square for each player, player 0's first. The
    /// other way in besides [`Self::action_step`]; they differ only in where the moves come
    /// from.
    pub fn distribution_step<W: Weights>(
        &mut self,
        first: &W,
        second: &W,
        rng: &mut Rng,
        s: &mut Scratch,
    )
        requires
            old(self).wf(),
            old(self).moves_open(0) > 0,
            old(self).moves_open(1) > 0,
            old(self).move_count < u32::MAX,
            old(s).wf(),
        ensures
            exists|i0: int, i1: int, mid: Rng|
                {
                    &&& #[trigger] old(self).plays(final(self), i0, i1)
                    &&& final(s).counters() == move_stats(
                        old(s).counters(),
                        old(self).cells@,
                        i0,
                        i1,
                        old(s).rebuilds(),
                    )
                    &&& #[trigger] old(self).samples(*first, 0, (*old(rng), mid), i0)
                    &&& old(self).samples(*second, 1, (mid, *final(rng)), i1)
                },
            final(self).wf(),
            final(self).move_count == old(self).move_count + 1,
            final(s).wf(),
            final(s).same_settings(old(s)),
    {
        let ghost r0 = *rng;
        let i0: usize = self.sample(first, 0, rng);
        let ghost mid = *rng;
        let i1: usize = self.sample(second, 1, rng);
        self.action_step(i0, i1, s);
        assert(old(self).plays(self, i0 as int, i1 as int));
        assert(old(self).samples(*first, 0, (r0, mid), i0 as int));
    }
}

impl IncrementalGame {
    /// The squares of game `g` that `player` may play, as a mask.
    fn open_to(&self, g: usize, player: usize) -> (w: [u64; LEGAL_WORDS])
        requires
            self.shaped(),
            g < self.n,
        ensures
            self.narrowed(g as int, player as int, w@),
    {
        narrow(self.legal_bits(g), self.move_counts[g] == 0, player)
    }

    /// The mask of the squares of game `g` that are playable and, on the opening move, in the
    /// player's half.
    pub open spec fn narrowed(&self, g: int, player: int, w: Seq<u64>) -> bool {
        forall|k: int|
            0 <= k < 128 ==> (#[trigger] holds(w, k) <==> holds(self.position(g).words, k) && k
                < 80 && in_half(k, player, self.move_counts@[g] == 0))
    }

    /// The square the verdicts come to: the first at which the threshold is reached, square 0
    /// where there is none, and a draw over the whole board where the squares carry no weight.
    /// `rngs` is the generator before and after.
    pub open spec fn cell_of_verdicts(
        verdicts: Option<Vec<bool>>,
        rngs: (Rng, Rng),
        i: int,
    ) -> bool {
        match verdicts {
            None => (i, rngs.1.state()) == bounded_draw(rngs.0.state(), 160, u64::MAX as nat),
            Some(v) => rngs.1 == rngs.0 && if any_reached(v@) {
                is_reached(v@, i)
            } else {
                i == 0
            },
        }
    }

    /// The square the verdicts on the squares of a mask come to: the first at which the
    /// threshold is reached, square 0 where rounding has put the threshold past the whole
    /// sum, and a draw over the whole board where the squares carry no weight.
    ///
    /// That last draw is not confined to the mask, so what comes of it may not be a legal
    /// move.
    pub fn sampled_cell(legal: [u64; LEGAL_WORDS], verdicts: &Option<Vec<bool>>, rng: &mut Rng) -> (i:
        usize)
        requires
            on_mask(legal@, *verdicts),
            forall|k: int| 80 <= k < 128 ==> !#[trigger] holds(legal@, k),
        ensures
            i < HW,
            Self::cell_of_verdicts(*verdicts, (*old(rng), *final(rng)), i as int),
    {
        match verdicts {
            None => rng.randint(160) as usize,
            Some(v) => match reached(v) {
                None => 0,
                Some(cell) => {
                    proof {
                        let b = choose|b: int|
                            0 <= b < 128 && #[trigger] v@[b] && cell == cell_of(b) && forall|
                                j: int,
                            |
                                0 <= j < b ==> !#[trigger] v@[j];
                        assert(holds(legal@, b));
                        lemma_cell_of(b);
                        assert(any_reached(v@));
                    }
                    cell
                },
            },
        }
    }

    /// The draw of a square of game `g` for `player`, by a given mask and the verdicts on its
    /// squares, which leave the generator at `mid`.
    pub open spec fn draws_cell_by<W: Weights>(
        &self,
        weights: W,
        g: int,
        player: int,
        rngs: (Rng, Rng),
        i: int,
        legal: [u64; LEGAL_WORDS],
        verdicts: Option<Vec<bool>>,
        mid: Rng,
    ) -> bool {
        &&& self.narrowed(g, player, legal@)
        &&& asked(weights, g as usize, legal, (rngs.0, mid), verdicts)
        &&& Self::cell_of_verdicts(verdicts, (mid, rngs.1), i)
    }

    /// The draw of a square of game `g` for `player`: the weights are asked about the squares
    /// the player may play, and the square is the one their verdicts come to.
    pub open spec fn draws_cell<W: Weights>(
        &self,
        weights: W,
        g: int,
        player: int,
        rngs: (Rng, Rng),
        i: int,
    ) -> bool {
        exists|legal: [u64; LEGAL_WORDS], verdicts: Option<Vec<bool>>, mid: Rng| #[trigger]
            self.draws_cell_by(weights, g, player, rngs, i, legal, verdicts, mid)
    }

    /// What drawing squares for all games does at game `g`: one is drawn where the game is
    /// active, and else it is square 0. `rngs[g]` is the generator before it.
    pub open spec fn draws_at<W: Weights>(
        &self,
        weights: W,
        player: int,
        active: Seq<bool>,
        cells: Seq<int>,
        rngs: Seq<Rng>,
        g: int,
    ) -> bool {
        if active[g] {
            self.draws_cell(weights, g, player, (rngs[g], rngs[g + 1]), cells[g])
        } else {
            cells[g] == 0 && rngs[g + 1] == rngs[g]
        }
    }

    /// Squares drawn for all active games, one game after the other.
    pub open spec fn draws_all<W: Weights>(
        &self,
        weights: W,
        player: int,
        active: Seq<bool>,
        cells: Seq<int>,
        rngs: Seq<Rng>,
    ) -> bool {
        &&& rngs.len() == self.n + 1
        &&& forall|g: int|
            0 <= g < self.n ==> #[trigger] self.draws_at(weights, player, active, cells, rngs, g)
    }

    /// Draw one move per active game for `player`, without applying it, as rows and columns.
    /// A game that is not active gets row 0 and column 0. The square of an active one is what
    /// [`Self::sampled_cell`] gives for the verdicts of the weights.
    pub fn sample_moves<W: Weights>(
        &mut self,
        weights: &W,
        player: usize,
        active: &[bool],
        r_out: &mut [i64],
        c_out: &mut [i64],
    )
        requires
            old(self).shaped(),
            active@.len() >= old(self).n,
            old(r_out)@.len() >= old(self).n,
            old(c_out)@.len() >= old(self).n,
        ensures
            *final(self) == (IncrementalGame { rng: final(self).rng, ..*old(self) }),
            final(r_out)@.len() == old(r_out)@.len(),
            final(c_out)@.len() == old(c_out)@.len(),
            forall|g: int|
                0 <= g < old(self).n ==> 0 <= #[trigger] final(r_out)@[g] < 10,
            forall|g: int|
                0 <= g < old(self).n ==> 0 <= #[trigger] final(c_out)@[g] < 16,
            forall|g: int|
                0 <= g < old(self).n && !active@[g] ==> #[trigger] final(r_out)@[g] == 0,
            forall|g: int|
                0 <= g < old(self).n && !active@[g] ==> #[trigger] final(c_out)@[g] == 0,
            final(r_out)@.skip(old(self).n as int) == old(r_out)@.skip(old(self).n as int),
            final(c_out)@.skip(old(self).n as int) == old(c_out)@.skip(old(self).n as int),
            exists|rngs: Seq<Rng>| #[trigger]
                old(self).draws_all(
                    *weights,
                    player as int,
                    active@,
                    cells_at(final(r_out)@, final(c_out)@),
                    rngs,
                ) && rngs[0] == old(self).rng && rngs.last() == final(self).rng,
    {
        let n: usize = self.n;
        let ghost s0 = *self;
        let ghost mut rngs: Seq<Rng> = seq![self.rng];
        let mut g: usize = 0;
        while g < n
            invariant
                g <= n,
                n == old(self).n,
                s0 == *old(self),
                rngs.len() == g + 1,
                rngs[0] == s0.rng,
                rngs[g as int] == self.rng,
                forall|h: int|
                    0 <= h < g ==> #[trigger] s0.draws_at(
                        *weights,
                        player as int,
                        active@,
                        cells_at(r_out@, c_out@),
                        rngs,
                        h,
                    ),
                self.shaped(),
                *self == (IncrementalGame { rng: self.rng, ..*old(self) }),
                active@.len() >= n,
                r_out@.len() == old(r_out)@.len(),
                c_out@.len() == old(c_out)@.len(),
                r_out@.len() >= n,
                c_out@.len() >= n,
                forall|h: int| 0 <= h < g ==> 0 <= #[trigger] r_out@[h] < 10,
                forall|h: int| 0 <= h < g ==> 0 <= #[trigger] c_out@[h] < 16,
                forall|h: int| 0 <= h < g && !active@[h] ==> #[trigger] r_out@[h] == 0,
                forall|h: int| 0 <= h < g && !active@[h] ==> #[trigger] c_out@[h] == 0,
                r_out@.skip(n as int) == old(r_out)@.skip(n as int),
                c_out@.skip(n as int) == old(c_out)@.skip(n as int),
            decreases n - g,
        {
            let mut cell: usize = 0;
            let ghost before = self.rng;
            if active[g] {
                let w: [u64; LEGAL_WORDS] = self.open_to(g, player);
                let verdicts = ask(weights, g, w, &mut self.rng);
                let ghost mid = self.rng;
                cell = Self::sampled_cell(w, &verdicts, &mut self.rng);
                proof {
                    lemma_same_positions(s0, *self);
                    assert(self.position(g as int) == s0.position(g as int));
                    assert(s0.draws_cell_by(
                        *weights,
                        g as int,
                        player as int,
                        (before, self.rng),
                        cell as int,
                        w,
                        verdicts,
                        mid,
                    ));
                }
            }
            let ghost r0 = r_out@;
            let ghost c0 = c_out@;
            r_out[g] = (cell / WIDTH) as i64;
            c_out[g] = (cell % WIDTH) as i64;
            proof {
                let past = rngs;
                rngs = rngs.push(self.rng);
                let now = cells_at(r_out@, c_out@);
                assert(now[g as int] == cell);
                assert forall|h: int| 0 <= h < g + 1 implies #[trigger] s0.draws_at(
                    *weights,
                    player as int,
                    active@,
                    now,
                    rngs,
                    h,
                ) by {
                    if h < g {
                        assert(s0.draws_at(
                            *weights,
                            player as int,
                            active@,
                            cells_at(r0, c0),
                            past,
                            h,
                        ));
                        assert(now[h] == cells_at(r0, c0)[h]);
                    }
                }
            }
            assert(r_out@.skip(n as int) =~= r0.skip(n as int));
            assert(c_out@.skip(n as int) =~= c0.skip(n as int));
            g = g + 1;
        }
        assert(s0.draws_all(
            *weights,
            player as int,
            active@,
            cells_at(r_out@, c_out@),
            rngs,
        ));
    }

    /// Game `g` is as it was if it was finished, and otherwise has made the moves of `idx_0`
    /// and `idx_1`.
    pub open spec fn game_stepped(
        &self,
        after: &IncrementalGame,
        idx_0: Seq<i64>,
        idx_1: Seq<i64>,
        g: int,
    ) -> bool {
        if self.finished@[g] {
            after.position(g) == self.position(g)
        } else {
            self.position(g).stepped(after.position(g), idx_0[g] as int, idx_1[g] as int)
        }
    }

    /// Every game that was not finished has made its moves.
    pub open spec fn all_stepped(
        &self,
        after: &IncrementalGame,
        idx_0: Seq<i64>,
        idx_1: Seq<i64>,
    ) -> bool {
        forall|g: int| 0 <= g < self.n ==> #[trigger] self.game_stepped(after, idx_0, idx_1, g)
    }

    /// Squares drawn for all games that are not finished, as board indices.
    pub open spec fn moves_drawn<W: Weights>(
        &self,
        weights: W,
        player: int,
        rngs: (Rng, Rng),
        idx: Seq<i64>,
    ) -> bool {
        &&& idx.len() == self.n
        &&& exists|all: Seq<Rng>| #[trigger]
            self.draws_all(
                weights,
                player,
                self.actives(),
                cells_of(idx),
                all,
            ) && all[0] == rngs.0 && all.last() == rngs.1
    }

    /// What a step with the moves of `idx_0` and `idx_1` comes to: every game that is not
    /// finished makes its moves, and where they are all legal every game's mask stays that of
    /// its board.
    pub open spec fn step_result(
        &self,
        after: &IncrementalGame,
        idx_0: Seq<i64>,
        idx_1: Seq<i64>,
    ) -> bool {
        &&& self.all_stepped(after, idx_0, idx_1)
        &&& after.same_batch(&(IncrementalGame { rng: after.rng, ..*self }))
        &&& after.scratch.counters() == batch_stats(
            self.scratch.counters(),
            self.positions(),
            whole(idx_0),
            whole(idx_1),
            self.actives(),
            self.scratch.rebuilds(),
            self.n as nat,
        )
        &&& self.tidy() && self.illegal_games(idx_0, idx_1, self.n as nat).len() == 0
            ==> after.tidy()
    }

    /// One move for all games that are not finished, drawn from a weight per square for each
    /// player, player 0's in all games first.
    ///
    /// A game whose legal squares carry no weight is given any square of the board, legal or
    /// not, and plays it: a mark takes the place of whatever is on its square.
    pub fn distribution_step<W: Weights>(&mut self, first: &W, second: &W)
        requires
            old(self).wf(),
            forall|g: int|
                0 <= g < old(self).n && !#[trigger] old(self).finished@[g] ==> old(
                    self,
                ).move_counts@[g] < i32::MAX,
        ensures
            old(self).any_active() ==> exists|
                idx_0: Seq<i64>,
                idx_1: Seq<i64>,
                mid: Rng,
            |
                {
                    &&& #[trigger] old(self).moves_drawn(*first, 0, (old(self).rng, mid), idx_0)
                    &&& #[trigger] old(self).moves_drawn(
                        *second,
                        1,
                        (mid, final(self).rng),
                        idx_1,
                    )
                    &&& old(self).step_result(final(self), idx_0, idx_1)
                },
            !old(self).any_active() ==> *final(self) == *old(self),
            final(self).wf(),
    {
        let n: usize = self.n;
        let ghost s0 = *self;
        let mut active: Vec<bool> = Vec::new();
        let mut any: bool = false;
        let mut g: usize = 0;
        while g < n
            invariant
                g <= n,
                n == self.n,
                *self == s0,
                self.shaped(),
                active@.len() == g,
                forall|h: int| 0 <= h < g ==> #[trigger] active@[h] == !self.finished@[h],
                any <==> exists|h: int| 0 <= h < g && !#[trigger] self.finished@[h],
            decreases n - g,
        {
            let on: bool = !self.finished[g];
            active.push(on);
            any = any || on;
            g = g + 1;
        }
        if !any {
            let ghost none: Seq<i64> = Seq::new(n as nat, |i: int| 0i64);
            assert(s0.all_stepped(self, none, none));
            return ;
        }
        let mut r0: Vec<i64> = vec![0; n];
        let mut c0: Vec<i64> = vec![0; n];
        let mut r1: Vec<i64> = vec![0; n];
        let mut c1: Vec<i64> = vec![0; n];
        self.sample_moves(first, 0, active.as_slice(), r0.as_mut_slice(), c0.as_mut_slice());
        let ghost sm = *self;
        self.sample_moves(second, 1, active.as_slice(), r1.as_mut_slice(), c1.as_mut_slice());
        let ghost s1 = *self;
        proof {
            lemma_same_positions(s0, s1);
        }
        let ghost idx_0 = board_indices(r0@, c0@);
        let ghost idx_1 = board_indices(r1@, c1@);
        proof {
            lemma_moves_drawn(s0, s0, *first, 0, sm.rng, active@, r0@, c0@, idx_0);
            lemma_moves_drawn(s0, sm, *second, 1, s1.rng, active@, r1@, c1@, idx_1);
            assert(s0.moves_drawn(*first, 0, (s0.rng, sm.rng), idx_0));
            assert(s0.moves_drawn(*second, 1, (sm.rng, s1.rng), idx_1));
        }
        proof {
            assert forall|h: int| 0 <= h < n && #[trigger] active@[h] implies applicable(
                s1.position(h),
                square_at(r0@, c0@, h),
                square_at(r1@, c1@, h),
            ) by {
                assert(s1.position(h) == s0.position(h));
                assert(!s0.finished@[h]);
                assert(idx_0[h] == r0@[h] * 16 + c0@[h]);
                assert(idx_1[h] == r1@[h] * 16 + c1@[h]);
            }
        }
        self.apply_step(
            r0.as_slice(),
            c0.as_slice(),
            r1.as_slice(),
            c1.as_slice(),
            active.as_slice(),
        );
        proof {
            let s2 = *self;
            assert forall|h: int| 0 <= h < s0.n implies #[trigger] s0.game_stepped(
                &s2,
                idx_0,
                idx_1,
                h,
            ) by {
                assert(s1.position(h) == s0.position(h));
                assert(active@[h] == !s0.finished@[h]);
                assert(idx_0[h] == r0@[h] * 16 + c0@[h]);
                assert(idx_1[h] == r1@[h] * 16 + c1@[h]);
                let after = s2.position(h);
            }
            if s0.tidy() && s0.illegal_games(idx_0, idx_1, n as nat).len() == 0 {
                lemma_none_illegal(s0, idx_0, idx_1, n as nat);
                assert forall|h: int| 0 <= h < s2.n implies (#[trigger] s2.position(h)).tidy() by {
                    let before = s0.position(h);
                    assert(before.tidy());
                    assert(s0.game_stepped(&s2, idx_0, idx_1, h));
                    if !s0.finished@[h] {
                        assert(s0.legal_pair(idx_0, idx_1, h));
                        lemma_step_tidy(
                            before,
                            s2.position(h),
                            idx_0[h] as int,
                            idx_1[h] as int,
                        );
                    }
                }
            }
            lemma_batch_stats(
                s0.scratch.counters(),
                s0.positions(),
                (squares_at(r0@, c0@), squares_at(r1@, c1@), active@),
                (whole(idx_0), whole(idx_1), s0.actives()),
                s0.scratch.rebuilds(),
                n as nat,
            );
            assert(s1.positions() =~= s0.positions());
            assert(s0.step_result(&s2, idx_0, idx_1));
        }
    }
}

/// Rows and columns as board indices.
spec fn board_indices(rows: Seq<i64>, cols: Seq<i64>) -> Seq<i64> {
    Seq::new(rows.len(), |g: int| (rows[g] * 16 + cols[g]) as i64)
}

/// Batches that differ in their generator alone have the same games.
proof fn lemma_same_positions(a: IncrementalGame, b: IncrementalGame)
    requires
        b == (IncrementalGame { rng: b.rng, ..a }),
    ensures
        forall|g: int| #[trigger] b.position(g) == a.position(g),
        a.wf() ==> b.wf(),
        a.tidy() ==> b.tidy(),
{
    assert forall|g: int| #[trigger] b.position(g) == a.position(g) by {}
}

/// The squares drawn in a batch that differs in its generator alone are squares drawn in this
/// one.
proof fn lemma_moves_drawn<W: Weights>(
    a: IncrementalGame,
    b: IncrementalGame,
    weights: W,
    player: int,
    end: Rng,
    active: Seq<bool>,
    rows: Seq<i64>,
    cols: Seq<i64>,
    idx: Seq<i64>,
)
    requires
        a.shaped(),
        b == (IncrementalGame { rng: b.rng, ..a }),
        active.len() == a.n,
        forall|g: int| 0 <= g < a.n ==> #[trigger] active[g] == !a.finished@[g],
        rows.len() == a.n,
        idx.len() == a.n,
        forall|g: int| 0 <= g < a.n ==> #[trigger] idx[g] == rows[g] * 16 + cols[g],
        exists|rngs: Seq<Rng>| #[trigger]
            b.draws_all(weights, player, active, cells_at(rows, cols), rngs) && rngs[0] == b.rng
                && rngs.last() == end,
    ensures
        a.moves_drawn(weights, player, (b.rng, end), idx),
{
    let rngs = choose|rngs: Seq<Rng>| #[trigger]
        b.draws_all(weights, player, active, cells_at(rows, cols), rngs) && rngs[0] == b.rng
            && rngs.last() == end;
    let on = a.actives();
    let cells = cells_of(idx);
    lemma_same_positions(a, b);
    assert(on =~= active);
    assert(cells =~= cells_at(rows, cols));
    assert forall|g: int| 0 <= g < a.n implies #[trigger] a.draws_at(
        weights,
        player,
        on,
        cells,
        rngs,
        g,
    ) by {
        assert(b.draws_at(weights, player, active, cells_at(rows, cols), rngs, g));
        if active[g] {
            let (legal, verdicts, mid) = choose|
                legal: [u64; LEGAL_WORDS],
                verdicts: Option<Vec<bool>>,
                mid: Rng,
            | #[trigger]
                b.draws_cell_by(
                    weights,
                    g,
                    player,
                    (rngs[g], rngs[g + 1]),
                    cells[g],
                    legal,
                    verdicts,
                    mid,
                );
            assert(b.position(g) == a.position(g));
            assert(a.draws_cell_by(
                weights,
                g,
                player,
                (rngs[g], rngs[g + 1]),
                cells[g],
                legal,
                verdicts,
                mid,
            ));
        }
    }
    assert(a.draws_all(weights, player, on, cells, rngs));
}

/// Where no game has an illegal move, all moves are legal.
proof fn lemma_none_illegal(s: IncrementalGame, idx_0: Seq<i64>, idx_1: Seq<i64>, n: nat)
    requires
        s.illegal_games(idx_0, idx_1, n).len() == 0,
    ensures
        forall|g: int|
            0 <= g < n && !s.finished@[g] ==> #[trigger] s.legal_pair(idx_0, idx_1, g),
    decreases n,
{
    if n > 0 {
        lemma_none_illegal(s, idx_0, idx_1, (n - 1) as nat);
    }
}

} // verus!
