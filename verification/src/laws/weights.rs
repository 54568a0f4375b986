//! What is drawn by weight.
use vstd::prelude::*;

use crate::board::{HW, PLAYABLE_SQUARE, PLAYER_0_MARK, PLAYER_1_MARK, REMOVED_SQUARE};
use crate::game::Game;
use crate::incremental::IncrementalGame;
use crate::laws::batch::{lemma_entries, lemma_stepped_cell};
use crate::laws::rules::lemma_moved_cell;
use crate::legal::{cell_of, count_below, holds, in_half, lemma_cell_of, LEGAL_WORDS};
use crate::rng::{bounded_draw, successor, Rng};
use crate::sampling::{
    any_reached, asked, asked_by, cells_at, cells_of, comes_to, is_reached, summed, Weights,
};
use crate::scratch::Scratch;
use crate::sums::{lemma_sum_eq, sum_to, unit};

verus! {

// ------------------------------------------------------------------------------ one game

/// Verdicts that favour no square leave the draw to chance: a number below the count of the
/// mask's squares, and the square with so many before it.
pub proof fn lemma_unweighed(
    legal: [u64; LEGAL_WORDS],
    verdicts: Option<Vec<bool>>,
    rng: &mut Rng,
    i: usize,
    other: &mut Rng,
    total: u64,
    n: u64,
    chosen: usize,
)
    requires
        call_ensures(Game::sampled, (legal, &verdicts, rng), i),
        verdicts matches Some(v) ==> forall|k: int| 0 <= k < 128 ==> !#[trigger] v@[k],
        total == sum_to(|k: int| unit(holds(legal@, k)), 128),
        old(other).state() == old(rng).state(),
        call_ensures(Rng::randint, (other, total), n),
        n < total,
        call_ensures(Game::select, (legal, n as u32), chosen),
    ensures
        i == chosen,
        final(rng).state() == final(other).state(),
{
    assert(total == count_below(legal@, 128)) by {
        lemma_sum_eq(
            |k: int| unit(holds(legal@, k)),
            |j: int| unit(holds(legal@, j)),
            128,
        );
    }
    lemma_count_upper(legal@, 128);
    let a = choose|a: int|
        0 <= a < 128 && i == cell_of(a) && #[trigger] holds(legal@, a) && count_below(
            legal@,
            a as nat,
        ) == n;
    let b = choose|b: int|
        0 <= b < 128 && chosen == cell_of(b) && #[trigger] holds(legal@, b) && count_below(
            legal@,
            b as nat,
        ) == n;
    if a < b {
        lemma_count_more(legal@, a, b);
    } else if b < a {
        lemma_count_more(legal@, b, a);
    }
}

proof fn lemma_count_upper(w: Seq<u64>, k: nat)
    ensures
        0 <= count_below(w, k) <= k,
    decreases k,
{
    if k > 0 {
        lemma_count_upper(w, (k - 1) as nat);
    }
}

/// A square that is set counts for all behind it.
proof fn lemma_count_more(w: Seq<u64>, a: int, b: int)
    requires
        0 <= a < b,
        holds(w, a),
    ensures
        count_below(w, b as nat) > count_below(w, a as nat),
    decreases b,
{
    if a < b - 1 {
        lemma_count_more(w, a, b - 1);
    }
}

/// The same for a game of a batch, where the draw is of any cell of the board.
pub proof fn lemma_unweighed_cell(
    legal: [u64; LEGAL_WORDS],
    rng: &mut Rng,
    i: usize,
    other: &mut Rng,
    n: u64,
)
    requires
        call_ensures(IncrementalGame::sampled_cell, (legal, &None::<Vec<bool>>, rng), i),
        old(other).state() == old(rng).state(),
        call_ensures(Rng::randint, (other, 160u64), n),
    ensures
        i == n,
        final(rng).state() == final(other).state(),
{
}

/// What a draw by weight asks, and what comes of it: the weights are opened with the squares
/// that are open to the player, in the player's half before the first move. They are asked
/// about each of those in board order, by its cell, and the cell drawn is the first at which
/// they are content. Where they carry no weight, or are never content, all of those squares
/// are as likely.
pub open spec fn move_sampled<W: Weights>(
    g: Game,
    weights: W,
    player: int,
    legal: [u64; LEGAL_WORDS],
    from: Rng,
    to: Rng,
    end: Rng,
    cell: int,
) -> bool {
    &&& forall|k: int|
        0 <= k < 128 ==> (#[trigger] holds(legal@, k) <==> k < 80 && g.cells@[2 * k + (k / 8) % 2]
            == PLAYABLE_SQUARE && (g.move_count != 0 || (if player == 0 {
            k % 8 < 4
        } else {
            k % 8 >= 4
        })))
    &&& {
        ||| call_ensures(W::open, (&weights, 0usize, legal, from), (None::<W::Scan>, to))
            && any_of_mask(legal, to, end, cell)
        ||| exists|scans: Seq<W::Scan>, verdicts: Seq<bool>| {
            &&& call_ensures(W::open, (&weights, 0usize, legal, from), (Some(scans[0]), to))
            &&& #[trigger] squares_asked::<W>(weights, 0, legal, scans, verdicts)
            &&& {
                ||| any_of_mask(legal, to, end, cell) && forall|k: int|
                    0 <= k < 128 ==> !#[trigger] verdicts[k]
                ||| end == to && exists|a: int|
                    0 <= a < 128 && #[trigger] verdicts[a] && cell == 2 * a + (a / 8) % 2
                        && forall|k: int| 0 <= k < a ==> !#[trigger] verdicts[k]
            }
        }
    }
}

/// A square of a mask, drawn by the number of squares of the mask before it.
pub open spec fn any_of_mask(legal: [u64; LEGAL_WORDS], from: Rng, to: Rng, cell: int) -> bool {
    let total = sum_to(|k: int| unit(holds(legal@, k)), 128);
    let draw = bounded_draw(from.state(), total as u64, u64::MAX as nat);
    &&& to.state() == draw.1
    &&& exists|b: int|
        0 <= b < 128 && cell == 2 * b + (b / 8) % 2 && #[trigger] holds(legal@, b) && sum_to(
            |k: int| unit(holds(legal@, k)),
            b as nat,
        ) == draw.0
}

proof fn lemma_move_sampled<W: Weights>(
    g: Game,
    weights: W,
    player: int,
    legal: [u64; LEGAL_WORDS],
    from: Rng,
    to: Rng,
    end: Rng,
    verdicts: Option<Vec<bool>>,
    cell: int,
)
    requires
        g.wf(),
        0 <= player < 2,
        g.samples_by(weights, player, (from, end), cell, legal, verdicts, to),
    ensures
        move_sampled::<W>(g, weights, player, legal, from, to, end, cell),
{
    assert forall|k: int| 0 <= k < 128 implies (#[trigger] holds(legal@, k) <==> k < 80
        && g.cells@[2 * k + (k / 8) % 2] == PLAYABLE_SQUARE && (g.move_count != 0 || (if player
        == 0 {
        k % 8 < 4
    } else {
        k % 8 >= 4
    }))) by {
        if k < 80 {
            lemma_cell_of(k);
            assert(holds(g.legal@, k) <==> g.cells@[cell_of(k)] == PLAYABLE_SQUARE);
        }
        assert(in_half(k, player, g.move_count == 0) <==> (g.move_count != 0 || (if player == 0 {
            k % 8 < 4
        } else {
            k % 8 >= 4
        })));
    }
    if let Some(v) = verdicts {
        let scans = choose|scans: Seq<W::Scan>| #[trigger]
            asked_by(weights, 0, legal, (from, to), v@, scans);
        lemma_squares_asked::<W>(weights, 0, legal, from, to, v@, scans);
        if any_reached(v@) {
            assert(is_reached(v@, cell));
            let a = choose|a: int|
                0 <= a < 128 && #[trigger] v@[a] && cell == cell_of(a) && forall|j: int|
                    0 <= j < a ==> !#[trigger] v@[j];
            assert(v@[a] && cell == 2 * a + (a / 8) % 2);
        } else {
            lemma_any_of_mask(legal, verdicts, to, end, cell);
            assert forall|k: int| 0 <= k < 128 implies !#[trigger] v@[k] by {}
        }
    } else {
        lemma_any_of_mask(legal, verdicts, to, end, cell);
    }
}

proof fn lemma_any_of_mask(
    legal: [u64; LEGAL_WORDS],
    verdicts: Option<Vec<bool>>,
    from: Rng,
    to: Rng,
    cell: int,
)
    requires
        comes_to(legal@, verdicts, (from, to), cell),
        verdicts matches Some(v) ==> !any_reached(v@),
    ensures
        any_of_mask(legal, from, to, cell),
{
    let f = |k: int| unit(holds(legal@, k));
    assert forall|n: nat| #[trigger] count_below(legal@, n) == sum_to(f, n) by {
        lemma_sum_eq(|j: int| unit(holds(legal@, j)), f, n);
    }
    let b = choose|b: int|
        0 <= b < 128 && cell == cell_of(b) && #[trigger] holds(legal@, b) && count_below(
            legal@,
            b as nat,
        ) == bounded_draw(from.state(), count_below(legal@, 128) as u64, u64::MAX as nat).0;
    assert(holds(legal@, b) && cell == 2 * b + (b / 8) % 2);
    assert(count_below(legal@, b as nat) == sum_to(f, b as nat));
    assert(count_below(legal@, 128) == sum_to(f, 128));
}

/// A draw asks the weights of the game, and goes by what they say.
pub proof fn lemma_sample_asks<W: Weights>(
    g: Game,
    weights: W,
    player: usize,
    rng: &mut Rng,
    i: usize,
)
    requires
        call_ensures(Game::sample::<W>, (&g, &weights, player, rng), i),
        g.wf(),
        player < 2,
    ensures
        exists|legal: [u64; LEGAL_WORDS], to: Rng| #[trigger]
            move_sampled::<W>(g, weights, player as int, legal, *old(rng), to, *final(rng), i as int),
{
    let (legal, verdicts, mid) = choose|
        legal: [u64; LEGAL_WORDS],
        verdicts: Option<Vec<bool>>,
        mid: Rng,
    | #[trigger]
        g.samples_by(
            weights,
            player as int,
            (*old(rng), *final(rng)),
            i as int,
            legal,
            verdicts,
            mid,
        );
    lemma_move_sampled::<W>(
        g,
        weights,
        player as int,
        legal,
        *old(rng),
        mid,
        *final(rng),
        verdicts,
        i as int,
    );
}

/// Is `cell` drawn for a player by the weights, with the generator from `from` to `end`?
pub open spec fn draws_move<W: Weights>(
    g: Game,
    weights: W,
    player: int,
    from: Rng,
    end: Rng,
    cell: int,
) -> bool {
    exists|legal: [u64; LEGAL_WORDS], to: Rng| #[trigger]
        move_sampled::<W>(g, weights, player, legal, from, to, end, cell)
}

/// A step draws player 0's move by the first weights and then player 1's by the second, from
/// the squares open to each, and plays them both.
pub proof fn lemma_weighed_step<W: Weights>(
    g: &mut Game,
    first: W,
    second: W,
    rng: &mut Rng,
    s: &mut Scratch,
)
    requires
        call_ensures(Game::distribution_step::<W>, (g, &first, &second, rng, s), ()),
        old(g).wf(),
    ensures
        final(g).move_count == old(g).move_count + 1,
        exists|i0: int, i1: int, mid: Rng| {
            &&& 0 <= i0 < HW
            &&& 0 <= i1 < HW
            &&& old(g).cells@[i0] == PLAYABLE_SQUARE
            &&& old(g).cells@[i1] == PLAYABLE_SQUARE
            &&& #[trigger] draws_move::<W>(*old(g), first, 0, *old(rng), mid, i0)
            &&& #[trigger] draws_move::<W>(*old(g), second, 1, mid, *final(rng), i1)
            &&& forall|x: int|
                0 <= x < HW ==> #[trigger] final(g).cells@[x] == (if i0 == i1 {
                    if x == i0 || (x / 16 - i0 / 16 == 1 || x / 16 - i0 / 16 == -1) && (x % 16
                        - i0 % 16 == 1 || x % 16 - i0 % 16 == -1) {
                        REMOVED_SQUARE
                    } else {
                        old(g).cells@[x]
                    }
                } else if x == i0 {
                    PLAYER_0_MARK
                } else if x == i1 {
                    PLAYER_1_MARK
                } else {
                    old(g).cells@[x]
                })
        },
{
    let (i0, i1, mid) = choose|i0: int, i1: int, mid: Rng|
        {
            &&& #[trigger] old(g).plays(final(g), i0, i1)
            &&& #[trigger] old(g).samples(first, 0, (*old(rng), mid), i0)
            &&& old(g).samples(second, 1, (mid, *final(rng)), i1)
        };
    lemma_draws_move::<W>(*old(g), first, 0, *old(rng), mid, i0);
    lemma_draws_move::<W>(*old(g), second, 1, mid, *final(rng), i1);
    assert forall|x: int| 0 <= x < HW implies #[trigger] final(g).cells@[x] == (if i0 == i1 {
        if x == i0 || (x / 16 - i0 / 16 == 1 || x / 16 - i0 / 16 == -1) && (x % 16 - i0 % 16 == 1
            || x % 16 - i0 % 16 == -1) {
            REMOVED_SQUARE
        } else {
            old(g).cells@[x]
        }
    } else if x == i0 {
        PLAYER_0_MARK
    } else if x == i1 {
        PLAYER_1_MARK
    } else {
        old(g).cells@[x]
    }) by {
        lemma_moved_cell(old(g).cells@, i0, i1, x);
    }
}

proof fn lemma_draws_move<W: Weights>(
    g: Game,
    weights: W,
    player: int,
    from: Rng,
    end: Rng,
    cell: int,
)
    requires
        g.wf(),
        0 <= player < 2,
        g.samples(weights, player, (from, end), cell),
    ensures
        draws_move::<W>(g, weights, player, from, end, cell),
{
    let (legal, verdicts, mid) = choose|
        legal: [u64; LEGAL_WORDS],
        verdicts: Option<Vec<bool>>,
        mid: Rng,
    | #[trigger]
        g.samples_by(weights, player, (from, end), cell, legal, verdicts, mid);
    lemma_move_sampled::<W>(g, weights, player, legal, from, mid, end, verdicts, cell);
}

proof fn lemma_squares_asked<W: Weights>(
    weights: W,
    g: int,
    legal: [u64; LEGAL_WORDS],
    from: Rng,
    to: Rng,
    v: Seq<bool>,
    scans: Seq<W::Scan>,
)
    requires
        asked_by(weights, g as usize, legal, (from, to), v, scans),
    ensures
        squares_asked::<W>(weights, g, legal, scans, v),
{
    assert forall|k: int| 0 <= k < 128 implies if holds(legal@, k) {
        call_ensures(
            W::reaches,
            (&weights, scans[k], g as usize, (2 * k + (k / 8) % 2) as usize),
            (scans[k + 1], #[trigger] v[k]),
        )
    } else {
        scans[k + 1] == scans[k] && !v[k]
    } by {
        assert(summed(weights, g as usize, legal@, scans, v, k));
    }
}

// ------------------------------------------------------------------------------ a batch

/// A square drawn for an active game: the weights are opened for that game with the squares
/// that its words hold, in the player's half before the first move. They are then asked about
/// each of those squares in board order, by its cell, and the cell drawn is the first at which
/// they are content, or cell 0 where they never are. Where the squares carry no weight, any
/// cell of the board is drawn.
pub proof fn lemma_cells_sampled<W: Weights>(
    b: &mut IncrementalGame,
    weights: W,
    player: usize,
    active: &[bool],
    rows: &mut [i64],
    cols: &mut [i64],
    g: int,
)
    requires
        call_ensures(
            IncrementalGame::sample_moves::<W>,
            (b, &weights, player, active, rows, cols),
            (),
        ),
        old(b).shaped(),
        0 <= g < old(b).n <= old(rows)@.len(),
        player < 2,
        active@.len() >= old(b).n,
        old(cols)@.len() >= old(b).n,
    ensures
        !active@[g] ==> final(rows)@[g] == 0 && final(cols)@[g] == 0,
        active@[g] ==> exists|legal: [u64; LEGAL_WORDS], from: Rng, to: Rng| #[trigger]
            cell_sampled::<W>(
                *old(b),
                weights,
                g,
                player as int,
                legal,
                from,
                to,
                16 * final(rows)@[g] + final(cols)@[g],
            ),
{
    if active@[g] {
        let rngs = choose|rngs: Seq<Rng>| #[trigger]
            old(b).draws_all(
                weights,
                player as int,
                active@,
                cells_at(final(rows)@, final(cols)@),
                rngs,
            ) && rngs[0] == old(b).rng && rngs.last() == final(b).rng;
        let cells = cells_at(final(rows)@, final(cols)@);
        assert(old(b).draws_at(weights, player as int, active@, cells, rngs, g));
        let i = cells[g];
        assert(i == 16 * final(rows)@[g] + final(cols)@[g]);
        let (legal, verdicts, mid) = choose|
            legal: [u64; LEGAL_WORDS],
            verdicts: Option<Vec<bool>>,
            mid: Rng,
        | #[trigger]
            old(b).draws_cell_by(
                weights,
                g,
                player as int,
                (rngs[g], rngs[g + 1]),
                i,
                legal,
                verdicts,
                mid,
            );
                assert(old(b).position(g).words =~= old(b).legal@.subrange(2 * g, 2 * g + 2));
        lemma_cell_sampled::<W>(*old(b), weights, g, player as int, legal, rngs[g], mid, verdicts, i);
    }
}

/// What is asked of the weights for game `g`, and what comes of it.
pub open spec fn cell_sampled<W: Weights>(
    b: IncrementalGame,
    weights: W,
    g: int,
    player: int,
    legal: [u64; LEGAL_WORDS],
    from: Rng,
    to: Rng,
    cell: int,
) -> bool {
    &&& forall|k: int|
        0 <= k < 128 ==> (#[trigger] holds(legal@, k) <==> k < 80 && holds(
            b.legal@.subrange(2 * g, 2 * g + 2),
            k,
        ) && (b.move_counts@[g] != 0 || (if player == 0 {
            k % 8 < 4
        } else {
            k % 8 >= 4
        })))
    &&& {
        ||| call_ensures(W::open, (&weights, g as usize, legal, from), (None::<W::Scan>, to))
            && cell == bounded_draw(to.state(), 160, u64::MAX as nat).0
        ||| exists|scans: Seq<W::Scan>, verdicts: Seq<bool>| {
            &&& call_ensures(W::open, (&weights, g as usize, legal, from), (Some(scans[0]), to))
            &&& #[trigger] squares_asked::<W>(weights, g, legal, scans, verdicts)
            &&& {
                ||| cell == 0 && forall|k: int| 0 <= k < 128 ==> !#[trigger] verdicts[k]
                ||| exists|a: int|
                    0 <= a < 128 && #[trigger] verdicts[a] && cell == 2 * a + (a / 8) % 2
                        && forall|k: int| 0 <= k < a ==> !#[trigger] verdicts[k]
            }
        }
    }
}

/// The weights were asked about every square of a mask, by its cell, and about no other.
pub open spec fn squares_asked<W: Weights>(
    weights: W,
    g: int,
    legal: [u64; LEGAL_WORDS],
    scans: Seq<W::Scan>,
    verdicts: Seq<bool>,
) -> bool {
    forall|k: int|
        0 <= k < 128 ==> if holds(legal@, k) {
            call_ensures(
                W::reaches,
                (&weights, scans[k], g as usize, (2 * k + (k / 8) % 2) as usize),
                (scans[k + 1], #[trigger] verdicts[k]),
            )
        } else {
            scans[k + 1] == scans[k] && !verdicts[k]
        }
}

proof fn lemma_cell_sampled<W: Weights>(
    b: IncrementalGame,
    weights: W,
    g: int,
    player: int,
    legal: [u64; LEGAL_WORDS],
    from: Rng,
    to: Rng,
    verdicts: Option<Vec<bool>>,
    cell: int,
)
    requires
        0 <= player < 2,
        b.narrowed(g, player, legal@),
        b.position(g).words == b.legal@.subrange(2 * g, 2 * g + 2),
        asked(weights, g as usize, legal, (from, to), verdicts),
        exists|end: Rng| IncrementalGame::cell_of_verdicts(verdicts, (to, end), cell),
    ensures
        cell_sampled::<W>(b, weights, g, player, legal, from, to, cell),
{
    assert forall|k: int| 0 <= k < 128 implies (#[trigger] holds(legal@, k) <==> k < 80 && holds(
        b.legal@.subrange(2 * g, 2 * g + 2),
        k,
    ) && (b.move_counts@[g] != 0 || (if player == 0 {
        k % 8 < 4
    } else {
        k % 8 >= 4
    }))) by {}
    if let Some(v) = verdicts {
        let scans = choose|scans: Seq<W::Scan>| #[trigger]
            asked_by(weights, g as usize, legal, (from, to), v@, scans);
        lemma_squares_asked::<W>(weights, g, legal, from, to, v@, scans);
        if any_reached(v@) {
            assert(is_reached(v@, cell));
            let a = choose|a: int|
                0 <= a < 128 && #[trigger] v@[a] && cell == cell_of(a) && forall|j: int|
                    0 <= j < a ==> !#[trigger] v@[j];
            assert(v@[a] && cell == 2 * a + (a / 8) % 2);
        } else {
            assert(cell == 0);
            assert forall|k: int| 0 <= k < 128 implies !#[trigger] v@[k] by {}
        }
    }
}

/// Is `cell` drawn for a player of game `g` by the weights?
pub open spec fn draws_cell_of<W: Weights>(
    b: IncrementalGame,
    weights: W,
    g: int,
    player: int,
    cell: int,
) -> bool {
    exists|legal: [u64; LEGAL_WORDS], from: Rng, to: Rng| #[trigger]
        cell_sampled::<W>(b, weights, g, player, legal, from, to, cell)
}

proof fn lemma_draws_cell_of<W: Weights>(
    b: IncrementalGame,
    weights: W,
    g: int,
    player: int,
    rngs: (Rng, Rng),
    cell: int,
)
    requires
        b.shaped(),
        0 <= g < b.n,
        0 <= player < 2,
        b.draws_cell(weights, g, player, rngs, cell),
    ensures
        0 <= cell < HW,
        draws_cell_of::<W>(b, weights, g, player, cell),
{
    let (legal, verdicts, mid) = choose|
        legal: [u64; LEGAL_WORDS],
        verdicts: Option<Vec<bool>>,
        mid: Rng,
    | #[trigger]
        b.draws_cell_by(weights, g, player, rngs, cell, legal, verdicts, mid);
    assert(b.position(g).words =~= b.legal@.subrange(2 * g, 2 * g + 2));
    lemma_cell_sampled::<W>(b, weights, g, player, legal, rngs.0, mid, verdicts, cell);
    match verdicts {
        None => lemma_draw_below(mid.state(), u64::MAX as nat),
        Some(v) => {
            let scans = choose|scans: Seq<W::Scan>| #[trigger]
                asked_by(weights, g as usize, legal, (rngs.0, mid), v@, scans);
            assert forall|k: int| 0 <= k < 128 && #[trigger] v@[k] implies k < 80 by {
                assert(summed(weights, g as usize, legal@, scans, v@, k));
            }
        },
    }
}

proof fn lemma_draw_below(s: Seq<u64>, fuel: nat)
    ensures
        0 <= bounded_draw(s, 160, fuel).0 < 160,
    decreases fuel,
{
    if fuel > 0 {
        lemma_draw_below(successor(s), (fuel - 1) as nat);
    }
}

/// A step of a batch draws player 0's square by the first weights and player 1's by the second
/// in every game that is not finished, and plays them, whatever the squares hold. A finished
/// game stays as it is.
pub proof fn lemma_weighed_batch<W: Weights>(
    b: &mut IncrementalGame,
    first: W,
    second: W,
    g: int,
)
    requires
        call_ensures(IncrementalGame::distribution_step::<W>, (b, &first, &second), ()),
        old(b).wf(),
        0 <= g < old(b).n,
    ensures
        old(b).finished@[g] ==> final(b).move_counts@[g] == old(b).move_counts@[g] && forall|
            x: int,
        |
            0 <= x < HW ==> final(b).boards@[160 * g + x] == #[trigger] on_board(*old(b), g, x),
        !old(b).finished@[g] ==> final(b).move_counts@[g] == old(b).move_counts@[g] + 1,
        !old(b).finished@[g] ==> exists|i0: int, i1: int| {
            &&& 0 <= i0 < HW
            &&& 0 <= i1 < HW
            &&& #[trigger] draws_cell_of::<W>(*old(b), first, g, 0, i0)
            &&& #[trigger] draws_cell_of::<W>(*old(b), second, g, 1, i1)
            &&& forall|x: int|
                0 <= x < HW ==> final(b).boards@[160 * g + x] == #[trigger] left_on(
                    *old(b),
                    g,
                    i0,
                    i1,
                    x,
                )
        },
{
    if old(b).any_active() {
        let (idx_0, idx_1, mid) = choose|idx_0: Seq<i64>, idx_1: Seq<i64>, mid: Rng|
            {
                &&& #[trigger] old(b).moves_drawn(first, 0, (old(b).rng, mid), idx_0)
                &&& #[trigger] old(b).moves_drawn(second, 1, (mid, final(b).rng), idx_1)
                &&& old(b).step_result(final(b), idx_0, idx_1)
            };
        let one = choose|all: Seq<Rng>| #[trigger]
            old(b).draws_all(first, 0, old(b).actives(), cells_of(idx_0), all) && all[0]
                == old(b).rng && all.last() == mid;
        let two = choose|all: Seq<Rng>| #[trigger]
            old(b).draws_all(second, 1, old(b).actives(), cells_of(idx_1), all) && all[0] == mid
                && all.last() == final(b).rng;
        assert(old(b).draws_at(first, 0, old(b).actives(), cells_of(idx_0), one, g));
        assert(old(b).draws_at(second, 1, old(b).actives(), cells_of(idx_1), two, g));
        assert(old(b).game_stepped(final(b), idx_0, idx_1, g));
        let i0 = idx_0[g] as int;
        let i1 = idx_1[g] as int;
        let p = old(b).position(g);
        let q = final(b).position(g);
        if !old(b).finished@[g] {
            lemma_draws_cell_of::<W>(*old(b), first, g, 0, (one[g], one[g + 1]), i0);
            lemma_draws_cell_of::<W>(*old(b), second, g, 1, (two[g], two[g + 1]), i1);
        }
        assert forall|x: int| 0 <= x < HW && old(b).finished@[g] implies final(b).boards@[160 * g + x]
            == #[trigger] on_board(*old(b), g, x) by {
            lemma_entries(*old(b), g, x);
            lemma_entries(*final(b), g, x);
        }
        assert forall|x: int| 0 <= x < HW && !old(b).finished@[g] implies final(b).boards@[160 * g
            + x] == #[trigger] left_on(*old(b), g, i0, i1, x) by {
            lemma_entries(*old(b), g, x);
            lemma_entries(*final(b), g, x);
            lemma_stepped_cell(p, q, i0, i1, x);
        }
    } else {
        assert(old(b).finished@[g]);
    }
}

/// What a cell of game `g` holds after the moves `i0` and `i1`.
pub open spec fn left_on(b: IncrementalGame, g: int, i0: int, i1: int, x: int) -> i8 {
    if i0 == i1 {
        if x == i0 || (x / 16 - i0 / 16 == 1 || x / 16 - i0 / 16 == -1) && (x % 16 - i0 % 16 == 1
            || x % 16 - i0 % 16 == -1) {
            REMOVED_SQUARE
        } else {
            on_board(b, g, x)
        }
    } else if x == i0 {
        PLAYER_0_MARK
    } else if x == i1 {
        PLAYER_1_MARK
    } else {
        on_board(b, g, x)
    }
}

/// What a cell of game `g` holds.
pub open spec fn on_board(b: IncrementalGame, g: int, x: int) -> i8 {
    b.boards@[160 * g + x]
}

/// A square drawn from a mask is the one with as many of the mask's squares before it as the
/// generator says, of all that there are.
pub proof fn lemma_uniform_draw(
    legal: [u64; LEGAL_WORDS],
    rng: &mut Rng,
    i: usize,
    other: &mut Rng,
    total: u64,
    n: u64,
    chosen: usize,
)
    requires
        call_ensures(Game::uniform, (legal, rng), i),
        total == sum_to(|k: int| unit(holds(legal@, k)), 128),
        old(other).state() == old(rng).state(),
        call_ensures(Rng::randint, (other, total), n),
        n < total,
        call_ensures(Game::select, (legal, n as u32), chosen),
    ensures
        i == chosen,
        final(rng).state() == final(other).state(),
{
    assert(total == count_below(legal@, 128)) by {
        lemma_sum_eq(
            |k: int| unit(holds(legal@, k)),
            |j: int| unit(holds(legal@, j)),
            128,
        );
    }
    lemma_count_upper(legal@, 128);
    let a = choose|a: int|
        0 <= a < 128 && i == cell_of(a) && #[trigger] holds(legal@, a) && count_below(
            legal@,
            a as nat,
        ) == n;
    let b = choose|b: int|
        0 <= b < 128 && chosen == cell_of(b) && #[trigger] holds(legal@, b) && count_below(
            legal@,
            b as nat,
        ) == n;
    if a < b {
        lemma_count_more(legal@, a, b);
    } else if b < a {
        lemma_count_more(legal@, b, a);
    }
}

} // verus!
