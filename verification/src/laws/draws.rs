//! What is drawn, counted and told apart.
use vstd::prelude::*;

use crate::balance::opening;
use crate::board::{
    HW, NON_PLAYABLE_SQUARE, PLAYABLE_SQUARE, PLAYER_0_MARK, PLAYER_1_MARK, REMOVED_SQUARE, SQUARES,
};
use crate::game::{
    lemma_nth_move, lemma_open_one, may_play_on, moves_below, moves_open_on, nth_move_on,
    squares_of, Game,
};
use crate::incremental::IncrementalGame;
use crate::laws::rules::lemma_moved_cell;
use crate::legal::{cell_of, holds, lemma_bit_of, lemma_cell_of, LEGAL_WORDS};
use crate::mcts::lifetime::deaths;
use crate::moves::moved;
use crate::profile::{
    bar, bucket_of, bucket_start, edge, fallen, falls_into, spread_times, MovePath,
};
use crate::reach::may_become;
use crate::rng::{bounded_draw, kept, output, successor, Rng};
use crate::sampling::{any_reached, reached};
use crate::score_batch::{
    draws, finished_below, from_opening, lemma_both_can_move, played, shown, start_cells,
    start_first, state_after, ScoreBatch,
};
use crate::scratch::{Scratch, Stats};
use crate::stub::{favourite, open_to, spike_square, untouched};
use crate::sums::{lemma_sum_eq, lemma_sum_upper, sum_to, unit};
use crate::zobrist;

verus! {

// ------------------------------------------------------------------------------- the generator

/// The generator's numbers, word by word of its state.
pub proof fn lemma_next(rng: &mut Rng, r: u64)
    requires
        call_ensures(Rng::next_u64, (rng,), r),
        old(rng).state().len() == 4,
    ensures
        ({
            let s0 = old(rng).state()[0];
            let s1 = old(rng).state()[1];
            let s2 = old(rng).state()[2];
            let s3 = old(rng).state()[3];
            let t = s0.wrapping_add(s3);
            let n = final(rng).state();
            &&& r == ((t << 23u64) | (t >> 41u64)).wrapping_add(s0)
            &&& n.len() == 4
            &&& n[0] == s0 ^ (s3 ^ s1)
            &&& n[1] == s1 ^ (s2 ^ s0)
            &&& n[2] == (s2 ^ s0) ^ (s1 << 17u64)
            &&& n[3] == ((s3 ^ s1) << 45u64) | ((s3 ^ s1) >> 19u64)
        }),
{
}

/// A bounded number is below its bound. It comes from the first number of the generator that
/// is not among the lowest that would favour some: that number scaled down to the bound.
pub proof fn lemma_bounded(rng: &mut Rng, n: u64, r: u64, twin: &mut Rng, x: u64)
    requires
        n > 0,
        call_ensures(Rng::randint, (rng, n), r),
        call_ensures(Rng::next_u64, (twin,), x),
        old(twin).state() == old(rng).state(),
    ensures
        r < n,
        (x * n) % 0x1_0000_0000_0000_0000 >= 0x1_0000_0000_0000_0000int % (n as int) ==> r == (x
            * n) / 0x1_0000_0000_0000_0000 && final(rng).state() == final(twin).state(),
{
}

// ------------------------------------------------------------------------------ weighted draws

/// The square that a walk over the board comes to is the first with a favourable verdict, as
/// a cell.
pub proof fn lemma_first_reached(verdicts: Vec<bool>, r: Option<usize>, k: int)
    requires
        verdicts@.len() == 128,
        call_ensures(reached, (&verdicts,), r),
        0 <= k < 128,
    ensures
        r is None ==> !verdicts@[k],
        r matches Some(c) ==> {
            &&& verdicts@[c as int / 2]
            &&& c == 2 * (c as int / 2) + (c as int / 16) % 2
            &&& k < c as int / 2 ==> !verdicts@[k]
        },
{
    if let Some(c) = r {
        let b = choose|b: int|
            0 <= b < 128 && #[trigger] verdicts@[b] && c == cell_of(b) && forall|j: int|
                0 <= j < b ==> !#[trigger] verdicts@[j];
        assert(c as int / 2 == b);
        assert(c as int / 16 == b / 8);
    }
}

/// A move drawn by verdicts is the first square with a favourable one; without any, it is a
/// square of the mask all the same.
pub proof fn lemma_sampled(
    legal: [u64; LEGAL_WORDS],
    verdicts: Option<Vec<bool>>,
    rng: &mut Rng,
    i: usize,
    k: int,
)
    requires
        call_ensures(Game::sampled, (legal, &verdicts, rng), i),
        0 <= k < 128,
    ensures
        holds(legal@, i as int / 2),
        i == 2 * (i as int / 2) + (i as int / 16) % 2,
        verdicts matches Some(v) ==> v@[k] ==> v@[i as int / 2] && i as int / 2 <= k && *final(rng)
            == *old(rng),
{
    let b = choose|b: int| 0 <= b < 128 && i == cell_of(b) && #[trigger] holds(legal@, b);
    assert(i as int / 2 == b && i as int / 16 == b / 8);
    if let Some(v) = verdicts {
        if v@[k] {
            assert(any_reached(v@));
            let q = choose|q: int|
                0 <= q < 128 && #[trigger] v@[q] && i == cell_of(q) && forall|j: int|
                    0 <= j < q ==> !#[trigger] v@[j];
            assert(i as int / 2 == q);
        }
    }
}

/// In a batch the square is the first with a favourable verdict, cell 0 where there are
/// verdicts and none is favourable, and any cell of the board where there are none.
pub proof fn lemma_sampled_cell(
    legal: [u64; LEGAL_WORDS],
    verdicts: Option<Vec<bool>>,
    rng: &mut Rng,
    i: usize,
    k: int,
)
    requires
        call_ensures(IncrementalGame::sampled_cell, (legal, &verdicts, rng), i),
        0 <= k < 128,
    ensures
        i < HW,
        verdicts matches Some(v) ==> {
            &&& *final(rng) == *old(rng)
            &&& v@[k] ==> v@[i as int / 2] && i as int / 2 <= k && i == 2 * (i as int / 2) + (i
                as int / 16) % 2
            &&& !v@[i as int / 2] ==> i == 0
        },
{
    if let Some(v) = verdicts {
        if any_reached(v@) {
            let q = choose|q: int|
                0 <= q < 128 && #[trigger] v@[q] && i == cell_of(q) && forall|j: int|
                    0 <= j < q ==> !#[trigger] v@[j];
            assert(i as int / 2 == q && i as int / 16 == q / 8);
        }
    }
}

// --------------------------------------------------------------------------------------- keys

/// A position's key after a move is the key of the position after the move: a key that is
/// stepped along and one that is made from scratch are the same.
pub proof fn lemma_keys_agree(
    before: [i8; SQUARES],
    after: [i8; SQUARES],
    k0: usize,
    k1: usize,
    h: u64,
    stepped: u64,
    fresh: u64,
    cells: Seq<i8>,
)
    requires
        call_ensures(zobrist::hash, (&before,), h),
        call_ensures(zobrist::step, (h, &before, k0, k1), stepped),
        call_ensures(zobrist::hash, (&after,), fresh),
        k0 < SQUARES,
        k1 < SQUARES,
        cells.len() == HW,
        forall|k: int|
            0 <= k < SQUARES ==> #[trigger] before@[k] == cells[2 * k + (k / 8) % 2],
        forall|k: int|
            0 <= k < SQUARES ==> #[trigger] after@[k] == moved(
                cells,
                2 * (k0 as int) + (k0 as int / 8) % 2,
                2 * (k1 as int) + (k1 as int / 8) % 2,
            )[2 * k + (k / 8) % 2],
        k0 == k1 || (before@[k0 as int] == PLAYABLE_SQUARE && before@[k1 as int]
            == PLAYABLE_SQUARE),
    ensures
        stepped == fresh,
{
    lemma_cell_of(k0 as int);
    lemma_cell_of(k1 as int);
    assert(before@ =~= squares_of(cells)) by {
        assert forall|k: int| 0 <= k < SQUARES implies #[trigger] before@[k]
            == squares_of(cells)[k] by {}
    }
    let next = moved(cells, cell_of(k0 as int), cell_of(k1 as int));
    assert(after@ =~= squares_of(next)) by {
        assert forall|k: int| 0 <= k < SQUARES implies #[trigger] after@[k]
            == squares_of(next)[k] by {}
    }
    zobrist::lemma_step_matches_rehash(cells, k0 as int, k1 as int);
}

// --------------------------------------------------------------------------------------- reach

/// A position can still follow from another only if each cell is the same in both, was open or
/// is removed.
pub proof fn lemma_follows(g: Game, root: Game, r: bool, x: int)
    requires
        call_ensures(Game::reachable_from, (&g, &root), r),
        0 <= x < HW,
    ensures
        r ==> g.cells@[x] == root.cells@[x] || root.cells@[x] == PLAYABLE_SQUARE || g.cells@[x]
            == REMOVED_SQUARE,
        !r ==> exists|y: int|
            0 <= y < HW && #[trigger] root.cells@[y] != PLAYABLE_SQUARE && g.cells@[y]
                != REMOVED_SQUARE && g.cells@[y] != root.cells@[y],
{
    if r {
        assert(may_become(root.cells@[x], g.cells@[x]));
    } else {
        let y = choose|y: int|
            0 <= y < HW && !may_become(#[trigger] root.cells@[y], g.cells@[y]);
        assert(root.cells@[y] != PLAYABLE_SQUARE);
    }
}

// ---------------------------------------------------------------------------------- stand-ins

/// The stand-in's square: square 0 for player 0 and square 4 for player 1 while open, and else
/// the first the player may take. On an untouched board that is one of the player's half, the
/// first four of a row of eight or the last four.
pub proof fn lemma_in_mind(squares: [i8; SQUARES], player: usize, r: usize, k: int)
    requires
        call_ensures(spike_square, (&squares, player), r),
        player < 2,
        0 <= k < SQUARES,
    ensures
        squares@[4 * (player as int)] == PLAYABLE_SQUARE ==> r == 4 * player,
        squares@[4 * (player as int)] != PLAYABLE_SQUARE && squares@[k] == PLAYABLE_SQUARE
            ==> squares@[r as int] == PLAYABLE_SQUARE && r <= k,
        squares@[k] == PLAYABLE_SQUARE ==> squares@[r as int] == PLAYABLE_SQUARE,
{
    let p = player as int;
    let fav = 4 * p;
    assert(favourite(p) == fav);
    if squares@[fav] == PLAYABLE_SQUARE {
        assert(open_to(squares@, p, fav));
    } else {
        assert(!untouched(squares@));
        assert(!open_to(squares@, p, fav));
        if squares@[k] == PLAYABLE_SQUARE {
            assert(open_to(squares@, p, k));
            if k < r {
                assert(!open_to(squares@, p, k));
            }
        }
    }
}

// ----------------------------------------------------------------------------------- profiles

/// Times fall into buckets that rise with them: a bucket begins no later than the time and the
/// next one later than it, a longer time falls into no earlier bucket, and a time at which a
/// bucket begins falls into it.
pub proof fn lemma_bucketed(ns: u64, b: usize, more: u64, c: usize, start: u64, next: u64)
    requires
        call_ensures(bucket_of, (ns,), b),
        call_ensures(bucket_of, (more,), c),
        ns <= more,
        b < 16,
        call_ensures(bucket_start, (b,), start),
        b < 15 ==> call_ensures(bucket_start, ((b + 1) as usize,), next),
    ensures
        start <= ns,
        b < 15 ==> ns < next,
        b <= c < 16,
        b == 0 ==> start == 0,
{
    if c < b {
        assert(edge(c as int + 1) <= edge(b as int)) by {
            lemma_edges(c as int + 1, b as int);
        }
    }
}

proof fn lemma_edges(a: int, b: int)
    requires
        0 <= a <= b < 16,
    ensures
        edge(a) <= edge(b),
    decreases b - a,
{
    if a < b {
        lemma_edges(a, b - 1);
        assert(edge(b - 1) <= edge(b));
    }
}

/// Where the buckets begin: at 0 and 100 nanoseconds, each later one half or a third up from
/// the one before it, or twice it at the far end.
pub proof fn lemma_bucket_sizes(b: usize, start: u64, c: usize, next: u64)
    requires
        1 <= b < 15,
        c == b + 1,
        call_ensures(bucket_start, (b,), start),
        call_ensures(bucket_start, (c,), next),
    ensures
        b == 1 ==> start == 100,
        b >= 13 ==> next == 2 * start,
        b < 13 && b % 2 == 1 ==> 2 * next == 3 * start,
        b < 13 && b % 2 == 0 ==> 3 * next == 4 * start,
{
}

/// Every time is counted in one bucket, so the counts add up to the number of times.
pub proof fn lemma_all_counted(times: Vec<u64>, counts: Vec<usize>)
    requires
        call_ensures(spread_times, (&times,), counts),
    ensures
        counts@.len() == 16,
        sum_to(|b: int| counts@[b] as int, 16) == times@.len(),
{
    let f = |b: int| counts@[b] as int;
    let g = |b: int| fallen(times@, b, times@.len());
    assert forall|b: int| 0 <= b < 16 implies #[trigger] f(b) == g(b) by {
        assert(counts@[b] == fallen(times@, b, times@.len()));
    }
    lemma_sum_eq(f, g, 16);
    lemma_fallen_total(times@, times@.len());
}

proof fn lemma_fallen_total(times: Seq<u64>, n: nat)
    requires
        n <= times.len(),
    ensures
        sum_to(|b: int| fallen(times, b, n), 16) == n,
    decreases n,
{
    reveal_with_fuel(sum_to, 17);
    if n > 0 {
        let m = (n - 1) as nat;
        lemma_fallen_total(times, m);
        let ns = times[n - 1] as int;
        assert forall|b: int| #[trigger] fallen(times, b, n) == fallen(times, b, m) + unit(
            falls_into(ns, b),
        ) by {}
        lemma_one_of_all(ns);
    }
}

/// A time falls into exactly one of the buckets.
proof fn lemma_one_of_all(ns: int)
    requires
        ns >= 0,
    ensures
        unit(falls_into(ns, 0)) + unit(falls_into(ns, 1)) + unit(falls_into(ns, 2)) + unit(
            falls_into(ns, 3),
        ) + unit(falls_into(ns, 4)) + unit(falls_into(ns, 5)) + unit(falls_into(ns, 6)) + unit(
            falls_into(ns, 7),
        ) + unit(falls_into(ns, 8)) + unit(falls_into(ns, 9)) + unit(falls_into(ns, 10)) + unit(
            falls_into(ns, 11),
        ) + unit(falls_into(ns, 12)) + unit(falls_into(ns, 13)) + unit(falls_into(ns, 14)) + unit(
            falls_into(ns, 15),
        ) == 1,
{
}

/// The tallest bar is 56 long, and no bar is longer than one for more, nor empty.
pub proof fn lemma_bars(count: usize, more: usize, peak: usize, n: usize, m: usize)
    requires
        call_ensures(bar, (count, peak), n),
        call_ensures(bar, (more, peak), m),
        count <= more <= peak,
        0 < peak,
    ensures
        1 <= n <= m <= 56,
        more == peak ==> m == 56,
        n > 1 ==> n * peak <= 56 * count < (n + 1) * peak,
{
    let p = peak as int;
    let x = count * 56;
    let y = more * 56;
    assert(x / p <= y / p <= 56 && (more == peak ==> y / p == 56)) by (nonlinear_arith)
        requires
            0 < p,
            x <= y <= 56 * p,
            more == peak ==> y == 56 * p,
    ;
    let q = x / p;
    assert(q * p <= x < (q + 1) * p) by (nonlinear_arith)
        requires
            0 < p,
            q == x / p,
    ;
}

/// The path of a move by what was counted during it: nothing tells nothing, a collision is slow
/// if any removal was, and another move if any insertion was, or else dead if both were.
pub proof fn lemma_path_by_counts(before: Stats, after: Stats, collision: bool, p: MovePath)
    requires
        call_ensures(MovePath::of, (&before, &after, collision), p),
        before.inserts <= after.inserts,
        before.removes <= after.removes,
    ensures
        p is Unknown <==> after.inserts == before.inserts && after.removes == before.removes,
        p is CollisionSlow || p is CollisionCheap ==> collision,
        p is InsertSlow || p is InsertFast || p is InsertDead ==> !collision,
        p is CollisionSlow ==> after.removes_slow > before.removes_slow,
        p is CollisionCheap ==> after.removes_slow <= before.removes_slow,
        p is InsertSlow ==> after.inserts_slow > before.inserts_slow,
        p is InsertFast || p is InsertDead ==> after.inserts_slow <= before.inserts_slow,
        p is InsertDead ==> after.inserts_dead == before.inserts_dead + 2,
        p is InsertFast ==> after.inserts_dead != before.inserts_dead + 2,
{
}

/// Those of an age that did not come to be of the next have gone.
pub proof fn lemma_gone(before: Vec<usize>, survivors: Vec<usize>, r: Option<Vec<usize>>, age: int)
    requires
        call_ensures(deaths, (&before, &survivors), r),
        survivors@.len() == before@.len() + 1,
        0 <= age < before@.len(),
    ensures
        r matches Some(dead) ==> dead@[age] + survivors@[age + 1] == before@[age],
        survivors@[age + 1] > before@[age] ==> r is None,
{
}

// -------------------------------------------------------------------------------- random games

/// A bounded draw is below its bound.
proof fn lemma_draw_below(s: Seq<u64>, n: u64, fuel: nat)
    requires
        n > 0,
    ensures
        0 <= bounded_draw(s, n, fuel).0 < n,
    decreases fuel,
{
    let x = output(s);
    if kept(x, n) || fuel == 0 {
        assert(0 <= (x * n) / 0x1_0000_0000_0000_0000 < n) by (nonlinear_arith)
            requires
                0 <= x < 0x1_0000_0000_0000_0000,
                n > 0,
        ;
    } else {
        lemma_draw_below(successor(s), n, (fuel - 1) as nat);
    }
}

/// Of more than `n` moves there is an `n`th.
proof fn lemma_nth_exists(cells: Seq<i8>, first: bool, player: int, n: int, k: nat)
    requires
        0 <= n < moves_below(cells, first, player, k),
        k <= SQUARES,
    ensures
        exists|b: int|
            0 <= b < SQUARES && may_play_on(cells, first, #[trigger] cell_of(b), player)
                && moves_below(cells, first, player, b as nat) == n,
    decreases k,
{
    if n < moves_below(cells, first, player, (k - 1) as nat) {
        lemma_nth_exists(cells, first, player, n, (k - 1) as nat);
    } else {
        assert(may_play_on(cells, first, cell_of(k - 1), player));
    }
}

/// A drawn move is one that its player may make.
proof fn lemma_drawn_legal(cells: Seq<i8>, first: bool, player: int, st: Seq<u64>)
    requires
        moves_open_on(cells, first, player) > 0,
    ensures
        may_play_on(
            cells,
            first,
            nth_move_on(
                cells,
                first,
                player,
                bounded_draw(
                    st,
                    moves_open_on(cells, first, player) as u64,
                    u64::MAX as nat,
                ).0,
            ),
            player,
        ),
{
    let n = moves_open_on(cells, first, player);
    lemma_sum_upper(|j: int| unit(may_play_on(cells, first, cell_of(j), player)), 80, 1);
    lemma_draw_below(st, n as u64, u64::MAX as nat);
    lemma_nth_exists(
        cells,
        first,
        player,
        bounded_draw(st, n as u64, u64::MAX as nat).0,
        SQUARES as nat,
    );
}

/// What a cell holds before a random game's next move: what its board has there, or the opening
/// board where the game is finished.
pub open spec fn held_by(g: Game, x: int) -> i8 {
    if !g.finished {
        g.cells@[x]
    } else if (x / 16 + x % 16) % 2 == 0 {
        PLAYABLE_SQUARE
    } else {
        NON_PLAYABLE_SQUARE
    }
}

/// A random game makes one legal move: on its board as it was, or, where it was finished, on
/// the opening board, where the players keep to their halves. The count of its moves goes up
/// by one, or begins again.
pub proof fn lemma_random_moves(
    b: &mut ScoreBatch,
    cells: &mut [u8],
    scores: &mut [i64],
    finished: u64,
    g: int,
)
    requires
        call_ensures(ScoreBatch::step, (b, cells, scores), finished),
        old(b).wf(),
        0 <= g < old(b).games@.len(),
    ensures
        ({
            let before = old(b).games@[g];
            let after = final(b).games@[g];
            let again = before.finished;
            &&& after.move_count == (if again {
                1
            } else {
                before.move_count + 1
            })
            &&& exists|i0: int, i1: int| {
                &&& 0 <= i0 < HW
                &&& 0 <= i1 < HW
                &&& #[trigger] held_by(before, i0) == PLAYABLE_SQUARE
                &&& #[trigger] held_by(before, i1) == PLAYABLE_SQUARE
                &&& again || before.move_count == 0 ==> i0 % 16 < 8 && i1 % 16 >= 8
                &&& forall|x: int|
                    0 <= x < HW ==> #[trigger] after.cells@[x] == (if i0 == i1 {
                        if x == i0 || (x / 16 - i0 / 16 == 1 || x / 16 - i0 / 16 == -1) && (x % 16
                            - i0 % 16 == 1 || x % 16 - i0 % 16 == -1) {
                            REMOVED_SQUARE
                        } else {
                            held_by(before, x)
                        }
                    } else if x == i0 {
                        PLAYER_0_MARK
                    } else if x == i1 {
                        PLAYER_1_MARK
                    } else {
                        held_by(before, x)
                    })
            }
        }),
{
    let before = old(b).games@[g];
    let after = final(b).games@[g];
    assert(from_opening(before));
    let start = start_cells(before);
    let first = start_first(before);
    let st = state_after(old(b).games@, old(b).rng.state(), g as nat);
    if before.finished {
        lemma_cell_of(0);
        lemma_cell_of(4);
        lemma_open_one(opening(), true, 0, 0);
        lemma_open_one(opening(), true, 1, 4);
    } else {
        lemma_both_can_move(before);
    }
    let d = draws(before, st);
    let i0 = nth_move_on(start, first, 0, d.0);
    let i1 = nth_move_on(start, first, 1, d.1);
    lemma_drawn_legal(start, first, 0, st);
    let mid = bounded_draw(st, moves_open_on(start, first, 0) as u64, u64::MAX as nat).1;
    lemma_drawn_legal(start, first, 1, mid);
    assert(after.cells@ == played(before, st));
    assert forall|x: int| 0 <= x < HW implies start[x] == #[trigger] held_by(before, x) by {}
    assert(held_by(before, i0) == PLAYABLE_SQUARE && held_by(before, i1) == PLAYABLE_SQUARE);
    assert forall|x: int| 0 <= x < HW implies #[trigger] after.cells@[x] == (if i0 == i1 {
        if x == i0 || (x / 16 - i0 / 16 == 1 || x / 16 - i0 / 16 == -1) && (x % 16 - i0 % 16 == 1
            || x % 16 - i0 % 16 == -1) {
            REMOVED_SQUARE
        } else {
            held_by(before, x)
        }
    } else if x == i0 {
        PLAYER_0_MARK
    } else if x == i1 {
        PLAYER_1_MARK
    } else {
        held_by(before, x)
    }) by {
        lemma_moved_cell(start, i0, i1, x);
        assert(start[x] == held_by(before, x));
    }
}

/// A uniform step is two bounded draws, player 0's first: each names a move by its number in
/// board order among those its player may make, and both are played at once.
pub proof fn lemma_uniform_steps(
    g: &mut Game,
    rng: &mut Rng,
    s: &mut Scratch,
    before: Game,
    n: [u32; 2],
    w: [[u64; LEGAL_WORDS]; 2],
    one: &mut Rng,
    two: &mut Rng,
    r: [u64; 2],
    i: [usize; 2],
    x: int,
)
    requires
        call_ensures(Game::uniform_step, (g, rng, s), ()),
        before == *old(g),
        before.wf(),
        call_ensures(Game::legal_count, (&before, 0usize), n@[0]),
        call_ensures(Game::legal_count, (&before, 1usize), n@[1]),
        call_ensures(Game::legal_moves, (&before, 0usize), w@[0]),
        call_ensures(Game::legal_moves, (&before, 1usize), w@[1]),
        old(one).state() == old(rng).state(),
        call_ensures(Rng::randint, (one, n@[0] as u64), r@[0]),
        old(two).state() == final(one).state(),
        call_ensures(Rng::randint, (two, n@[1] as u64), r@[1]),
        n@[0] > 0,
        n@[1] > 0,
        call_ensures(Game::select, (w@[0], r@[0] as u32), i@[0]),
        call_ensures(Game::select, (w@[1], r@[1] as u32), i@[1]),
        0 <= x < HW,
    ensures
        ({
            let i0 = i@[0] as int;
            let i1 = i@[1] as int;
            final(g).cells@[x] == (if i0 == i1 {
                if x == i0 || (x / 16 - i0 / 16 == 1 || x / 16 - i0 / 16 == -1) && (x % 16 - i0 % 16
                    == 1 || x % 16 - i0 % 16 == -1) {
                    REMOVED_SQUARE
                } else {
                    before.cells@[x]
                }
            } else if x == i0 {
                PLAYER_0_MARK
            } else if x == i1 {
                PLAYER_1_MARK
            } else {
                before.cells@[x]
            })
        }),
        final(rng).state() == final(two).state(),
        final(g).move_count == before.move_count + 1,
{
    let first = before.move_count == 0;
    lemma_nth_move(before.cells@, first, 0, w@[0]@, r@[0] as int, i@[0] as int);
    lemma_nth_move(before.cells@, first, 1, w@[1]@, r@[1] as int, i@[1] as int);
    lemma_moved_cell(before.cells@, i@[0] as int, i@[1] as int, x);
}

/// What is shown of a batch of random games: each game's squares and scores as they are after
/// the step, and how many of the games are finished.
pub proof fn lemma_batch_shown(
    b: &mut ScoreBatch,
    cells: &mut [u8],
    scores: &mut [i64],
    finished: u64,
    g: int,
    i: int,
)
    requires
        call_ensures(ScoreBatch::step, (b, cells, scores), finished),
        0 <= g < old(b).games@.len(),
        0 <= i < HW,
        (i / 16 + i % 16) % 2 == 0,
    ensures
        final(cells)@[80 * g + i / 2] == final(b).games@[g].cells@[i] as u8,
        final(scores)@[2 * g] == final(b).games@[g].scores@[0],
        final(scores)@[2 * g + 1] == final(b).games@[g].scores@[1],
        finished == sum_to(
            |h: int| unit(final(b).games@[h].finished),
            final(b).games@.len(),
        ),
{
    lemma_bit_of(i);
    let k = i / 2;
    assert(shown(final(b).games@[g], g, final(cells)@, final(scores)@));
    assert(final(cells)@[g * 80 + k] == final(b).games@[g].cells@[cell_of(k)] as u8);
    lemma_finished_sum(final(b).games@, final(b).games@.len());
}

proof fn lemma_finished_sum(games: Seq<Game>, n: nat)
    ensures
        finished_below(games, n) == sum_to(|h: int| unit(games[h].finished), n),
    decreases n,
{
    if n > 0 {
        lemma_finished_sum(games, (n - 1) as nat);
    }
}

/// A batch begins with every game at the opening.
pub proof fn lemma_batch_begins(batch: usize, seed: u64, b: ScoreBatch, g: int, x: int)
    requires
        call_ensures(ScoreBatch::new, (batch, seed), b),
        0 <= g < batch,
        0 <= x < HW,
    ensures
        b.games@.len() == batch,
        b.games@[g].move_count == 0,
        b.games@[g].cells@[x] == (if (x / 16 + x % 16) % 2 == 0 {
            PLAYABLE_SQUARE
        } else {
            NON_PLAYABLE_SQUARE
        }),
{
}

} // verus!
