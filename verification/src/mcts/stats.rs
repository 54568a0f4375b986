//! The statistics of a search, and what happens to them: every change is a call of the rule.
//!
//! A rule's calls have no contracts, so what a call makes of its arguments is whatever
//! `call_ensures` says of it. What is fixed here is which calls are made, with what, and where
//! their results go.
use vstd::prelude::*;

use crate::board::SQUARES;
use crate::game::{outcome, Game};
use crate::legal::{cell_of, holds, lemma_cell_of, LEGAL_WORDS};
use crate::mcts::arena::Arena;
use crate::mcts::descent::{game_at, key_after, Descent};
use crate::mcts::slot::{PathStep, Root, Slot, ROOT};
use crate::mcts::variant::{selects_both, Choice, Variant};
use crate::moves::moved;
use crate::rng::Rng;

verus! {

/// Are these the two players' masks of a position?
pub open spec fn masks_of(g: Game, legal: [[u64; LEGAL_WORDS]; 2]) -> bool {
    g.is_mask(legal@[0]@, 0) && g.is_mask(legal@[1]@, 1)
}

/// Are these the two players' numbers of legal moves?
pub open spec fn counts_of(g: Game, counts: [u32; 2]) -> bool {
    counts@[0] == g.moves_open(0) && counts@[1] == g.moves_open(1)
}

/// The two players' masks of a position.
pub fn masks(g: &Game) -> (legal: [[u64; LEGAL_WORDS]; 2])
    ensures
        masks_of(*g, legal),
        g.wf() ==> forall|p: int, k: int|
            0 <= p < 2 && 0 <= k < 128 ==> (#[trigger] holds(legal@[p]@, k) <==> k < SQUARES
                && g.may_play(cell_of(k), p)),
{
    [g.legal_moves(0), g.legal_moves(1)]
}

/// The two players' numbers of legal moves.
pub fn counts(g: &Game) -> (n: [u32; 2])
    requires
        g.wf(),
    ensures
        counts_of(*g, n),
{
    [g.legal_count(0), g.legal_count(1)]
}

/// Adopting the model's output for both players: player 0's, then player 1's.
pub open spec fn primes<V: Variant>(
    before: V::Stats,
    legal: [[u64; LEGAL_WORDS]; 2],
    reading: V::Reading,
    after: V::Stats,
) -> bool {
    exists|mid: V::Stats|
        {
            &&& #[trigger] call_ensures(V::set_priors, (before, &reading, legal@[0], 0usize), mid)
            &&& call_ensures(V::set_priors, (mid, &reading, legal@[1], 1usize), after)
        }
}

/// Adopt the model's output for both players, in place.
pub fn prime<V: Variant>(
    stats: &mut V::Stats,
    legal: [[u64; LEGAL_WORDS]; 2],
    reading: &V::Reading,
)
    ensures
        primes::<V>(*old(stats), legal, *reading, *final(stats)),
{
    let mut held = V::Stats::default();
    std::mem::swap(&mut held, stats);
    let ghost before = held;
    let mid = V::set_priors(held, reading, legal[0], 0);
    let ghost half = mid;
    *stats = V::set_priors(mid, reading, legal[1], 1);
    assert(call_ensures(V::set_priors, (before, reading, legal@[0], 0usize), half));
}

/// Turning a statistic block into that of a root. `before` and `after` are the statistics and
/// the generator.
pub open spec fn roots<V: Variant>(
    before: (V::Stats, Rng),
    legal: [[u64; LEGAL_WORDS]; 2],
    params: V::Params,
    after: (V::Stats, Rng),
) -> bool {
    call_ensures(V::make_root, (before.0, legal, &params, before.1), after)
}

/// The model's output adopted at position `g`.
pub open spec fn primes_at<V: Variant>(
    g: Game,
    before: V::Stats,
    reading: V::Reading,
    after: V::Stats,
) -> bool {
    exists|legal: [[u64; LEGAL_WORDS]; 2]| #[trigger]
        masks_of(g, legal) && primes::<V>(before, legal, reading, after)
}

/// The model's output adopted at a root, and then the root's own noise, by way of the
/// statistics `mid`.
pub open spec fn primes_root_by<V: Variant>(
    g: Game,
    before: (V::Stats, Rng),
    reading: V::Reading,
    params: V::Params,
    after: (V::Stats, Rng),
    legal: [[u64; LEGAL_WORDS]; 2],
    mid: V::Stats,
) -> bool {
    &&& masks_of(g, legal)
    &&& primes::<V>(before.0, legal, reading, mid)
    &&& roots::<V>((mid, before.1), legal, params, after)
}

/// The model's output adopted at a root in position `g`, and then the root's own noise.
pub open spec fn primes_root<V: Variant>(
    g: Game,
    before: (V::Stats, Rng),
    reading: V::Reading,
    params: V::Params,
    after: (V::Stats, Rng),
) -> bool {
    exists|legal: [[u64; LEGAL_WORDS]; 2], mid: V::Stats| #[trigger]
        primes_root_by::<V>(g, before, reading, params, after, legal, mid)
}

/// A slot whose root has had its answer: the statistics are new, and it no longer waits.
/// `rngs` is the generator before and after.
pub open spec fn slot_primed<V: Variant>(
    before: Slot<V::Stats, V::Prob>,
    reading: V::Reading,
    params: V::Params,
    rngs: (Rng, Rng),
    after: Slot<V::Stats, V::Prob>,
) -> bool {
    &&& after == (Slot {
        root: Root { stats: after.root.stats, pending: false, ..before.root },
        ..before
    })
    &&& primes_root::<V>(
        before.root.game,
        (before.root.stats, rngs.0),
        reading,
        params,
        (after.root.stats, rngs.1),
    )
}

/// Turn a statistic block into that of a root, in place.
pub fn enroot<V: Variant>(
    stats: &mut V::Stats,
    legal: [[u64; LEGAL_WORDS]; 2],
    params: &V::Params,
    rng: &mut Rng,
)
    ensures
        roots::<V>(
            (*old(stats), *old(rng)),
            legal,
            *params,
            (*final(stats), *final(rng)),
        ),
{
    let mut held = V::Stats::default();
    std::mem::swap(&mut held, stats);
    let (new_stats, next) = V::make_root(held, legal, params, rng.clone());
    *stats = new_stats;
    *rng = next;
}

/// Fold a value into a node's edges, in place.
pub fn credit<V: Variant>(
    stats: &mut V::Stats,
    choice: [Choice<V::Prob>; 2],
    value: V::Value,
    legal_counts: [u32; 2],
    params: &V::Params,
)
    ensures
        call_ensures(
            V::backup,
            (*old(stats), choice, value, legal_counts, params),
            *final(stats),
        ),
{
    let mut held = V::Stats::default();
    std::mem::swap(&mut held, stats);
    *stats = V::backup(held, choice, value, legal_counts, params);
}

// ------------------------------------------------------------------------- along a path

/// The statistics of a root and of the live nodes, by node.
pub open spec fn stats_of<S>(root: Root<S>, a: Arena<S>) -> Map<u32, S> {
    Map::new(
        |n: u32| n == ROOT || a.is_live(n as int),
        |n: u32|
            if n == ROOT {
                root.stats
            } else {
                a.nodes@[n as int].stats
            },
    )
}

/// A value folded into the edges chosen at one step of a path. No other statistics change.
pub open spec fn credited<V: Variant>(
    g: Game,
    step: PathStep<V::Prob>,
    value: V::Value,
    params: V::Params,
    before: Map<u32, V::Stats>,
    after: Map<u32, V::Stats>,
) -> bool {
    &&& after == before.insert(step.node, after[step.node])
    &&& exists|n: [u32; 2]| #[trigger]
        counts_of(g, n) && call_ensures(
            V::backup,
            (before[step.node], step.choice, value, n, &params),
            after[step.node],
        )
}

/// Step `k` of a path is credited between `worlds[k + 1]` and `worlds[k]`.
pub open spec fn credited_at<V: Variant>(
    root: Root<V::Stats>,
    a: Arena<V::Stats>,
    steps: Seq<PathStep<V::Prob>>,
    value: V::Value,
    params: V::Params,
    worlds: Seq<Map<u32, V::Stats>>,
    k: int,
) -> bool {
    credited::<V>(
        game_at(root, a, steps[k].node),
        steps[k],
        value,
        params,
        worlds[k + 1],
        worlds[k],
    )
}

/// A value folded into every step of a path, deepest first: `worlds[k]` are the statistics once
/// step `k` is credited.
pub open spec fn credits<V: Variant>(
    root: Root<V::Stats>,
    a: Arena<V::Stats>,
    steps: Seq<PathStep<V::Prob>>,
    value: V::Value,
    params: V::Params,
    worlds: Seq<Map<u32, V::Stats>>,
) -> bool {
    &&& worlds.len() == steps.len() + 1
    &&& forall|k: int|
        0 <= k < steps.len() ==> #[trigger] credited_at::<V>(
            root,
            a,
            steps,
            value,
            params,
            worlds,
            k,
        )
}

/// Backing a value up a path takes the statistics from `before` to `after`.
pub open spec fn backs_up<V: Variant>(
    root: Root<V::Stats>,
    a: Arena<V::Stats>,
    steps: Seq<PathStep<V::Prob>>,
    value: V::Value,
    params: V::Params,
    before: Map<u32, V::Stats>,
    after: Map<u32, V::Stats>,
) -> bool {
    exists|worlds: Seq<Map<u32, V::Stats>>| {
        &&& #[trigger] credits::<V>(root, a, steps, value, params, worlds)
        &&& worlds[steps.len() as int] == before
        &&& worlds[0] == after
    }
}

/// A node that no step from `lo` to `hi` is at keeps its statistics over them.
proof fn lemma_off_path<V: Variant>(
    root: Root<V::Stats>,
    a: Arena<V::Stats>,
    steps: Seq<PathStep<V::Prob>>,
    value: V::Value,
    params: V::Params,
    worlds: Seq<Map<u32, V::Stats>>,
    n: u32,
    lo: int,
    hi: int,
)
    requires
        credits::<V>(root, a, steps, value, params, worlds),
        0 <= lo <= hi <= steps.len(),
        forall|k: int| lo <= k < hi ==> (#[trigger] steps[k]).node != n,
    ensures
        worlds[lo][n] == worlds[hi][n],
    decreases hi - lo,
{
    if lo < hi {
        lemma_off_path::<V>(root, a, steps, value, params, worlds, n, lo + 1, hi);
        assert(credited_at::<V>(root, a, steps, value, params, worlds, lo));
        assert(steps[lo].node != n);
    }
}

/// A backup credits the whole path: each node that a path passes once has the value folded
/// into the edges chosen there, exactly once.
pub proof fn lemma_whole_path<V: Variant>(
    root: Root<V::Stats>,
    a: Arena<V::Stats>,
    steps: Seq<PathStep<V::Prob>>,
    value: V::Value,
    params: V::Params,
    before: Map<u32, V::Stats>,
    after: Map<u32, V::Stats>,
    k: int,
)
    requires
        backs_up::<V>(root, a, steps, value, params, before, after),
        0 <= k < steps.len(),
        forall|j: int| 0 <= j < steps.len() && j != k ==> (#[trigger] steps[j]).node != steps[k].node,
    ensures
        exists|n: [u32; 2]| #[trigger]
            counts_of(game_at(root, a, steps[k].node), n) && call_ensures(
                V::backup,
                (before[steps[k].node], steps[k].choice, value, n, &params),
                after[steps[k].node],
            ),
{
    let worlds = choose|worlds: Seq<Map<u32, V::Stats>>| {
        &&& #[trigger] credits::<V>(root, a, steps, value, params, worlds)
        &&& worlds[steps.len() as int] == before
        &&& worlds[0] == after
    };
    let n = steps[k].node;
    lemma_off_path::<V>(root, a, steps, value, params, worlds, n, 0, k);
    lemma_off_path::<V>(root, a, steps, value, params, worlds, n, k + 1, steps.len() as int);
    assert(credited_at::<V>(root, a, steps, value, params, worlds, k));
}

/// A backup leaves alone what is off the path.
pub proof fn lemma_rest_untouched<V: Variant>(
    root: Root<V::Stats>,
    a: Arena<V::Stats>,
    steps: Seq<PathStep<V::Prob>>,
    value: V::Value,
    params: V::Params,
    before: Map<u32, V::Stats>,
    after: Map<u32, V::Stats>,
    n: u32,
)
    requires
        backs_up::<V>(root, a, steps, value, params, before, after),
        forall|j: int| 0 <= j < steps.len() ==> (#[trigger] steps[j]).node != n,
    ensures
        after[n] == before[n],
{
    let worlds = choose|worlds: Seq<Map<u32, V::Stats>>| {
        &&& #[trigger] credits::<V>(root, a, steps, value, params, worlds)
        &&& worlds[steps.len() as int] == before
        &&& worlds[0] == after
    };
    lemma_off_path::<V>(root, a, steps, value, params, worlds, n, 0, steps.len() as int);
}

// --------------------------------------------------------------------- down a path and back

/// A move selected at one step of a path. No other statistics change. `before` and `after` are
/// the statistics and the generator.
pub open spec fn selected<V: Variant>(
    g: Game,
    step: PathStep<V::Prob>,
    params: V::Params,
    before: (Map<u32, V::Stats>, Rng),
    after: (Map<u32, V::Stats>, Rng),
) -> bool {
    let n = step.node;
    &&& after.0 == before.0.insert(n, after.0[n])
    &&& exists|legal: [[u64; LEGAL_WORDS]; 2]| #[trigger]
        masks_of(g, legal) && selects_both::<V>(
            (before.0[n], before.1),
            legal,
            params,
            (after.0[n], after.1),
            step.choice,
        )
}

/// Step `k` of a path is selected between `worlds[k]` and `worlds[k + 1]`.
pub open spec fn selected_at<V: Variant>(
    root: Root<V::Stats>,
    a: Arena<V::Stats>,
    steps: Seq<PathStep<V::Prob>>,
    params: V::Params,
    worlds: Seq<(Map<u32, V::Stats>, Rng)>,
    k: int,
) -> bool {
    selected::<V>(
        game_at(root, a, steps[k].node),
        steps[k],
        params,
        worlds[k],
        worlds[k + 1],
    )
}

/// The moves of a path selected from the root on, by way of `worlds`.
#[verifier::opaque]
pub open spec fn selections<V: Variant>(
    root: Root<V::Stats>,
    a: Arena<V::Stats>,
    steps: Seq<PathStep<V::Prob>>,
    params: V::Params,
    before: (Map<u32, V::Stats>, Rng),
    after: (Map<u32, V::Stats>, Rng),
    worlds: Seq<(Map<u32, V::Stats>, Rng)>,
) -> bool {
    &&& worlds.len() == steps.len() + 1
    &&& worlds[0] == before
    &&& worlds.last() == after
    &&& forall|k: int|
        0 <= k < steps.len() ==> #[trigger] selected_at::<V>(root, a, steps, params, worlds, k)
}

/// Selecting the moves of a path, from the root on, takes the statistics and the generator from
/// `before` to `after`.
#[verifier::opaque]
pub open spec fn selects_path<V: Variant>(
    root: Root<V::Stats>,
    a: Arena<V::Stats>,
    steps: Seq<PathStep<V::Prob>>,
    params: V::Params,
    before: (Map<u32, V::Stats>, Rng),
    after: (Map<u32, V::Stats>, Rng),
) -> bool {
    exists|worlds: Seq<(Map<u32, V::Stats>, Rng)>| #[trigger]
        selections::<V>(root, a, steps, params, before, after, worlds)
}

/// The empty path.
pub(crate) proof fn lemma_select_none<V: Variant>(
    root: Root<V::Stats>,
    a: Arena<V::Stats>,
    steps: Seq<PathStep<V::Prob>>,
    params: V::Params,
    at: (Map<u32, V::Stats>, Rng),
)
    requires
        steps.len() == 0,
    ensures
        selects_path::<V>(root, a, steps, params, at, at),
{
    reveal(selects_path);
    reveal(selections);
    assert(selections::<V>(root, a, steps, params, at, at, seq![at]));
}

/// One more step.
pub(crate) proof fn lemma_select_on<V: Variant>(
    root: Root<V::Stats>,
    a: Arena<V::Stats>,
    steps: Seq<PathStep<V::Prob>>,
    params: V::Params,
    before: (Map<u32, V::Stats>, Rng),
    mid: (Map<u32, V::Stats>, Rng),
    after: (Map<u32, V::Stats>, Rng),
    step: PathStep<V::Prob>,
)
    requires
        selects_path::<V>(root, a, steps, params, before, mid),
        selected::<V>(game_at(root, a, step.node), step, params, mid, after),
    ensures
        selects_path::<V>(root, a, steps.push(step), params, before, after),
{
    reveal(selects_path);
    reveal(selections);
    let w0 = choose|worlds: Seq<(Map<u32, V::Stats>, Rng)>| #[trigger]
        selections::<V>(root, a, steps, params, before, mid, worlds);
    let w1 = w0.push(after);
    let more = steps.push(step);
    assert forall|k: int| 0 <= k < more.len() implies #[trigger] selected_at::<V>(
        root,
        a,
        more,
        params,
        w1,
        k,
    ) by {
        if k < steps.len() {
            assert(selected_at::<V>(root, a, steps, params, w0, k));
        }
    }
    assert(selections::<V>(root, a, more, params, before, after, w1));
}

/// The statistics `after` are those of `before`, with fresh ones for any node that is new.
pub open spec fn grown<V: Variant>(
    before: Map<u32, V::Stats>,
    after: Map<u32, V::Stats>,
) -> bool {
    &&& forall|n: u32| #[trigger]
        before.contains_key(n) ==> after.contains_key(n) && after[n] == before[n]
    &&& forall|n: u32| #[trigger]
        after.contains_key(n) && !before.contains_key(n) ==> call_ensures(
            <V::Stats as Default>::default,
            (),
            after[n],
        )
}

/// A path to the board `cells` of the finished game `g`, whose result is backed up along it.
/// `mid` are the statistics with those of any new node.
pub open spec fn settled_by<V: Variant>(
    root: Root<V::Stats>,
    a: Arena<V::Stats>,
    steps: Seq<PathStep<V::Prob>>,
    cells: Seq<i8>,
    params: V::Params,
    before: Map<u32, V::Stats>,
    after: Map<u32, V::Stats>,
    g: Game,
    result: [i8; 2],
    value: V::Value,
    mid: Map<u32, V::Stats>,
) -> bool {
    &&& g.wf()
    &&& g.finished
    &&& g.cells@ == cells
    &&& result@ == outcome(g.scores@)
    &&& call_ensures(V::terminal, (result,), value)
    &&& grown::<V>(before, mid)
    &&& backs_up::<V>(root, a, steps, value, params, mid, after)
}

/// A path to a board on which the game is finished, whose result is backed up along it.
pub open spec fn settles<V: Variant>(
    root: Root<V::Stats>,
    a: Arena<V::Stats>,
    steps: Seq<PathStep<V::Prob>>,
    cells: Seq<i8>,
    params: V::Params,
    before: Map<u32, V::Stats>,
    after: Map<u32, V::Stats>,
) -> bool {
    exists|g: Game, result: [i8; 2], value: V::Value, mid: Map<u32, V::Stats>| #[trigger]
        settled_by::<V>(root, a, steps, cells, params, before, after, g, result, value, mid)
}

/// Where a path leads, as a key.
pub open spec fn end_of<S, P>(root: Root<S>, a: Arena<S>, steps: Seq<PathStep<P>>) -> u64 {
    if steps.len() > 0 {
        key_after(root, a, steps.last())
    } else {
        root.key
    }
}

/// The board a path leads to: that of the node there is for it, or else the one that its last
/// move makes.
pub open spec fn end_cells<S, P>(
    root: Root<S>,
    a: Arena<S>,
    steps: Seq<PathStep<P>>,
) -> Seq<i8> {
    let end = end_of(root, a, steps);
    if steps.len() == 0 {
        root.game.cells@
    } else if a.has(end) {
        a.nodes@[a.index@[end] as int].game.cells@
    } else {
        made_cells(root, a, steps.last())
    }
}

/// The board that the move chosen at a path step makes.
pub open spec fn made_cells<S, P>(root: Root<S>, a: Arena<S>, step: PathStep<P>) -> Seq<i8> {
    moved(
        game_at(root, a, step.node).cells@,
        cell_of(step.choice@[0].action as int),
        cell_of(step.choice@[1].action as int),
    )
}

/// What the end of a descent along a path does to the statistics: a terminal is backed up, and
/// nothing else changes those there are.
#[verifier::opaque]
pub open spec fn concludes<V: Variant>(
    root: Root<V::Stats>,
    a: Arena<V::Stats>,
    steps: Seq<PathStep<V::Prob>>,
    params: V::Params,
    before: Map<u32, V::Stats>,
    after: Map<u32, V::Stats>,
    r: Descent,
) -> bool {
    if r is NoEntry {
        settles::<V>(root, a, steps, end_cells(root, a, steps), params, before, after)
    } else {
        grown::<V>(before, after)
    }
}

/// A descent along a path, with the statistics `mid` once its moves are selected.
pub open spec fn simulates_by<V: Variant>(
    root: Root<V::Stats>,
    a: Arena<V::Stats>,
    steps: Seq<PathStep<V::Prob>>,
    params: V::Params,
    rngs: (Rng, Rng),
    after: Map<u32, V::Stats>,
    r: Descent,
    mid: Map<u32, V::Stats>,
) -> bool {
    let begin = (stats_of(root, a), rngs.0);
    &&& selects_path::<V>(root, a, steps, params, begin, (mid, rngs.1))
    &&& concludes::<V>(root, a, steps, params, mid, after, r)
}

/// What a descent along a path does to the statistics and the generator: its moves are
/// selected, from the root on, and the end is as [`concludes`] says.
#[verifier::opaque]
pub open spec fn simulates<V: Variant>(
    root: Root<V::Stats>,
    a: Arena<V::Stats>,
    steps: Seq<PathStep<V::Prob>>,
    params: V::Params,
    rngs: (Rng, Rng),
    after: Map<u32, V::Stats>,
    r: Descent,
) -> bool {
    exists|mid: Map<u32, V::Stats>| #[trigger]
        simulates_by::<V>(root, a, steps, params, rngs, after, r, mid)
}

/// Selecting a path and concluding make a simulation.
pub(crate) proof fn lemma_simulated<V: Variant>(
    root: Root<V::Stats>,
    a: Arena<V::Stats>,
    steps: Seq<PathStep<V::Prob>>,
    params: V::Params,
    rng: Rng,
    mid: (Map<u32, V::Stats>, Rng),
    after: Map<u32, V::Stats>,
    r: Descent,
)
    requires
        selects_path::<V>(root, a, steps, params, (stats_of(root, a), rng), mid),
        if r is NoEntry {
            concludes::<V>(root, a, steps, params, mid.0, after, r) || settles::<V>(
                root,
                a,
                steps,
                end_cells(root, a, steps),
                params,
                mid.0,
                after,
            )
        } else {
            concludes::<V>(root, a, steps, params, mid.0, after, r) || mid.0 == after
        },
    ensures
        simulates::<V>(root, a, steps, params, (rng, mid.1), after, r),
{
    reveal(concludes);
    reveal(simulates);
    assert(simulates_by::<V>(root, a, steps, params, (rng, mid.1), after, r, mid.0));
}

/// A backup is a matter of the positions on the path alone.
pub(crate) proof fn lemma_backs_up_same<V: Variant>(
    r0: Root<V::Stats>,
    a: Arena<V::Stats>,
    r1: Root<V::Stats>,
    b: Arena<V::Stats>,
    steps: Seq<PathStep<V::Prob>>,
    value: V::Value,
    params: V::Params,
    before: Map<u32, V::Stats>,
    after: Map<u32, V::Stats>,
)
    requires
        backs_up::<V>(r0, a, steps, value, params, before, after),
        forall|k: int|
            0 <= k < steps.len() ==> game_at(r0, a, (#[trigger] steps[k]).node) == game_at(
                r1,
                b,
                steps[k].node,
            ),
    ensures
        backs_up::<V>(r1, b, steps, value, params, before, after),
{
    let worlds = choose|worlds: Seq<Map<u32, V::Stats>>| {
        &&& #[trigger] credits::<V>(r0, a, steps, value, params, worlds)
        &&& worlds[steps.len() as int] == before
        &&& worlds[0] == after
    };
    assert forall|k: int| 0 <= k < steps.len() implies #[trigger] credited_at::<V>(
        r1,
        b,
        steps,
        value,
        params,
        worlds,
        k,
    ) by {
        assert(credited_at::<V>(r0, a, steps, value, params, worlds, k));
        assert(game_at(r0, a, steps[k].node) == game_at(r1, b, steps[k].node));
    }
    assert(credits::<V>(r1, b, steps, value, params, worlds));
}

/// Settling a path is a matter of the positions on it alone.
pub(crate) proof fn lemma_settles_same<V: Variant>(
    r0: Root<V::Stats>,
    a: Arena<V::Stats>,
    r1: Root<V::Stats>,
    b: Arena<V::Stats>,
    steps: Seq<PathStep<V::Prob>>,
    cells: Seq<i8>,
    params: V::Params,
    before: Map<u32, V::Stats>,
    after: Map<u32, V::Stats>,
)
    requires
        settles::<V>(r0, a, steps, cells, params, before, after),
        forall|k: int|
            0 <= k < steps.len() ==> game_at(r0, a, (#[trigger] steps[k]).node) == game_at(
                r1,
                b,
                steps[k].node,
            ),
    ensures
        settles::<V>(r1, b, steps, cells, params, before, after),
{
    let (g, result, value, mid) = choose|
        g: Game,
        result: [i8; 2],
        value: V::Value,
        mid: Map<u32, V::Stats>,
    | #[trigger]
        settled_by::<V>(r0, a, steps, cells, params, before, after, g, result, value, mid);
    lemma_backs_up_same::<V>(r0, a, r1, b, steps, value, params, mid, after);
    assert(settled_by::<V>(r1, b, steps, cells, params, before, after, g, result, value, mid));
}

// ---------------------------------------------------------------------------------- masks

/// The masks of a position in order are the moves legal there.
pub proof fn lemma_masks(g: Game, legal: [[u64; LEGAL_WORDS]; 2])
    requires
        g.wf(),
        masks_of(g, legal),
    ensures
        forall|p: int, k: int|
            0 <= p < 2 && 0 <= k < 128 ==> (#[trigger] holds(legal@[p]@, k) <==> k < SQUARES
                && g.may_play(cell_of(k), p)),
{
    assert forall|p: int, k: int| 0 <= p < 2 && 0 <= k < 128 implies (#[trigger] holds(
        legal@[p]@,
        k,
    ) <==> k < SQUARES && g.may_play(cell_of(k), p)) by {
        if k < SQUARES {
            lemma_cell_of(k);
        }
    }
}

} // verus!
