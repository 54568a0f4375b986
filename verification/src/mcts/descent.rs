//! One simulation: walk down from a game's root until the search needs something it does not
//! have, then stop and say what it is waiting for.
//!
//! Descending costs no game logic at all. A child is identified by stepping the parent's
//! Zobrist key with the move, and looked up by that key; only when the lookup misses does the
//! engine run, once, to build the position the new node owns. So a descent through `d`
//! existing nodes is `d` hash steps and `d` probes, and the engine is touched once per node
//! ever created rather than once per edge ever traversed.
use vstd::prelude::*;

use crate::balance::{count_of, holding, lemma_move_takes, lemma_playable_bound};
use crate::board::{HW, PLAYABLE_SQUARE, SQUARES};
use crate::game::{
    any_playable, lemma_has_move, lemma_moves_open, playable_even, squares_of, Game,
};
use crate::legal::{cell_of, legal_cell, lemma_cell_of, LEGAL_WORDS};
use crate::mcts::arena::{only_node_changed, pending, touch_list, Arena, Node};
use crate::mcts::config::PENDING;
use crate::mcts::slot::{PathStep, Root, Slot, MAX_PLY, ROOT};
use crate::mcts::stats::{
    backs_up, concludes, counts, credit, credited_at, credits, end_cells, end_of, grown,
    lemma_backs_up_same, lemma_select_none, lemma_select_on, lemma_settles_same, lemma_simulated,
    made_cells, masks, selected, selects_path, settled_by, settles, simulates, stats_of,
};
use crate::mcts::variant::{select, Choice, Variant};
use crate::mcts::visits::{
    comes_to, entered, lemma_enters_on, lemma_enters_same, lemma_grows, lemma_starts, lemma_steps_on,
    lemma_stops, lemma_waits, makes_node, node_added, passed,
};
use crate::moves::moved;
use crate::reach::{lemma_reach_move, lemma_reach_on, lemma_reach_self, reachable};
use crate::rng::Rng;
use crate::scratch::Scratch;
use crate::sums::{lemma_sum_lt, lemma_sum_nonneg};
use crate::zobrist;
use crate::zobrist::{hash_of, hash_step, states};

verus! {

/// How a descent ended.
#[derive(Clone, Copy, PartialEq, Eq, Debug, Structural)]
pub enum Descent {
    /// Reached a terminal, whose values are already backed up and counted. The game is free
    /// to descend again this cycle.
    NoEntry,
    /// The game now holds an unresolved path and is out of the cycle until the batch returns.
    /// `fresh` when this descent created the node, and so owes the buffer an entry; a pending
    /// hit rides on the entry another game already made.
    Entry { node: u32, fresh: bool },
    /// The node stack is full: nothing created, nothing backed up, no path left in flight.
    /// A budget reached, not a broken invariant: the caller counts it and moves on.
    Exhausted,
}

// ------------------------------------------------------------------------------ positions

/// A game that can be searched: its derived state agrees with its board, and while it is not
/// finished each player has a move.
pub open spec fn playing(g: Game) -> bool {
    &&& g.wf()
    &&& states(squares_of(g.cells@))
    &&& g.finished || (g.moves_open(0) > 0 && g.moves_open(1) > 0)
    &&& g.move_count + count_of(g.cells@, PLAYABLE_SQUARE) <= u32::MAX
}

/// A legal move leads from a game that can be searched to another.
pub proof fn lemma_playing_step(g: Game, next: Game, k0: int, k1: int)
    requires
        playing(g),
        0 <= k0 < SQUARES,
        0 <= k1 < SQUARES,
        g.may_play(cell_of(k0), 0),
        g.may_play(cell_of(k1), 1),
        next.wf(),
        next.cells@ == moved(g.cells@, cell_of(k0), cell_of(k1)),
        next.move_count == g.move_count + 1,
    ensures
        playing(next),
{
    let i0 = cell_of(k0);
    let i1 = cell_of(k1);
    lemma_cell_of(k0);
    lemma_cell_of(k1);
    lemma_move_takes(g.cells@, i0, i1);
    if !next.finished {
        lemma_has_move(next.cells@, 0);
        lemma_has_move(next.cells@, 1);
    }
    let s = squares_of(g.cells@);
    let t = squares_of(next.cells@);
    assert forall|k: int| 0 <= k < SQUARES implies zobrist::is_state(#[trigger] t[k]) by {
        lemma_cell_of(k);
        assert(zobrist::is_state(s[k]));
    }
}

/// A node holds the position its key names, and a terminal one is not pending.
pub open spec fn node_ok<S>(n: Node<S>) -> bool {
    &&& playing(n.game)
    &&& n.key == hash_of(squares_of(n.game.cells@))
    &&& n.game.finished ==> !pending(n.flags)
}

/// Every node of the arena holds the position its key names.
pub open spec fn arena_ok<S>(a: Arena<S>) -> bool {
    &&& a.wf()
    &&& forall|i: int| #[trigger] a.is_live(i) ==> node_ok(a.nodes@[i])
}

/// A root holds the position its key names.
pub open spec fn root_ok<S>(r: Root<S>) -> bool {
    &&& playing(r.game)
    &&& r.key == hash_of(squares_of(r.game.cells@))
}

/// The key of a path step's node.
pub open spec fn key_at<S>(root: Root<S>, a: Arena<S>, node: u32) -> u64 {
    if node == ROOT {
        root.key
    } else {
        a.nodes@[node as int].key
    }
}

/// The position of a path step's node.
pub open spec fn game_at<S>(root: Root<S>, a: Arena<S>, node: u32) -> Game {
    if node == ROOT {
        root.game
    } else {
        a.nodes@[node as int].game
    }
}

/// Where the move chosen at a path step leads, as a key.
pub open spec fn key_after<S, P>(root: Root<S>, a: Arena<S>, step: PathStep<P>) -> u64 {
    hash_step(
        key_at(root, a, step.node),
        squares_of(game_at(root, a, step.node).cells@),
        step.choice@[0].action as int,
        step.choice@[1].action as int,
    )
}

/// One step of a path: at the root or at a live node, with a move legal there.
pub open spec fn step_ok<S, P>(root: Root<S>, a: Arena<S>, step: PathStep<P>) -> bool {
    &&& step.node == ROOT || a.is_live(step.node as int)
    &&& step.choice@[0].action < SQUARES
    &&& step.choice@[1].action < SQUARES
    &&& game_at(root, a, step.node).may_play(cell_of(step.choice@[0].action as int), 0)
    &&& game_at(root, a, step.node).may_play(cell_of(step.choice@[1].action as int), 1)
}

/// A route from the root to the position with key `end`: legal moves, each leading, as keys
/// tell, to the next node.
pub open spec fn route<S, P>(
    root: Root<S>,
    a: Arena<S>,
    steps: Seq<PathStep<P>>,
    end: u64,
) -> bool {
    &&& steps.len() <= MAX_PLY
    &&& steps.len() > 0 ==> steps[0].node == ROOT
    &&& forall|k: int| 0 <= k < steps.len() ==> step_ok(root, a, #[trigger] steps[k])
    &&& forall|k: int|
        0 < k < steps.len() ==> (#[trigger] steps[k]).node != ROOT && key_at(
            root,
            a,
            steps[k].node,
        ) == key_after(root, a, steps[k - 1])
    &&& end == (if steps.len() > 0 {
        key_after(root, a, steps.last())
    } else {
        root.key
    })
}

// --------------------------------------------------------------------- what may change

/// Two nodes are the same but for their statistics.
pub open spec fn same_but_stats<S>(a: Node<S>, b: Node<S>) -> bool {
    &&& a.key == b.key
    &&& a.game == b.game
    &&& a.flags == b.flags
    &&& a.ids == b.ids
    &&& a.id_count == b.id_count
    &&& a.id_cursor == b.id_cursor
    &&& a.sweep_age == b.sweep_age
}

/// Two arenas are the same but for statistics.
pub open spec fn arena_same_but_stats<S>(a: Arena<S>, b: Arena<S>) -> bool {
    &&& a.nodes@.len() == b.nodes@.len()
    &&& a.free == b.free
    &&& a.index == b.index
    &&& a.capacity == b.capacity
    &&& a.live == b.live
    &&& a.overflows == b.overflows
    &&& forall|i: int|
        0 <= i < a.nodes@.len() ==> same_but_stats(#[trigger] a.nodes@[i], b.nodes@[i])
}

/// Two roots are the same but for statistics.
pub open spec fn root_same_but_stats<S>(a: Root<S>, b: Root<S>) -> bool {
    a.key == b.key && a.game == b.game && a.pending == b.pending
}

/// Changing statistics keeps an arena in order.
proof fn lemma_stats_only<S>(a: Arena<S>, b: Arena<S>)
    requires
        arena_ok(a),
        arena_same_but_stats(a, b),
    ensures
        arena_ok(b),
        forall|i: int| #[trigger] b.is_live(i) <==> a.is_live(i),
{
    assert forall|i: int| 0 <= i < b.nodes@.len() implies (#[trigger] b.nodes@[i]).wf() by {
        assert(a.nodes@[i].wf());
        assert(same_but_stats(a.nodes@[i], b.nodes@[i]));
        assert(a.nodes@[i].listed() =~= b.nodes@[i].listed());
    }
    assert forall|i: int| #[trigger] b.is_live(i) implies b.index@.contains_key(b.nodes@[i].key)
        && b.index@[b.nodes@[i].key] == i && node_ok(b.nodes@[i]) by {
        assert(a.is_live(i));
        assert(same_but_stats(a.nodes@[i], b.nodes@[i]));
    }
    assert forall|k: u64| #[trigger] b.index@.contains_key(k) implies b.is_live(
        b.index@[k] as int,
    ) && b.nodes@[b.index@[k] as int].key == k by {
        assert(a.index@.contains_key(k));
        let i = a.index@[k] as int;
        assert(a.is_live(i));
        assert(same_but_stats(a.nodes@[i], b.nodes@[i]));
    }
    assert forall|i: int| 0 <= i < b.nodes@.len() && !b.is_live(i) implies (
    #[trigger] b.nodes@[i]).id_count == 0 by {
        assert(!a.is_live(i));
        assert(same_but_stats(a.nodes@[i], b.nodes@[i]));
        assert(a.nodes@[i].id_count == 0);
    }
}

/// Is node `i` on the path?
pub open spec fn on_path<P>(steps: Seq<PathStep<P>>, i: int) -> bool {
    exists|k: int| 0 <= k < steps.len() && (#[trigger] steps[k]).node == i
}

/// Fold `value` into every node on the path, then retire the simulation.
///
/// Deepest first; it makes no difference to the arithmetic, since squares are only ever taken
/// and so no position can repeat on one path.
pub fn back_up<V: Variant>(
    slot: &mut Slot<V::Stats, V::Prob>,
    arena: &mut Arena<V::Stats>,
    value: V::Value,
    params: &V::Params,
)
    requires
        arena_ok(*old(arena)),
        root_ok(old(slot).root),
        forall|k: int|
            0 <= k < old(slot).path.steps@.len() ==> {
                let n = (#[trigger] old(slot).path.steps@[k]).node;
                n == ROOT || old(arena).is_live(n as int)
            },
        old(slot).sim_count < u32::MAX,
    ensures
        arena_ok(*final(arena)),
        arena_same_but_stats(*old(arena), *final(arena)),
        forall|i: int|
            0 <= i < old(arena).nodes@.len() && !on_path(old(slot).path.steps@, i)
                ==> #[trigger] final(arena).nodes@[i] == old(arena).nodes@[i],
        root_same_but_stats(old(slot).root, final(slot).root),
        backs_up::<V>(
            old(slot).root,
            *old(arena),
            old(slot).path.steps@,
            value,
            *params,
            stats_of(old(slot).root, *old(arena)),
            stats_of(final(slot).root, *final(arena)),
        ),
        final(slot).sim_count == old(slot).sim_count + 1,
        final(slot).path.steps@.len() == 0,
        final(slot).waiting_on is None,
        final(slot).occupied == old(slot).occupied,
        final(slot).game_over == old(slot).game_over,
        final(slot).descents == old(slot).descents,
        final(slot).last_depth == old(slot).last_depth,
{
    let ghost a0 = *arena;
    let ghost s0 = *slot;
    let ghost steps = s0.path.steps@;
    let mut k: usize = slot.path.len();
    let ghost mut worlds = Seq::new(steps.len() + 1, |j: int| stats_of(s0.root, a0));
    while k > 0
        invariant
            k <= slot.path.steps@.len(),
            steps == s0.path.steps@,
            worlds.len() == steps.len() + 1,
            worlds[steps.len() as int] == stats_of(s0.root, a0),
            worlds[k as int] == stats_of(slot.root, *arena),
            forall|j: int|
                k <= j < steps.len() ==> #[trigger] credited_at::<V>(
                    s0.root,
                    a0,
                    steps,
                    value,
                    *params,
                    worlds,
                    j,
                ),
            slot.path == s0.path,
            slot.sim_count == s0.sim_count,
            slot.occupied == s0.occupied,
            slot.game_over == s0.game_over,
            slot.descents == s0.descents,
            slot.last_depth == s0.last_depth,
            root_ok(slot.root),
            root_same_but_stats(s0.root, slot.root),
            arena_ok(a0),
            arena_same_but_stats(a0, *arena),
            arena_ok(*arena),
            forall|j: int|
                0 <= j < s0.path.steps@.len() ==> {
                    let n = (#[trigger] s0.path.steps@[j]).node;
                    n == ROOT || a0.is_live(n as int)
                },
            forall|i: int|
                0 <= i < a0.nodes@.len() && !on_path(s0.path.steps@, i)
                    ==> #[trigger] arena.nodes@[i] == a0.nodes@[i],
        decreases k,
    {
        k = k - 1;
        let step = slot.path.step(k);
        assert(step == s0.path.steps@[k as int]);
        let ghost w0 = worlds;
        let ghost here = stats_of(slot.root, *arena);
        if step.node == ROOT {
            let legal_counts: [u32; 2] = counts(&slot.root.game);
            credit::<V>(&mut slot.root.stats, step.choice, value, legal_counts, params);
        } else {
            let ghost before = *arena;
            let i: usize = step.node as usize;
            assert(a0.is_live(i as int));
            assert(before.is_live(i as int)) by {
                lemma_stats_only(a0, before);
            }
            assert(node_ok(before.nodes@[i as int]));
            let legal_counts: [u32; 2] = counts(&arena.nodes[i].game);
            credit::<V>(&mut arena.nodes[i].stats, step.choice, value, legal_counts, params);
            proof {
                assert(on_path(s0.path.steps@, i as int));
                assert forall|j: int| 0 <= j < a0.nodes@.len() implies same_but_stats(
                    #[trigger] a0.nodes@[j],
                    arena.nodes@[j],
                ) by {
                    assert(same_but_stats(a0.nodes@[j], before.nodes@[j]));
                }
                lemma_stats_only(a0, *arena);
            }
        }
        proof {
            let next = stats_of(slot.root, *arena);
            worlds = worlds.update(k as int, next);
            assert(next =~= here.insert(step.node, next[step.node]));
            assert forall|j: int| k <= j < steps.len() implies #[trigger] credited_at::<V>(
                s0.root,
                a0,
                steps,
                value,
                *params,
                worlds,
                j,
            ) by {
                if j > k {
                    assert(credited_at::<V>(s0.root, a0, steps, value, *params, w0, j));
                }
            }
        }
    }
    slot.sim_count = slot.sim_count + 1;
    slot.path.clear();
    slot.waiting_on = None;
    proof {
        assert(credits::<V>(s0.root, a0, steps, value, *params, worlds));
    }
}

// --------------------------------------------------------------------------- the descent

/// What a descent of game `id` may do to a node: record the game on it and, where the game is
/// recorded, change its statistics.
pub open spec fn node_touched<S>(before: Node<S>, after: Node<S>, id: u16) -> bool {
    &&& after.same_position(&before)
    &&& {
        ||| after.ids == before.ids && after.id_count == before.id_count && after.id_cursor
            == before.id_cursor
        ||| after.listed() == touch_list(before, id) && after.listed().contains(id)
    }
    &&& after.stats == before.stats || after.listed().contains(id)
}

/// What a descent of game `id` may do to the arena: touch its nodes and add one, used by that
/// game alone.
pub open spec fn searched<S>(before: Arena<S>, after: Arena<S>, id: u16) -> bool {
    &&& after.capacity == before.capacity
    &&& before.live <= after.live <= before.live + 1
    &&& after.nodes@.len() >= before.nodes@.len()
    &&& forall|i: int| #[trigger]
        before.is_live(i) ==> after.is_live(i) && node_touched(before.nodes@[i], after.nodes@[i], id)
    &&& forall|i: int| #[trigger]
        after.is_live(i) && !before.is_live(i) ==> after.nodes@[i].listed() == seq![id]
            && after.nodes@[i].sweep_age == 0 && after.live == before.live + 1
    &&& forall|i: int, j: int|
        #![trigger after.is_live(i), after.is_live(j)]
        after.is_live(i) && !before.is_live(i) && after.is_live(j) && !before.is_live(j) ==> i == j
}

/// The move `k0`, `k1` at `n` leads, by its key, to node `i`, which holds another position:
/// two positions with the same hash.
pub open spec fn clashes<S>(
    root: Root<S>,
    a: Arena<S>,
    n: u32,
    k0: int,
    k1: int,
    i: int,
) -> bool {
    let g = game_at(root, a, n);
    &&& n == ROOT || a.is_live(n as int)
    &&& 0 <= k0 < SQUARES
    &&& 0 <= k1 < SQUARES
    &&& g.may_play(cell_of(k0), 0)
    &&& g.may_play(cell_of(k1), 1)
    &&& a.is_live(i)
    &&& a.nodes@[i].key == hash_step(key_at(root, a, n), squares_of(g.cells@), k0, k1)
    &&& a.nodes@[i].game.cells@ != moved(g.cells@, cell_of(k0), cell_of(k1))
}

/// Is there a move from the root or from a node that leads, by its key, to a node that holds
/// another position?
pub open spec fn clash<S>(root: Root<S>, a: Arena<S>) -> bool {
    exists|n: u32, k0: int, k1: int, i: int| #[trigger] clashes(root, a, n, k0, k1, i)
}

/// Keys that clash go on to clash as long as the nodes stay.
pub proof fn lemma_clash_kept<S>(r0: Root<S>, a: Arena<S>, r1: Root<S>, b: Arena<S>)
    requires
        root_same_but_stats(r0, r1),
        forall|i: int| #[trigger]
            a.is_live(i) ==> b.is_live(i) && b.nodes@[i].same_position(&a.nodes@[i]),
        clash(r0, a),
    ensures
        clash(r1, b),
{
    let (n, k0, k1, i) = choose|n: u32, k0: int, k1: int, i: int| #[trigger]
        clashes(r0, a, n, k0, k1, i);
    assert(a.is_live(i));
    assert(n == ROOT || a.is_live(n as int));
    assert(clashes(r1, b, n, k0, k1, i));
}

/// A route is a matter of positions alone.
pub proof fn lemma_route<S, P>(
    r0: Root<S>,
    a: Arena<S>,
    r1: Root<S>,
    b: Arena<S>,
    steps: Seq<PathStep<P>>,
    end: u64,
)
    requires
        root_same_but_stats(r0, r1),
        forall|i: int| #[trigger]
            a.is_live(i) ==> b.is_live(i) && b.nodes@[i].same_position(&a.nodes@[i]),
        route(r0, a, steps, end),
    ensures
        route(r1, b, steps, end),
{
    assert forall|k: int| 0 <= k < steps.len() implies step_ok(r1, b, #[trigger] steps[k])
        && key_at(r1, b, steps[k].node) == key_at(r0, a, steps[k].node) && key_after(r1, b, steps[k])
        == key_after(r0, a, steps[k]) by {
        assert(step_ok(r0, a, steps[k]));
        let n = steps[k].node;
        assert(n == ROOT || a.is_live(n as int));
    }
    assert forall|k: int| 0 < k < steps.len() implies (#[trigger] steps[k]).node != ROOT && key_at(
        r1,
        b,
        steps[k].node,
    ) == key_after(r1, b, steps[k - 1]) by {
        let prev = steps[k - 1];
        assert(step_ok(r0, a, prev));
        assert(key_at(r0, a, steps[k].node) == key_after(r0, a, prev));
    }
}

/// How many squares are playable at step `k` of a path.
spec fn playable_at<S, P>(
    root: Root<S>,
    a: Arena<S>,
    steps: Seq<PathStep<P>>,
    k: int,
) -> int {
    count_of(game_at(root, a, steps[k].node).cells@, PLAYABLE_SQUARE)
}

/// A move to a node takes a playable square, unless keys clash.
proof fn lemma_edge_sinks<S, P>(root: Root<S>, a: Arena<S>, last: PathStep<P>, n: u32)
    requires
        root_ok(root),
        arena_ok(a),
        !clash(root, a),
        step_ok(root, a, last),
        a.is_live(n as int),
        a.nodes@[n as int].key == key_after(root, a, last),
    ensures
        count_of(a.nodes@[n as int].game.cells@, PLAYABLE_SQUARE) < count_of(
            game_at(root, a, last.node).cells@,
            PLAYABLE_SQUARE,
        ),
{
    let g = game_at(root, a, last.node);
    let k0 = last.choice@[0].action as int;
    let k1 = last.choice@[1].action as int;
    assert(!clashes(root, a, last.node, k0, k1, n as int));
    lemma_cell_of(k0);
    lemma_cell_of(k1);
    lemma_move_takes(g.cells@, cell_of(k0), cell_of(k1));
}

/// Step `k` of a path is where step `k - 1` leads, as keys tell.
spec fn edge_ok<S, P>(root: Root<S>, a: Arena<S>, steps: Seq<PathStep<P>>, k: int) -> bool {
    &&& step_ok(root, a, steps[k - 1])
    &&& step_ok(root, a, steps[k])
    &&& steps[k].node != ROOT
    &&& key_at(root, a, steps[k].node) == key_after(root, a, steps[k - 1])
}

/// Along a path whose steps lead to each other, unless keys clash, each position has fewer
/// playable squares than those before it.
proof fn lemma_route_sinks<S, P>(
    root: Root<S>,
    a: Arena<S>,
    steps: Seq<PathStep<P>>,
    i: int,
    j: int,
)
    requires
        root_ok(root),
        arena_ok(a),
        forall|k: int| 0 < k < steps.len() ==> #[trigger] edge_ok(root, a, steps, k),
        !clash(root, a),
        0 <= i < j < steps.len(),
    ensures
        playable_at(root, a, steps, j) < playable_at(root, a, steps, i),
    decreases j - i,
{
    assert(edge_ok(root, a, steps, j));
    lemma_edge_sinks(root, a, steps[j - 1], steps[j].node);
    if i < j - 1 {
        lemma_route_sinks(root, a, steps, i, j - 1);
    }
}

/// No position repeats on one route, unless keys clash: squares are only ever taken.
pub proof fn lemma_no_repeat<S, P>(
    root: Root<S>,
    a: Arena<S>,
    steps: Seq<PathStep<P>>,
    end: u64,
    i: int,
    j: int,
)
    requires
        root_ok(root),
        arena_ok(a),
        route(root, a, steps, end),
        !clash(root, a),
        0 <= i < j < steps.len(),
    ensures
        steps[i].node != steps[j].node,
        game_at(root, a, steps[i].node).cells@ != game_at(root, a, steps[j].node).cells@,
{
    assert forall|k: int| 0 < k < steps.len() implies #[trigger] edge_ok(root, a, steps, k) by {
        assert(step_ok(root, a, steps[k - 1]));
        assert(step_ok(root, a, steps[k]));
    }
    lemma_route_sinks(root, a, steps, i, j);
}

/// Select at the root or at a node: a move legal there. Only the statistics selected on may
/// change.
fn select_at<V: Variant>(
    cur: u32,
    slot: &mut Slot<V::Stats, V::Prob>,
    arena: &mut Arena<V::Stats>,
    params: &V::Params,
    rng: &mut Rng,
) -> (choice: [Choice<V::Prob>; 2])
    requires
        arena_ok(*old(arena)),
        root_ok(old(slot).root),
        cur == ROOT || old(arena).is_live(cur as int),
        !game_at(old(slot).root, *old(arena), cur).finished,
    ensures
        arena_ok(*final(arena)),
        arena_same_but_stats(*old(arena), *final(arena)),
        forall|i: int|
            0 <= i < old(arena).nodes@.len() && i != cur ==> #[trigger] final(arena).nodes@[i]
                == old(arena).nodes@[i],
        root_same_but_stats(old(slot).root, final(slot).root),
        *final(slot) == (Slot { root: final(slot).root, ..*old(slot) }),
        step_ok(final(slot).root, *final(arena), (PathStep { node: cur, choice })),
        selected::<V>(
            game_at(old(slot).root, *old(arena), cur),
            (PathStep { node: cur, choice }),
            *params,
            (stats_of(old(slot).root, *old(arena)), *old(rng)),
            (stats_of(final(slot).root, *final(arena)), *final(rng)),
        ),
{
    let ghost a0 = *arena;
    let ghost g = game_at(slot.root, *arena, cur);
    let ghost here = stats_of(slot.root, *arena);
    if cur == ROOT {
        let legal: [[u64; LEGAL_WORDS]; 2] = masks(&slot.root.game);
        proof {
            lemma_moves_open(g.cells@, g.move_count == 0, 0, legal@[0]@);
            lemma_moves_open(g.cells@, g.move_count == 0, 1, legal@[1]@);
        }
        let choice = select::<V>(&mut slot.root.stats, legal, params, rng);
        proof {
            let next = stats_of(slot.root, *arena);
            assert(next =~= here.insert(cur, next[cur]));
        }
        choice
    } else {
        let i: usize = cur as usize;
        assert(node_ok(a0.nodes@[i as int]));
        let legal: [[u64; LEGAL_WORDS]; 2] = masks(&arena.nodes[i].game);
        proof {
            lemma_moves_open(g.cells@, g.move_count == 0, 0, legal@[0]@);
            lemma_moves_open(g.cells@, g.move_count == 0, 1, legal@[1]@);
        }
        let choice = select::<V>(&mut arena.nodes[i].stats, legal, params, rng);
        proof {
            lemma_stats_only(a0, *arena);
            let next = stats_of(slot.root, *arena);
            assert(next =~= here.insert(cur, next[cur]));
        }
        choice
    }
}

/// The child's key without the child's board.
fn child_key<S, P: Copy>(slot: &Slot<S, P>, arena: &Arena<S>, step: PathStep<P>) -> (key: u64)
    requires
        arena_ok(*arena),
        root_ok(slot.root),
        step_ok(slot.root, *arena, step),
    ensures
        key == key_after(slot.root, *arena, step),
{
    let a0: usize = step.choice[0].action as usize;
    let a1: usize = step.choice[1].action as usize;
    if step.node == ROOT {
        zobrist::step(slot.root.key, &slot.root.game.squares(), a0, a1)
    } else {
        assert(node_ok(arena.nodes@[step.node as int]));
        let n = arena.node(step.node);
        zobrist::step(n.key, &n.game.squares(), a0, a1)
    }
}

/// The position a move leads to: the one place the engine runs.
fn child_game<S, P: Copy>(
    slot: &Slot<S, P>,
    arena: &Arena<S>,
    step: PathStep<P>,
    scratch: &mut Scratch,
) -> (game: Game)
    requires
        arena_ok(*arena),
        root_ok(slot.root),
        step_ok(slot.root, *arena, step),
        old(scratch).wf(),
    ensures
        playing(game),
        game.cells@ == moved(
            game_at(slot.root, *arena, step.node).cells@,
            cell_of(step.choice@[0].action as int),
            cell_of(step.choice@[1].action as int),
        ),
        game.move_count == game_at(slot.root, *arena, step.node).move_count + 1,
        hash_of(squares_of(game.cells@)) == key_after(slot.root, *arena, step),
        final(scratch).wf(),
        final(scratch).same_settings(old(scratch)),
{
    let ghost parent = game_at(slot.root, *arena, step.node);
    let ghost k0 = step.choice@[0].action as int;
    let ghost k1 = step.choice@[1].action as int;
    let mut game: Game = if step.node == ROOT {
        slot.root.game.clone()
    } else {
        assert(node_ok(arena.nodes@[step.node as int]));
        arena.node(step.node).game.clone()
    };
    proof {
        lemma_cell_of(k0);
        lemma_cell_of(k1);
        lemma_move_takes(parent.cells@, cell_of(k0), cell_of(k1));
        lemma_playable_bound(moved(parent.cells@, cell_of(k0), cell_of(k1)));
    }
    game.action_step(
        legal_cell(step.choice[0].action as usize),
        legal_cell(step.choice[1].action as usize),
        scratch,
    );
    proof {
        lemma_playing_step(parent, game, k0, k1);
        zobrist::lemma_step_matches_rehash(parent.cells@, k0, k1);
    }
    game
}

/// The state of a descent of game `id` that began at `s0` and `a0`: only statistics and id
/// lists have changed, and the game is recorded on every node of its path.
#[verifier::opaque]
spec fn walked<S, P>(s0: Slot<S, P>, a0: Arena<S>, s: Slot<S, P>, a: Arena<S>, id: u16) -> bool {
    &&& arena_ok(a)
    &&& root_ok(s.root)
    &&& root_same_but_stats(s0.root, s.root)
    &&& s == (Slot { root: s.root, path: s.path, ..s0 })
    &&& a.nodes@.len() == a0.nodes@.len()
    &&& a.free == a0.free
    &&& a.index == a0.index
    &&& a.capacity == a0.capacity
    &&& a.live == a0.live
    &&& forall|i: int| #[trigger]
        a0.is_live(i) ==> a.is_live(i) && node_touched(a0.nodes@[i], a.nodes@[i], id)
    &&& forall|k: int|
        0 < k < s.path.steps@.len() ==> a.nodes@[(
        #[trigger] s.path.steps@[k]).node as int].listed().contains(id)
    &&& !clash(s0.root, a0) ==> newly_reachable(s0.root, a0, a, id)
}

/// Every node that game `id` was recorded on since is reachable from its root.
pub open spec fn newly_reachable<S>(root: Root<S>, a0: Arena<S>, a: Arena<S>, id: u16) -> bool {
    forall|i: int| #[trigger]
        a.is_live(i) && a.nodes@[i].listed().contains(id) && !(a0.is_live(i)
            && a0.nodes@[i].listed().contains(id)) ==> reachable(
            root.game.cells@,
            a.nodes@[i].game.cells@,
        )
}

/// A board that is, unless keys clash, reachable from the root and has lost a playable square
/// for each of `n` moves.
spec fn after_moves<S>(root: Root<S>, a0: Arena<S>, cells: Seq<i8>, n: nat) -> bool {
    !clash(root, a0) ==> reachable(root.game.cells@, cells) && count_of(cells, PLAYABLE_SQUARE) + n
        <= SQUARES
}

/// The descent stands at `cur`.
#[verifier::opaque]
spec fn stands_at<S, P>(
    s0: Slot<S, P>,
    a0: Arena<S>,
    s: Slot<S, P>,
    a: Arena<S>,
    id: u16,
    cur: u32,
) -> bool {
    &&& cur == ROOT || (a.is_live(cur as int) && !pending(a.nodes@[cur as int].flags)
        && a.nodes@[cur as int].listed().contains(id))
    &&& cur == ROOT <==> s.path.steps@.len() == 0
    &&& route(s.root, a, s.path.steps@, key_at(s.root, a, cur))
    &&& after_moves(s0.root, a0, game_at(s.root, a, cur).cells@, s.path.steps@.len())
}

/// The descent has chosen its last path step, and looks for the node with key `key`.
#[verifier::opaque]
spec fn looks_for<S, P>(
    s0: Slot<S, P>,
    a0: Arena<S>,
    s: Slot<S, P>,
    a: Arena<S>,
    step: PathStep<P>,
    key: u64,
) -> bool {
    &&& s.path.steps@.len() > 0
    &&& s.path.steps@.last() == step
    &&& step_ok(s.root, a, step)
    &&& key == key_after(s.root, a, step)
    &&& route(s.root, a, s.path.steps@, key)
    &&& after_moves(
        s0.root,
        a0,
        moved(
            game_at(s.root, a, step.node).cells@,
            cell_of(step.choice@[0].action as int),
            cell_of(step.choice@[1].action as int),
        ),
        s.path.steps@.len(),
    )
}

/// A route that goes on.
proof fn lemma_route_on<S, P>(
    root: Root<S>,
    a: Arena<S>,
    steps: Seq<PathStep<P>>,
    step: PathStep<P>,
)
    requires
        route(root, a, steps, key_at(root, a, step.node)),
        step_ok(root, a, step),
        steps.len() < MAX_PLY,
        step.node == ROOT <==> steps.len() == 0,
    ensures
        route(root, a, steps.push(step), key_after(root, a, step)),
{
    let more = steps.push(step);
    assert forall|k: int| 0 <= k < more.len() implies step_ok(root, a, #[trigger] more[k]) by {
        if k < steps.len() {
            assert(more[k] == steps[k]);
        }
    }
    assert forall|k: int| 0 < k < more.len() implies (#[trigger] more[k]).node != ROOT && key_at(
        root,
        a,
        more[k].node,
    ) == key_after(root, a, more[k - 1]) by {
        assert(more[k - 1] == steps[k - 1]);
        if k < steps.len() {
            assert(more[k] == steps[k]);
        } else {
            assert(steps.last() == steps[k - 1]);
        }
    }
    if steps.len() > 0 {
        assert(more[0] == steps[0]);
    }
}

/// Selecting and extending the path.
proof fn lemma_selected<S, P>(
    s0: Slot<S, P>,
    a0: Arena<S>,
    s1: Slot<S, P>,
    a1: Arena<S>,
    s2: Slot<S, P>,
    a2: Arena<S>,
    id: u16,
    step: PathStep<P>,
)
    requires
        arena_ok(a0),
        walked(s0, a0, s1, a1, id),
        stands_at(s0, a0, s1, a1, id, step.node),
        s1.path.steps@.len() < MAX_PLY,
        arena_ok(a2),
        arena_same_but_stats(a1, a2),
        forall|i: int|
            0 <= i < a1.nodes@.len() && i != step.node ==> #[trigger] a2.nodes@[i] == a1.nodes@[i],
        root_same_but_stats(s1.root, s2.root),
        s2 == (Slot { root: s2.root, path: s2.path, ..s1 }),
        s2.path.steps@ == s1.path.steps@.push(step),
        step_ok(s2.root, a2, step),
    ensures
        walked(s0, a0, s2, a2, id),
        looks_for(s0, a0, s2, a2, step, key_after(s2.root, a2, step)),
{
    reveal(walked);
    reveal(stands_at);
    reveal(looks_for);
    lemma_stats_only(a1, a2);
    assert forall|i: int| 0 <= i < a1.nodes@.len() implies (#[trigger] a2.nodes@[i]).listed()
        == a1.nodes@[i].listed() && a2.nodes@[i].same_position(&a1.nodes@[i]) by {
        assert(same_but_stats(a1.nodes@[i], a2.nodes@[i]));
        assert(a2.nodes@[i].listed() =~= a1.nodes@[i].listed());
    }
    assert forall|i: int| #[trigger] a1.is_live(i) implies a2.is_live(i)
        && a2.nodes@[i].same_position(&a1.nodes@[i]) by {}
    assert forall|i: int| #[trigger] a0.is_live(i) implies a2.is_live(i) && node_touched(
        a0.nodes@[i],
        a2.nodes@[i],
        id,
    ) by {
        assert(a1.is_live(i));
        assert(node_touched(a0.nodes@[i], a1.nodes@[i], id));
        assert(same_but_stats(a1.nodes@[i], a2.nodes@[i]));
        if i == step.node {
            assert(a1.nodes@[i].listed().contains(id));
        }
    }
    let t1 = s1.path.steps@;
    let t2 = s2.path.steps@;
    lemma_route(s1.root, a1, s2.root, a2, t1, key_at(s1.root, a1, step.node));
    assert(key_at(s1.root, a1, step.node) == key_at(s2.root, a2, step.node));
    assert(game_at(s1.root, a1, step.node) == game_at(s2.root, a2, step.node));
    assert forall|k: int| 0 < k < t2.len() implies a2.nodes@[(
    #[trigger] t2[k]).node as int].listed().contains(id) by {
        if k < t1.len() {
            assert(t2[k] == t1[k]);
            assert(step_ok(s1.root, a1, t1[k]));
            assert(a1.nodes@[t1[k].node as int].listed().contains(id));
        }
    }
    lemma_route_on(s2.root, a2, t1, step);
    let g = game_at(s2.root, a2, step.node);
    let i0 = cell_of(step.choice@[0].action as int);
    let i1 = cell_of(step.choice@[1].action as int);
    if !clash(s0.root, a0) {
        lemma_move_takes(g.cells@, i0, i1);
        lemma_reach_move(g.cells@, i0, i1);
        lemma_reach_on(s0.root.game.cells@, g.cells@, moved(g.cells@, i0, i1));
        assert forall|i: int| #[trigger]
            a2.is_live(i) && a2.nodes@[i].listed().contains(id) && !(a0.is_live(i)
                && a0.nodes@[i].listed().contains(id)) implies reachable(
            s0.root.game.cells@,
            a2.nodes@[i].game.cells@,
        ) by {
            assert(a1.is_live(i));
        }
    }
}

/// Moving on to a node that exists.
proof fn lemma_entered<S, P>(
    s0: Slot<S, P>,
    a0: Arena<S>,
    s: Slot<S, P>,
    a1: Arena<S>,
    a2: Arena<S>,
    id: u16,
    step: PathStep<P>,
    child: u32,
)
    requires
        arena_ok(a0),
        walked(s0, a0, s, a1, id),
        looks_for(s0, a0, s, a1, step, a1.nodes@[child as int].key),
        a1.is_live(child as int),
        a2.wf(),
        only_node_changed(a1, a2, child as int),
        a2.nodes@[child as int].listed() == touch_list(a1.nodes@[child as int], id),
        a2.nodes@[child as int].listed().contains(id),
        a2.nodes@[child as int].same_position(&a1.nodes@[child as int]),
        a2.nodes@[child as int].stats == a1.nodes@[child as int].stats,
    ensures
        walked(s0, a0, s, a2, id),
        a2.is_live(child as int),
        child != ROOT,
        route(s.root, a2, s.path.steps@, a2.nodes@[child as int].key),
        !pending(a2.nodes@[child as int].flags) ==> stands_at(s0, a0, s, a2, id, child),
{
    reveal(walked);
    reveal(stands_at);
    reveal(looks_for);
    let c = child as int;
    assert forall|i: int| #[trigger] a1.is_live(i) implies a2.is_live(i)
        && a2.nodes@[i].same_position(&a1.nodes@[i]) by {
        if i != c {
            assert(a2.nodes@[i] == a1.nodes@[i]);
        }
    }
    assert forall|i: int| #[trigger] a2.is_live(i) implies node_ok(a2.nodes@[i]) by {
        assert(a1.is_live(i));
        assert(node_ok(a1.nodes@[i]));
    }
    assert forall|i: int| #[trigger] a0.is_live(i) implies a2.is_live(i) && node_touched(
        a0.nodes@[i],
        a2.nodes@[i],
        id,
    ) by {
        assert(a1.is_live(i));
        let n0 = a0.nodes@[i];
        let n1 = a1.nodes@[i];
        assert(node_touched(n0, n1, id));
        if i == c {
            if n1.ids == n0.ids && n1.id_count == n0.id_count && n1.id_cursor == n0.id_cursor {
                assert(touch_list(n1, id) =~= touch_list(n0, id));
            } else {
                assert(touch_list(n1, id) == n1.listed());
            }
        }
    }
    assert forall|k: int| 0 < k < s.path.steps@.len() implies a2.nodes@[(
    #[trigger] s.path.steps@[k]).node as int].listed().contains(id) by {
        assert(step_ok(s.root, a1, s.path.steps@[k]));
        let n = s.path.steps@[k].node as int;
        assert(a1.is_live(n));
        if n != c {
            assert(a2.nodes@[n] == a1.nodes@[n]);
        }
    }
    lemma_route(s.root, a1, s.root, a2, s.path.steps@, a1.nodes@[c].key);
    if !clash(s0.root, a0) {
        let k0 = step.choice@[0].action as int;
        let k1 = step.choice@[1].action as int;
        assert forall|i: int| #[trigger] a1.is_live(i) implies a0.is_live(i)
            && a0.nodes@[i].same_position(&a1.nodes@[i]) by {
            assert(a0.is_live(i));
        }
        if a1.nodes@[c].game.cells@ != moved(
            game_at(s.root, a1, step.node).cells@,
            cell_of(k0),
            cell_of(k1),
        ) {
            assert(clashes(s.root, a1, step.node, k0, k1, c));
            lemma_clash_kept(s.root, a1, s0.root, a0);
        }
        assert forall|i: int| #[trigger]
            a2.is_live(i) && a2.nodes@[i].listed().contains(id) && !(a0.is_live(i)
                && a0.nodes@[i].listed().contains(id)) implies reachable(
            s0.root.game.cells@,
            a2.nodes@[i].game.cells@,
        ) by {
            assert(a1.is_live(i));
            if i != c {
                assert(a2.nodes@[i] == a1.nodes@[i]);
            }
        }
    }
}

/// What a descent of game `id` from `s0` and `a0` comes to.
///
/// Whatever the outcome: positions stay, no node goes, and, unless keys clash, every node the
/// game is newly recorded on is reachable from its root. A terminal is backed up at once. An
/// entry leaves the route to the awaited node in flight. A descent is exhausted only for want
/// of node slots, or as deep as a path can be, where keys clash.
#[verifier::opaque]
pub open spec fn descended<S, P>(
    s0: Slot<S, P>,
    a0: Arena<S>,
    s: Slot<S, P>,
    a: Arena<S>,
    id: u16,
    r: Descent,
) -> bool {
    &&& arena_ok(a)
    &&& root_ok(s.root)
    &&& root_same_but_stats(s0.root, s.root)
    &&& s.occupied == s0.occupied
    &&& s.game_over == s0.game_over
    &&& s.descents == s0.descents
    &&& searched(a0, a, id)
    &&& !clash(s0.root, a0) ==> newly_reachable(s0.root, a0, a, id)
    &&& s.last_depth <= MAX_PLY
    &&& match r {
        Descent::NoEntry => {
            &&& s.sim_count == s0.sim_count + 1
            &&& s.path.steps@.len() == 0
            &&& s.waiting_on is None
            &&& s.last_depth == 0 <==> s0.root.game.finished
            &&& forall|i: int| #[trigger]
                a.is_live(i) && !a0.is_live(i) ==> a.nodes@[i].game.finished
        },
        Descent::Entry { node, fresh } => {
            &&& s.sim_count == s0.sim_count
            &&& s.waiting_on == Some(node)
            &&& a.is_live(node as int)
            &&& pending(a.nodes@[node as int].flags)
            &&& a.nodes@[node as int].listed().contains(id)
            &&& fresh <==> !a0.is_live(node as int)
            &&& !fresh ==> a.live == a0.live
            &&& 0 < s.path.steps@.len() == s.last_depth
            &&& route(s.root, a, s.path.steps@, a.nodes@[node as int].key)
            &&& forall|k: int|
                0 < k < s.path.steps@.len() ==> a.nodes@[(
                #[trigger] s.path.steps@[k]).node as int].listed().contains(id)
        },
        Descent::Exhausted => {
            &&& s.sim_count == s0.sim_count
            &&& s.path.steps@.len() == 0
            &&& s.waiting_on is None
            &&& a.live == a0.live
            &&& a0.live == a0.capacity || (clash(s0.root, a0) && s.last_depth == MAX_PLY)
        },
    }
}

/// While the descent walks, the nodes are those it began with.
proof fn lemma_searched<S, P>(s0: Slot<S, P>, a0: Arena<S>, s: Slot<S, P>, a: Arena<S>, id: u16)
    requires
        walked(s0, a0, s, a, id),
    ensures
        searched(a0, a, id),
        forall|i: int| #[trigger] a.is_live(i) <==> a0.is_live(i),
{
    reveal(walked);
    reveal(stands_at);
    reveal(looks_for);
    assert forall|i: int| #[trigger] a.is_live(i) <==> a0.is_live(i) by {}
}

/// Ending at a terminal.
proof fn lemma_settled<S, P>(
    s0: Slot<S, P>,
    a0: Arena<S>,
    s1: Slot<S, P>,
    b: Arena<S>,
    a1: Arena<S>,
    s2: Slot<S, P>,
    a2: Arena<S>,
    id: u16,
)
    requires
        walked(s0, a0, s1, b, id),
        forall|k: int| 0 <= k < s1.path.steps@.len() ==> step_ok(
            s1.root,
            b,
            #[trigger] s1.path.steps@[k],
        ),
        s1.path.steps@.len() > 0 ==> s1.path.steps@[0].node == ROOT,
        s1.path.steps@.len() <= MAX_PLY,
        s1.path.steps@.len() == 0 <==> s0.root.game.finished,
        searched(a0, a1, id),
        arena_ok(a1),
        forall|i: int| #[trigger]
            b.is_live(i) ==> a1.is_live(i) && a1.nodes@[i] == b.nodes@[i],
        !clash(s0.root, a0) ==> newly_reachable(s0.root, a0, a1, id),
        forall|i: int| #[trigger] a1.is_live(i) && !a0.is_live(i) ==> a1.nodes@[i].game.finished,
        arena_ok(a2),
        arena_same_but_stats(a1, a2),
        forall|i: int|
            0 <= i < a1.nodes@.len() && !on_path(s1.path.steps@, i) ==> #[trigger] a2.nodes@[i]
                == a1.nodes@[i],
        root_same_but_stats(s1.root, s2.root),
        s2.sim_count == s1.sim_count + 1,
        s2.path.steps@.len() == 0,
        s2.waiting_on is None,
        s2.occupied == s1.occupied,
        s2.game_over == s1.game_over,
        s2.descents == s1.descents,
        s2.last_depth == s1.path.steps@.len(),
    ensures
        descended(s0, a0, s2, a2, id, Descent::NoEntry),
{
    reveal(descended);
    reveal(walked);
    reveal(stands_at);
    reveal(looks_for);
    lemma_stats_only(a1, a2);
    assert forall|i: int| 0 <= i < a1.nodes@.len() implies (#[trigger] a2.nodes@[i]).listed()
        == a1.nodes@[i].listed() && a2.nodes@[i].same_position(&a1.nodes@[i]) by {
        assert(same_but_stats(a1.nodes@[i], a2.nodes@[i]));
        assert(a2.nodes@[i].listed() =~= a1.nodes@[i].listed());
    }
    assert forall|i: int| #[trigger] a0.is_live(i) implies a2.is_live(i) && node_touched(
        a0.nodes@[i],
        a2.nodes@[i],
        id,
    ) by {
        assert(a1.is_live(i));
        assert(same_but_stats(a1.nodes@[i], a2.nodes@[i]));
        if on_path(s1.path.steps@, i) {
            let k = choose|k: int|
                0 <= k < s1.path.steps@.len() && (#[trigger] s1.path.steps@[k]).node == i;
            assert(step_ok(s1.root, b, s1.path.steps@[k]));
            if k > 0 {
                assert(b.nodes@[s1.path.steps@[k].node as int].listed().contains(id));
                assert(b.is_live(i));
            }
            assert(a1.nodes@[i].listed().contains(id));
        }
    }
    assert forall|i: int| #[trigger] a2.is_live(i) && !a0.is_live(i) implies a2.nodes@[i].listed()
        == seq![id] && a2.nodes@[i].sweep_age == 0 && a2.live == a0.live + 1
        && a2.nodes@[i].game.finished by {
        assert(a1.is_live(i));
        assert(same_but_stats(a1.nodes@[i], a2.nodes@[i]));
    }
    assert(searched(a0, a2, id)) by {
        assert forall|i: int, j: int|
            #![trigger a2.is_live(i), a2.is_live(j)]
            a2.is_live(i) && !a0.is_live(i) && a2.is_live(j) && !a0.is_live(j) implies i == j by {
            assert(a1.is_live(i));
            assert(a1.is_live(j));
        }
    }
    if !clash(s0.root, a0) {
        assert forall|i: int| #[trigger]
            a2.is_live(i) && a2.nodes@[i].listed().contains(id) && !(a0.is_live(i)
                && a0.nodes@[i].listed().contains(id)) implies reachable(
            s0.root.game.cells@,
            a2.nodes@[i].game.cells@,
        ) by {
            assert(a1.is_live(i));
        }
    }
}

/// A new node for the position a path leads to.
proof fn lemma_grown<S: Default, P>(
    s0: Slot<S, P>,
    a0: Arena<S>,
    s: Slot<S, P>,
    a1: Arena<S>,
    a2: Arena<S>,
    id: u16,
    step: PathStep<P>,
    key: u64,
    child: u32,
)
    requires
        arena_ok(a0),
        walked(s0, a0, s, a1, id),
        looks_for(s0, a0, s, a1, step, key),
        a2.wf(),
        a2.capacity == a1.capacity,
        a2.live == a1.live + 1,
        a2.nodes@.len() >= a1.nodes@.len(),
        !a1.is_live(child as int),
        forall|j: int| #[trigger] a2.is_live(j) <==> a1.is_live(j) || j == child,
        forall|j: int|
            0 <= j < a1.nodes@.len() && j != child ==> #[trigger] a2.nodes@[j] == a1.nodes@[j],
        ({
            let n = a2.nodes@[child as int];
            &&& node_ok(n)
            &&& n.key == key
            &&& n.game.cells@ == moved(
                game_at(s.root, a1, step.node).cells@,
                cell_of(step.choice@[0].action as int),
                cell_of(step.choice@[1].action as int),
            )
            &&& n.listed() == seq![id]
            &&& n.sweep_age == 0
        }),
    ensures
        arena_ok(a2),
        searched(a0, a2, id),
        !a0.is_live(child as int),
        !clash(s0.root, a0) ==> newly_reachable(s0.root, a0, a2, id),
        forall|i: int| #[trigger] a1.is_live(i) ==> a2.is_live(i) && a2.nodes@[i] == a1.nodes@[i],
        forall|i: int| #[trigger] a2.is_live(i) && !a0.is_live(i) ==> i == child,
        route(s.root, a2, s.path.steps@, key),
        forall|k: int|
            0 < k < s.path.steps@.len() ==> a2.nodes@[(
            #[trigger] s.path.steps@[k]).node as int].listed().contains(id),
{
    reveal(walked);
    reveal(stands_at);
    reveal(looks_for);
    lemma_searched(s0, a0, s, a1, id);
    assert forall|i: int| #[trigger] a1.is_live(i) implies a2.is_live(i) && a2.nodes@[i]
        == a1.nodes@[i] by {}
    assert forall|i: int| #[trigger] a2.is_live(i) implies node_ok(a2.nodes@[i]) by {
        if i != child {
            assert(a1.is_live(i));
        }
    }
    assert(searched(a0, a2, id)) by {
        assert forall|i: int| #[trigger] a0.is_live(i) implies a2.is_live(i) && node_touched(
            a0.nodes@[i],
            a2.nodes@[i],
            id,
        ) by {
            assert(a1.is_live(i));
        }
        assert forall|i: int| #[trigger] a2.is_live(i) && !a0.is_live(i) implies i == child by {
            assert(!a1.is_live(i));
        }
    }
    lemma_route(s.root, a1, s.root, a2, s.path.steps@, key);
    assert forall|k: int| 0 < k < s.path.steps@.len() implies a2.nodes@[(
    #[trigger] s.path.steps@[k]).node as int].listed().contains(id) by {
        assert(step_ok(s.root, a1, s.path.steps@[k]));
        assert(a1.is_live(s.path.steps@[k].node as int));
    }
    if !clash(s0.root, a0) {
        assert forall|i: int| #[trigger]
            a2.is_live(i) && a2.nodes@[i].listed().contains(id) && !(a0.is_live(i)
                && a0.nodes@[i].listed().contains(id)) implies reachable(
            s0.root.game.cells@,
            a2.nodes@[i].game.cells@,
        ) by {
            if i != child {
                assert(a1.is_live(i));
            }
        }
    }
}

/// End a descent that stands at a terminal.
fn settle<V: Variant>(
    id: u16,
    cur: u32,
    slot: &mut Slot<V::Stats, V::Prob>,
    arena: &mut Arena<V::Stats>,
    params: &V::Params,
    Ghost(s0): Ghost<Slot<V::Stats, V::Prob>>,
    Ghost(a0): Ghost<Arena<V::Stats>>,
)
    requires
        s0.sim_count < u32::MAX,
        walked(s0, a0, *old(slot), *old(arena), id),
        stands_at(s0, a0, *old(slot), *old(arena), id, cur),
        game_at(old(slot).root, *old(arena), cur).finished,
    ensures
        descended(s0, a0, *final(slot), *final(arena), id, Descent::NoEntry),
        arena_same_but_stats(*old(arena), *final(arena)),
        final(slot).last_depth == old(slot).path.steps@.len(),
        settles::<V>(
            old(slot).root,
            *old(arena),
            old(slot).path.steps@,
            game_at(old(slot).root, *old(arena), cur).cells@,
            *params,
            stats_of(old(slot).root, *old(arena)),
            stats_of(final(slot).root, *final(arena)),
        ),
{
    proof {
        reveal(walked);
        reveal(stands_at);
        reveal(looks_for);
    }
    let ghost s1 = *slot;
    let ghost a1 = *arena;
    let result: [i8; 2] = if cur == ROOT {
        slot.root.game.terminal_values()
    } else {
        arena.node(cur).game.terminal_values()
    };
    proof {
        assert forall|k: int| 0 <= k < s1.path.steps@.len() implies ({
            let n = (#[trigger] s1.path.steps@[k]).node;
            n == ROOT || a1.is_live(n as int)
        }) by {
            assert(step_ok(s1.root, a1, s1.path.steps@[k]));
        }
    }
    slot.last_depth = slot.path.len() as u8;
    let value = V::terminal(result);
    back_up::<V>(slot, arena, value, params);
    proof {
        let here = stats_of(s1.root, a1);
        assert(settled_by::<V>(
            s1.root,
            a1,
            s1.path.steps@,
            game_at(s1.root, a1, cur).cells@,
            *params,
            here,
            stats_of(slot.root, *arena),
            game_at(s1.root, a1, cur),
            result,
            value,
            here,
        ));
        lemma_searched(s0, a0, s1, a1, id);
        lemma_unfinished(s1.root, a1, s1.path.steps@);
        lemma_settled(s0, a0, s1, a1, a1, *slot, *arena, id);
    }
}

/// End a descent whose path is as long as a path can be: it has passed through more moves
/// than there are squares to take.
fn give_up<S, P: Copy>(
    id: u16,
    cur: u32,
    slot: &mut Slot<S, P>,
    arena: &Arena<S>,
    Ghost(s0): Ghost<Slot<S, P>>,
    Ghost(a0): Ghost<Arena<S>>,
)
    requires
        s0.waiting_on is None,
        walked(s0, a0, *old(slot), *arena, id),
        stands_at(s0, a0, *old(slot), *arena, id, cur),
        !game_at(old(slot).root, *arena, cur).finished,
        old(slot).path.steps@.len() == MAX_PLY,
    ensures
        descended(s0, a0, *final(slot), *arena, id, Descent::Exhausted),
        final(slot).last_depth == old(slot).path.steps@.len(),
        final(slot).root == old(slot).root,
{
    proof {
        reveal(descended);
        reveal(walked);
        reveal(stands_at);
        reveal(looks_for);
    }
    proof {
        lemma_searched(s0, a0, *slot, *arena, id);
        let g = game_at(slot.root, *arena, cur);
        assert(playing(g));
        lemma_playable(g.cells@);
    }
    slot.last_depth = MAX_PLY as u8;
    slot.path.clear();
}

/// Add a node for the position a path leads to.
fn plant<S: Default, P: Copy>(
    id: u16,
    step: PathStep<P>,
    key: u64,
    game: Game,
    slot: &Slot<S, P>,
    arena: &mut Arena<S>,
    Ghost(s0): Ghost<Slot<S, P>>,
    Ghost(a0): Ghost<Arena<S>>,
) -> (r: Option<u32>)
    requires
        arena_ok(a0),
        walked(s0, a0, *slot, *old(arena), id),
        looks_for(s0, a0, *slot, *old(arena), step, key),
        !old(arena).has(key),
        playing(game),
        key == hash_of(squares_of(game.cells@)),
        game.cells@ == moved(
            game_at(slot.root, *old(arena), step.node).cells@,
            cell_of(step.choice@[0].action as int),
            cell_of(step.choice@[1].action as int),
        ),
    ensures
        r is None <==> old(arena).live == old(arena).capacity,
        r is None ==> *final(arena) == *old(arena),
        r matches Some(child) ==> {
            &&& planted(s0, a0, *slot, *old(arena), *final(arena), id, key, child)
            &&& child == old(arena).next_slot()
            &&& node_added(
                *old(arena),
                *final(arena),
                id,
                key,
                game.cells@,
                game.move_count as int,
            )
            &&& final(arena).capacity == old(arena).capacity
            &&& final(arena).overflows == old(arena).overflows
            &&& final(arena).nodes@[child as int].game == game
            &&& call_ensures(S::default, (), final(arena).nodes@[child as int].stats)
        },
{
    let ghost before = *arena;
    // a terminal child is never pending, so later arrivals read its values instead of
    // queueing behind an evaluation that will never come
    let flags: u8 = if game.finished {
        0
    } else {
        PENDING
    };
    proof {
        lemma_flags();
        lemma_walking(s0, a0, *slot, before, id);
    }
    let r = arena.insert(key, game, flags, id);
    proof {
        if let Some(child) = r {
            assert(arena.nodes@[child as int].listed().contains(id)) by {
                assert(arena.nodes@[child as int].listed()[0] == id);
            }
            lemma_grown(s0, a0, *slot, before, *arena, id, step, key, child);
        }
    }
    r
}

/// The arena `b` of a descent with a new node for the position with key `key`.
spec fn planted<S, P>(
    s0: Slot<S, P>,
    a0: Arena<S>,
    s: Slot<S, P>,
    b: Arena<S>,
    a: Arena<S>,
    id: u16,
    key: u64,
    child: u32,
) -> bool {
    &&& arena_ok(a)
    &&& searched(a0, a, id)
    &&& !a0.is_live(child as int)
    &&& a.is_live(child as int)
    &&& a.nodes@[child as int].key == key
    &&& a.nodes@[child as int].listed().contains(id)
    &&& pending(a.nodes@[child as int].flags) <==> !a.nodes@[child as int].game.finished
    &&& !clash(s0.root, a0) ==> newly_reachable(s0.root, a0, a, id)
    &&& forall|i: int| #[trigger] b.is_live(i) ==> a.is_live(i) && a.nodes@[i] == b.nodes@[i]
    &&& forall|i: int| #[trigger] a.is_live(i) && !a0.is_live(i) ==> i == child
    &&& route(s.root, a, s.path.steps@, key)
    &&& forall|k: int|
        0 < k < s.path.steps@.len() ==> a.nodes@[(
        #[trigger] s.path.steps@[k]).node as int].listed().contains(id)
}

/// End a descent at a position that has no node yet: build one.
fn grow<V: Variant>(
    id: u16,
    step: PathStep<V::Prob>,
    key: u64,
    slot: &mut Slot<V::Stats, V::Prob>,
    arena: &mut Arena<V::Stats>,
    params: &V::Params,
    scratch: &mut Scratch,
    Ghost(s0): Ghost<Slot<V::Stats, V::Prob>>,
    Ghost(a0): Ghost<Arena<V::Stats>>,
) -> (r: Descent)
    requires
        arena_ok(a0),
        s0.sim_count < u32::MAX,
        s0.waiting_on is None,
        walked(s0, a0, *old(slot), *old(arena), id),
        looks_for(s0, a0, *old(slot), *old(arena), step, key),
        !old(arena).has(key),
        old(scratch).wf(),
    ensures
        descended(s0, a0, *final(slot), *final(arena), id, r),
        final(slot).last_depth == old(slot).path.steps@.len(),
        r is Entry ==> final(slot).path == old(slot).path,
        concludes::<V>(
            old(slot).root,
            *old(arena),
            old(slot).path.steps@,
            *params,
            stats_of(old(slot).root, *old(arena)),
            stats_of(final(slot).root, *final(arena)),
            r,
        ),
        if old(arena).live == old(arena).capacity {
            *final(arena) == *old(arena) && r is Exhausted
        } else {
            makes_node(
                *old(arena),
                *final(arena),
                id,
                key,
                made_cells(old(slot).root, *old(arena), step),
                game_at(old(slot).root, *old(arena), step.node).move_count + 1,
                r,
            )
        },
        final(scratch).wf(),
        final(scratch).same_settings(old(scratch)),
{
    let ghost s2 = *slot;
    let ghost a2 = *arena;
    let ghost here = stats_of(s2.root, a2);
    proof {
        reveal(concludes);
        lemma_looking(s0, a0, s2, a2, id, step, key);
        lemma_searched(s0, a0, s2, a2, id);
        lemma_looked(s0, a0, s2, a2, step, key);
    }
    let game: Game = child_game(slot, arena, step, scratch);
    let ghost g = game;
    let finished: bool = game.finished;
    let result: [i8; 2] = game.terminal_values();
    match plant(id, step, key, game, slot, arena, Ghost(s0), Ghost(a0)) {
        None => {
            slot.last_depth = slot.path.len() as u8;
            slot.path.clear();
            proof {
                lemma_full(s0, a0, s2, a2, *slot, id, step, key);
            }
            Descent::Exhausted
        },
        Some(child) => {
            let ghost a3 = *arena;
            let ghost mid = stats_of(s2.root, a3);
            proof {
                lemma_grown_stats::<V>(s2.root, a2, a3, child);
            }
            slot.last_depth = slot.path.len() as u8;
            if finished {
                proof {
                    lemma_path_live(s2.root, a3, s2.path.steps@, key);
                }
                let value = V::terminal(result);
                back_up::<V>(slot, arena, value, params);
                proof {
                    let next = stats_of(slot.root, *arena);
                    let steps = s2.path.steps@;
                    assert(g.cells@ == made_cells(s2.root, a2, step));
                    assert(g.cells@ == end_cells(s2.root, a2, steps));
                    assert forall|k: int| 0 <= k < steps.len() implies game_at(
                        s2.root,
                        a3,
                        (#[trigger] steps[k]).node,
                    ) == game_at(s2.root, a2, steps[k].node) by {
                        assert(step_ok(s2.root, a2, steps[k]));
                    }
                    lemma_backs_up_same::<V>(
                        s2.root,
                        a3,
                        s2.root,
                        a2,
                        steps,
                        value,
                        *params,
                        mid,
                        next,
                    );
                    assert(settled_by::<V>(
                        s2.root,
                        a2,
                        steps,
                        g.cells@,
                        *params,
                        here,
                        next,
                        g,
                        result,
                        value,
                        mid,
                    ));
                    lemma_planted_end(s0, a0, s2, a2, a3, *slot, *arena, id, step, key, child);
                    lemma_added_same(
                        a2,
                        a3,
                        *arena,
                        id,
                        key,
                        g.cells@,
                        g.move_count as int,
                        Descent::NoEntry,
                    );
                }
                return Descent::NoEntry;
            }
            slot.waiting_on = Some(child);
            proof {
                lemma_planted_wait(s0, a0, s2, a2, *slot, a3, id, step, key, child);
                lemma_added_same(
                    a2,
                    a3,
                    a3,
                    id,
                    key,
                    g.cells@,
                    g.move_count as int,
                    (Descent::Entry { node: child, fresh: true }),
                );
            }
            Descent::Entry { node: child, fresh: true }
        },
    }
}

/// A new node stays new while statistics change.
proof fn lemma_added_same<S>(
    b: Arena<S>,
    a1: Arena<S>,
    a2: Arena<S>,
    id: u16,
    key: u64,
    cells: Seq<i8>,
    moves: int,
    r: Descent,
)
    requires
        b.wf(),
        node_added(b, a1, id, key, cells, moves),
        a1.capacity == b.capacity,
        a1.overflows == b.overflows,
        forall|i: int| #[trigger] b.is_live(i) ==> a1.is_live(i) && a1.nodes@[i] == b.nodes@[i],
        arena_same_but_stats(a1, a2),
        r == (if a1.nodes@[b.next_slot()].game.finished {
            Descent::NoEntry
        } else {
            Descent::Entry { node: b.next_slot() as u32, fresh: true }
        }),
    ensures
        makes_node(b, a2, id, key, cells, moves, r),
{
    let c = b.next_slot();
    assert(0 <= c < a1.nodes@.len()) by {
        if b.free@.len() > 0 {
            assert(b.free@[b.free@.len() - 1] < b.nodes@.len());
        }
    }
    assert(same_but_stats(a1.nodes@[c], a2.nodes@[c]));
    assert(a2.nodes@[c].listed() =~= a1.nodes@[c].listed());
    assert forall|i: int| #[trigger] b.is_live(i) implies same_but_stats(
        b.nodes@[i],
        a2.nodes@[i],
    ) by {
        assert(same_but_stats(a1.nodes@[i], a2.nodes@[i]));
    }
}

/// The path of a descent that looks for a node leads to it.
proof fn lemma_looked<S, P>(
    s0: Slot<S, P>,
    a0: Arena<S>,
    s: Slot<S, P>,
    a: Arena<S>,
    step: PathStep<P>,
    key: u64,
)
    requires
        looks_for(s0, a0, s, a, step, key),
    ensures
        s.path.steps@.len() > 0,
        s.path.steps@.last() == step,
        route(s.root, a, s.path.steps@, key),
        end_of(s.root, a, s.path.steps@) == key,
{
    reveal(looks_for);
}

/// A new node brings fresh statistics and leaves the others.
proof fn lemma_grown_stats<V: Variant>(
    root: Root<V::Stats>,
    a: Arena<V::Stats>,
    b: Arena<V::Stats>,
    child: u32,
)
    requires
        forall|i: int| #[trigger] a.is_live(i) ==> b.is_live(i) && b.nodes@[i] == a.nodes@[i],
        forall|i: int| #[trigger] b.is_live(i) && !a.is_live(i) ==> i == child,
        call_ensures(<V::Stats as Default>::default, (), b.nodes@[child as int].stats),
    ensures
        grown::<V>(stats_of(root, a), stats_of(root, b)),
{
    let x = stats_of(root, a);
    let y = stats_of(root, b);
    assert forall|n: u32| #[trigger] x.contains_key(n) implies y.contains_key(n) && y[n] == x[n] by {
        assert(n == ROOT || a.is_live(n as int));
    }
    assert forall|n: u32| #[trigger]
        y.contains_key(n) && !x.contains_key(n) implies call_ensures(
        <V::Stats as Default>::default,
        (),
        y[n],
    ) by {
        assert(b.is_live(n as int) && !a.is_live(n as int));
    }
}

/// The nodes of a route are live.
pub proof fn lemma_path_live<S, P>(root: Root<S>, a: Arena<S>, steps: Seq<PathStep<P>>, end: u64)
    requires
        route(root, a, steps, end),
    ensures
        forall|k: int|
            0 <= k < steps.len() ==> {
                let n = (#[trigger] steps[k]).node;
                n == ROOT || a.is_live(n as int)
            },
{
    assert forall|k: int| 0 <= k < steps.len() implies ({
        let n = (#[trigger] steps[k]).node;
        n == ROOT || a.is_live(n as int)
    }) by {
        assert(step_ok(root, a, steps[k]));
    }
}

/// Ending for want of a node slot.
proof fn lemma_full<S, P>(
    s0: Slot<S, P>,
    a0: Arena<S>,
    s: Slot<S, P>,
    a: Arena<S>,
    s2: Slot<S, P>,
    id: u16,
    step: PathStep<P>,
    key: u64,
)
    requires
        s0.waiting_on is None,
        walked(s0, a0, s, a, id),
        looks_for(s0, a0, s, a, step, key),
        a.live == a.capacity,
        s2 == (Slot { path: s2.path, last_depth: s.path.steps@.len() as u8, ..s }),
        s2.path.steps@.len() == 0,
    ensures
        descended(s0, a0, s2, a, id, Descent::Exhausted),
{
    reveal(descended);
    reveal(walked);
    reveal(looks_for);
    lemma_searched(s0, a0, s, a, id);
}

/// Ending with a new node that awaits its evaluation.
proof fn lemma_planted_wait<S, P>(
    s0: Slot<S, P>,
    a0: Arena<S>,
    s: Slot<S, P>,
    b: Arena<S>,
    s2: Slot<S, P>,
    a: Arena<S>,
    id: u16,
    step: PathStep<P>,
    key: u64,
    child: u32,
)
    requires
        walked(s0, a0, s, b, id),
        looks_for(s0, a0, s, b, step, key),
        planted(s0, a0, s, b, a, id, key, child),
        !a.nodes@[child as int].game.finished,
        s2 == (Slot {
            waiting_on: Some(child),
            last_depth: s.path.steps@.len() as u8,
            ..s
        }),
    ensures
        descended(s0, a0, s2, a, id, (Descent::Entry { node: child, fresh: true })),
{
    reveal(descended);
    reveal(walked);
    reveal(looks_for);
}

/// Ending with a new terminal node.
proof fn lemma_planted_end<S, P>(
    s0: Slot<S, P>,
    a0: Arena<S>,
    s: Slot<S, P>,
    b: Arena<S>,
    a1: Arena<S>,
    s2: Slot<S, P>,
    a2: Arena<S>,
    id: u16,
    step: PathStep<P>,
    key: u64,
    child: u32,
)
    requires
        walked(s0, a0, s, b, id),
        looks_for(s0, a0, s, b, step, key),
        planted(s0, a0, s, b, a1, id, key, child),
        a1.nodes@[child as int].game.finished,
        arena_ok(a2),
        arena_same_but_stats(a1, a2),
        forall|i: int|
            0 <= i < a1.nodes@.len() && !on_path(s.path.steps@, i) ==> #[trigger] a2.nodes@[i]
                == a1.nodes@[i],
        root_same_but_stats(s.root, s2.root),
        s2.sim_count == s.sim_count + 1,
        s2.path.steps@.len() == 0,
        s2.waiting_on is None,
        s2.occupied == s.occupied,
        s2.game_over == s.game_over,
        s2.descents == s.descents,
        s2.last_depth == s.path.steps@.len(),
    ensures
        descended(s0, a0, s2, a2, id, Descent::NoEntry),
{
    reveal(walked);
    reveal(looks_for);
    assert(step_ok(s.root, b, s.path.steps@[0]));
    lemma_unfinished(s.root, b, s.path.steps@);
    lemma_settled(s0, a0, s, b, a1, s2, a2, id);
}

/// End a descent at a node somebody else has queued already: ride their entry rather than
/// duplicating the work, and rather than re-rolling, which would let other games bend this
/// one's search.
fn ride<S, P: Copy>(
    id: u16,
    child: u32,
    slot: &mut Slot<S, P>,
    arena: &Arena<S>,
    Ghost(s0): Ghost<Slot<S, P>>,
    Ghost(a0): Ghost<Arena<S>>,
)
    requires
        walked(s0, a0, *old(slot), *arena, id),
        old(slot).path.steps@.len() > 0,
        arena.is_live(child as int),
        arena.nodes@[child as int].listed().contains(id),
        pending(arena.nodes@[child as int].flags),
        route(old(slot).root, *arena, old(slot).path.steps@, arena.nodes@[child as int].key),
    ensures
        descended(
            s0,
            a0,
            *final(slot),
            *arena,
            id,
            (Descent::Entry { node: child, fresh: false }),
        ),
        final(slot).last_depth == old(slot).path.steps@.len(),
        final(slot).path == old(slot).path,
        final(slot).root == old(slot).root,
{
    proof {
        reveal(descended);
        reveal(walked);
        reveal(stands_at);
        reveal(looks_for);
    }
    proof {
        lemma_searched(s0, a0, *slot, *arena, id);
    }
    slot.last_depth = slot.path.len() as u8;
    slot.waiting_on = Some(child);
}

/// One selection: which node was selected on, and what the selection chose there.
#[derive(Clone, Copy, Debug)]
pub struct Selection<P> {
    /// Arena slot, or [`ROOT`].
    pub node: u32,
    pub choice: [Choice<P>; 2],
}

impl<P> Selection<P> {
    /// The path step that the selection makes.
    pub open spec fn as_step(self) -> PathStep<P> {
        PathStep { node: self.node, choice: self.choice }
    }
}

/// The path steps that a sequence of selections makes.
pub open spec fn steps_of<P>(selections: Seq<Selection<P>>) -> Seq<PathStep<P>> {
    selections.map_values(|s: Selection<P>| s.as_step())
}

/// Run one simulation from `slot`'s root. `id` is the slot's own index.
pub fn descend<V: Variant>(
    id: u16,
    slot: &mut Slot<V::Stats, V::Prob>,
    arena: &mut Arena<V::Stats>,
    params: &V::Params,
    rng: &mut Rng,
    scratch: &mut Scratch,
) -> (r: Descent)
    requires
        old(slot).occupied,
        !old(slot).game_over,
        old(slot).waiting_on is None,
        old(slot).sim_count < u32::MAX,
        root_ok(old(slot).root),
        arena_ok(*old(arena)),
        old(scratch).wf(),
    ensures
        descended(*old(slot), *old(arena), *final(slot), *final(arena), id, r),
        exists|steps: Seq<PathStep<V::Prob>>| #[trigger]
            simulates::<V>(
                old(slot).root,
                *old(arena),
                steps,
                *params,
                (*old(rng), *final(rng)),
                stats_of(final(slot).root, *final(arena)),
                r,
            ) && steps.len() == final(slot).last_depth && (r is Entry ==> steps
                == final(slot).path.steps@) && comes_to(
                old(slot).root,
                *old(arena),
                *final(arena),
                id,
                steps,
                r,
            ),
        final(scratch).wf(),
        final(scratch).same_settings(old(scratch)),
{
    let mut trace: Vec<Selection<V::Prob>> = Vec::new();
    descend_traced::<V>(id, slot, arena, params, rng, scratch, &mut trace)
}

/// Traced variant of [`descend`]: also appends the selections made, root first, to `trace`.
/// They are all of them legal where they were made, and as many as the recorded depth.
pub fn descend_traced<V: Variant>(
    id: u16,
    slot: &mut Slot<V::Stats, V::Prob>,
    arena: &mut Arena<V::Stats>,
    params: &V::Params,
    rng: &mut Rng,
    scratch: &mut Scratch,
    trace: &mut Vec<Selection<V::Prob>>,
) -> (r: Descent)
    requires
        old(slot).occupied,
        !old(slot).game_over,
        old(slot).waiting_on is None,
        old(slot).sim_count < u32::MAX,
        root_ok(old(slot).root),
        arena_ok(*old(arena)),
        old(scratch).wf(),
    ensures
        descended(*old(slot), *old(arena), *final(slot), *final(arena), id, r),
        final(scratch).wf(),
        final(scratch).same_settings(old(scratch)),
        final(trace)@.len() == old(trace)@.len() + final(slot).last_depth,
        final(trace)@.take(old(trace)@.len() as int) == old(trace)@,
        forall|k: int|
            old(trace)@.len() <= k < final(trace)@.len() ==> step_ok(
                old(slot).root,
                *old(arena),
                (#[trigger] final(trace)@[k]).as_step(),
            ),
        r is Entry ==> steps_of(final(trace)@.skip(old(trace)@.len() as int))
            == final(slot).path.steps@,
        simulates::<V>(
            old(slot).root,
            *old(arena),
            steps_of(final(trace)@.skip(old(trace)@.len() as int)),
            *params,
            (*old(rng), *final(rng)),
            stats_of(final(slot).root, *final(arena)),
            r,
        ),
        comes_to(
            old(slot).root,
            *old(arena),
            *final(arena),
            id,
            steps_of(final(trace)@.skip(old(trace)@.len() as int)),
            r,
        ),
{
    let ghost s0 = *slot;
    let ghost a0 = *arena;
    let ghost sc0 = *scratch;
    let ghost t0 = trace@;
    let ghost begin = (stats_of(slot.root, *arena), *rng);
    slot.path.clear();
    let mut cur: u32 = ROOT;
    proof {
        lemma_begun(s0, a0, *slot, id);
        lemma_starts(s0.root, a0, id, slot.path.steps@);
        lemma_select_none::<V>(s0.root, a0, slot.path.steps@, *params, begin);
        assert(traced(s0.root, a0, t0, trace@, slot.path.steps@)) by {
            reveal(traced);
            assert(trace@.take(t0.len() as int) =~= t0);
            assert(steps_of(trace@.skip(t0.len() as int)) =~= slot.path.steps@);
        }
    }
    loop
        invariant
            s0 == *old(slot),
            a0 == *old(arena),
            sc0 == *old(scratch),
            t0 == old(trace)@,
            arena_ok(a0),
            s0.sim_count < u32::MAX,
            s0.waiting_on is None,
            walked(s0, a0, *slot, *arena, id),
            stands_at(s0, a0, *slot, *arena, id, cur),
            traced(s0.root, a0, t0, trace@, slot.path.steps@),
            entered(s0.root, a0, *arena, id, slot.path.steps@),
            passed(s0.root, a0, slot.path.steps@, cur),
            begin == (stats_of(s0.root, a0), *old(rng)),
            selects_path::<V>(
                s0.root,
                a0,
                slot.path.steps@,
                *params,
                begin,
                (stats_of(slot.root, *arena), *rng),
            ),
            scratch.wf(),
            scratch.same_settings(&sc0),
        decreases MAX_PLY - slot.path.steps@.len(),
    {
        let ghost s1 = *slot;
        let ghost a1 = *arena;
        let ghost t1 = trace@;
        let ghost w1 = (stats_of(s1.root, a1), *rng);
        proof {
            lemma_standing(s0, a0, s1, a1, id, cur);
            lemma_traced(s0.root, a0, t0, t1, s1.path.steps@);
        }
        let over: bool = if cur == ROOT {
            slot.root.game.finished
        } else {
            arena.node(cur).game.finished
        };
        // A terminal needs no network: its values are the game's own, so back up and stop.
        if over {
            settle::<V>(id, cur, slot, arena, params, Ghost(s0), Ghost(a0));
            proof {
                let next = stats_of(slot.root, *arena);
                lemma_stood(s0, a0, s1, a1, id, cur);
                lemma_same_games(s0, a0, s1, a1, id, cur);
                lemma_enters_same(s0.root, a0, a1, *arena, id, s1.path.steps@);
                lemma_stops(
                    s0.root,
                    a0,
                    *arena,
                    id,
                    s1.path.steps@,
                    cur,
                    Descent::NoEntry,
                );
                lemma_settles_same::<V>(
                    s1.root,
                    a1,
                    s0.root,
                    a0,
                    s1.path.steps@,
                    game_at(s1.root, a1, cur).cells@,
                    *params,
                    w1.0,
                    next,
                );
                lemma_simulated::<V>(
                    s0.root,
                    a0,
                    s1.path.steps@,
                    *params,
                    begin.1,
                    w1,
                    next,
                    Descent::NoEntry,
                );
            }
            return Descent::NoEntry;
        }
        if slot.path.len() == MAX_PLY {
            give_up(id, cur, slot, arena, Ghost(s0), Ghost(a0));
            proof {
                lemma_same_games(s0, a0, s1, a1, id, cur);
                lemma_stops(
                    s0.root,
                    a0,
                    *arena,
                    id,
                    s1.path.steps@,
                    cur,
                    Descent::Exhausted,
                );
                lemma_simulated::<V>(
                    s0.root,
                    a0,
                    s1.path.steps@,
                    *params,
                    begin.1,
                    w1,
                    stats_of(slot.root, *arena),
                    Descent::Exhausted,
                );
            }
            return Descent::Exhausted;
        }
        let choice = select_at::<V>(cur, slot, arena, params, rng);
        let step: PathStep<V::Prob> = PathStep { node: cur, choice };
        trace.push(Selection { node: cur, choice });
        slot.path.push(cur, choice);
        proof {
            lemma_selected(s0, a0, s1, a1, *slot, *arena, id, step);
            lemma_looking(s0, a0, *slot, *arena, id, step, key_after(slot.root, *arena, step));
            lemma_step_before(s0, a0, *slot, *arena, id, step);
            lemma_trace_on(s0.root, a0, t0, t1, s1.path.steps@, (Selection { node: cur, choice }));
            lemma_traced(s0.root, a0, t0, trace@, slot.path.steps@);
            let w2 = (stats_of(slot.root, *arena), *rng);
            lemma_same_games(s0, a0, s1, a1, id, cur);
            lemma_same_games(s0, a0, *slot, *arena, id, cur);
            lemma_enters_same(s0.root, a0, a1, *arena, id, s1.path.steps@);
            lemma_steps_on(s0.root, a0, s1.path.steps@, step);
            lemma_select_on::<V>(
                s0.root,
                a0,
                s1.path.steps@,
                *params,
                begin,
                w1,
                w2,
                step,
            );
        }
        let ghost s2 = *slot;
        let ghost a2 = *arena;
        let ghost w2 = (stats_of(s2.root, a2), *rng);
        let key: u64 = child_key(slot, arena, step);
        match arena.get(key) {
            Some(child) => {
                arena.touch(child, id);
                proof {
                    lemma_entered(s0, a0, s2, a2, *arena, id, step, child);
                    lemma_index_same(s0, a0, s2, a2, id, child);
                    lemma_enters_on(
                        s0.root,
                        a0,
                        a2,
                        *arena,
                        id,
                        s1.path.steps@,
                        step,
                        child,
                    );
                    assert(stats_of(slot.root, *arena) =~= w2.0);
                }
                if arena.node(child).is_pending() {
                    ride(id, child, slot, arena, Ghost(s0), Ghost(a0));
                    proof {
                        lemma_waits(s0.root, a0, *arena, id, s2.path.steps@, child);
                        lemma_simulated::<V>(
                            s0.root,
                            a0,
                            s2.path.steps@,
                            *params,
                            begin.1,
                            w2,
                            stats_of(slot.root, *arena),
                            Descent::Entry { node: child, fresh: false },
                        );
                    }
                    return Descent::Entry { node: child, fresh: false };
                }
                cur = child;
            },
            None => {
                let r = grow::<V>(
                    id,
                    step,
                    key,
                    slot,
                    arena,
                    params,
                    scratch,
                    Ghost(s0),
                    Ghost(a0),
                );
                proof {
                    lemma_index_none(s0, a0, s2, a2, id, key);
                    lemma_grows(s0.root, a0, a2, *arena, id, s1.path.steps@, step, r);
                    lemma_concludes_before::<V>(
                        s0,
                        a0,
                        s2,
                        a2,
                        id,
                        step,
                        key,
                        *params,
                        w2.0,
                        stats_of(slot.root, *arena),
                        r,
                    );
                    lemma_simulated::<V>(
                        s0.root,
                        a0,
                        s2.path.steps@,
                        *params,
                        begin.1,
                        w2,
                        stats_of(slot.root, *arena),
                        r,
                    );
                }
                return r;
            },
        }
    }
}

/// The trace `t` goes on from `t0` with the selections of the path, each legal where it was
/// made.
#[verifier::opaque]
spec fn traced<S, P>(
    root: Root<S>,
    a: Arena<S>,
    t0: Seq<Selection<P>>,
    t: Seq<Selection<P>>,
    steps: Seq<PathStep<P>>,
) -> bool {
    &&& t.len() == t0.len() + steps.len()
    &&& t.take(t0.len() as int) == t0
    &&& steps_of(t.skip(t0.len() as int)) == steps
    &&& forall|k: int| t0.len() <= k < t.len() ==> step_ok(root, a, (#[trigger] t[k]).as_step())
}

proof fn lemma_traced<S, P>(
    root: Root<S>,
    a: Arena<S>,
    t0: Seq<Selection<P>>,
    t: Seq<Selection<P>>,
    steps: Seq<PathStep<P>>,
)
    requires
        traced(root, a, t0, t, steps),
    ensures
        t.len() == t0.len() + steps.len(),
        t.take(t0.len() as int) == t0,
        steps_of(t.skip(t0.len() as int)) == steps,
        forall|k: int|
            t0.len() <= k < t.len() ==> step_ok(root, a, (#[trigger] t[k]).as_step()),
{
    reveal(traced);
}

proof fn lemma_trace_on<S, P>(
    root: Root<S>,
    a: Arena<S>,
    t0: Seq<Selection<P>>,
    t: Seq<Selection<P>>,
    steps: Seq<PathStep<P>>,
    one: Selection<P>,
)
    requires
        traced(root, a, t0, t, steps),
        step_ok(root, a, one.as_step()),
    ensures
        traced(root, a, t0, t.push(one), steps.push(one.as_step())),
{
    reveal(traced);
    let n = t0.len() as int;
    let u = t.push(one);
    assert(u.take(n) =~= t.take(n));
    assert(u.skip(n) =~= t.skip(n).push(one));
    assert(steps_of(u.skip(n)) =~= steps_of(t.skip(n)).push(one.as_step()));
    assert forall|k: int| n <= k < u.len() implies step_ok(
        root,
        a,
        (#[trigger] u[k]).as_step(),
    ) by {
        if k < t.len() {
            assert(u[k] == t[k]);
        }
    }
}

/// Positions are what they were when the descent began.
proof fn lemma_same_games<S, P>(
    s0: Slot<S, P>,
    a0: Arena<S>,
    s: Slot<S, P>,
    a: Arena<S>,
    id: u16,
    n: u32,
)
    requires
        walked(s0, a0, s, a, id),
        n == ROOT || a.is_live(n as int),
    ensures
        n == ROOT || a0.is_live(n as int),
        game_at(s0.root, a0, n) == game_at(s.root, a, n),
        key_at(s0.root, a0, n) == key_at(s.root, a, n),
{
    reveal(walked);
    if n != ROOT {
        assert(a0.is_live(n as int));
    }
}

/// A node found was there, for its key, when the descent began.
proof fn lemma_index_same<S, P>(
    s0: Slot<S, P>,
    a0: Arena<S>,
    s: Slot<S, P>,
    a: Arena<S>,
    id: u16,
    child: u32,
)
    requires
        arena_ok(a0),
        walked(s0, a0, s, a, id),
        a.is_live(child as int),
    ensures
        a0.is_live(child as int),
        a0.has(a.nodes@[child as int].key),
        a0.index@[a.nodes@[child as int].key] == child,
        pending(a0.nodes@[child as int].flags) == pending(a.nodes@[child as int].flags),
        node_ok(a0.nodes@[child as int]),
{
    reveal(walked);
    assert(a0.is_live(child as int));
}

/// A key with no node had none when the descent began.
proof fn lemma_index_none<S, P>(
    s0: Slot<S, P>,
    a0: Arena<S>,
    s: Slot<S, P>,
    a: Arena<S>,
    id: u16,
    key: u64,
)
    requires
        walked(s0, a0, s, a, id),
        !a.has(key),
    ensures
        !a0.has(key),
{
    reveal(walked);
}

/// Where a descent stands is where its path leads, in terms of what it began with.
proof fn lemma_stood<S, P>(
    s0: Slot<S, P>,
    a0: Arena<S>,
    s: Slot<S, P>,
    a: Arena<S>,
    id: u16,
    cur: u32,
)
    requires
        walked(s0, a0, s, a, id),
        stands_at(s0, a0, s, a, id, cur),
    ensures
        end_of(s0.root, a0, s.path.steps@) == key_at(s.root, a, cur),
        end_cells(s0.root, a0, s.path.steps@) == game_at(s.root, a, cur).cells@,
        forall|k: int|
            0 <= k < s.path.steps@.len() ==> game_at(
                s.root,
                a,
                (#[trigger] s.path.steps@[k]).node,
            ) == game_at(s0.root, a0, s.path.steps@[k].node),
{
    lemma_standing(s0, a0, s, a, id, cur);
    reveal(stands_at);
    lemma_route_before(s0, a0, s, a, id, key_at(s.root, a, cur));
    lemma_same_games(s0, a0, s, a, id, cur);
    reveal(walked);
    if cur != ROOT {
        assert(a.is_live(cur as int));
        assert(a.index@[a.nodes@[cur as int].key] == cur);
    }
}

/// A route, in terms of what the descent began with.
proof fn lemma_route_before<S, P>(
    s0: Slot<S, P>,
    a0: Arena<S>,
    s: Slot<S, P>,
    a: Arena<S>,
    id: u16,
    key: u64,
)
    requires
        walked(s0, a0, s, a, id),
        route(s.root, a, s.path.steps@, key),
    ensures
        end_of(s0.root, a0, s.path.steps@) == key,
        forall|k: int|
            0 <= k < s.path.steps@.len() ==> game_at(
                s.root,
                a,
                (#[trigger] s.path.steps@[k]).node,
            ) == game_at(s0.root, a0, s.path.steps@[k].node),
{
    let steps = s.path.steps@;
    assert forall|k: int| 0 <= k < steps.len() implies game_at(s.root, a, (#[trigger] steps[k]).node)
        == game_at(s0.root, a0, steps[k].node) && key_after(s0.root, a0, steps[k]) == key_after(
        s.root,
        a,
        steps[k],
    ) by {
        assert(step_ok(s.root, a, steps[k]));
        lemma_same_games(s0, a0, s, a, id, steps[k].node);
    }
    if steps.len() == 0 {
        lemma_same_games(s0, a0, s, a, id, ROOT);
    }
}

/// How a descent concludes, in terms of what it began with.
proof fn lemma_concludes_before<V: Variant>(
    s0: Slot<V::Stats, V::Prob>,
    a0: Arena<V::Stats>,
    s: Slot<V::Stats, V::Prob>,
    a: Arena<V::Stats>,
    id: u16,
    step: PathStep<V::Prob>,
    key: u64,
    params: V::Params,
    before: Map<u32, V::Stats>,
    after: Map<u32, V::Stats>,
    r: Descent,
)
    requires
        walked(s0, a0, s, a, id),
        looks_for(s0, a0, s, a, step, key),
        concludes::<V>(s.root, a, s.path.steps@, params, before, after, r),
    ensures
        concludes::<V>(s0.root, a0, s.path.steps@, params, before, after, r),
{
    reveal(concludes);
    lemma_looked(s0, a0, s, a, step, key);
    lemma_route_before(s0, a0, s, a, id, key);
    if r is NoEntry {
        lemma_settles_same::<V>(
            s.root,
            a,
            s0.root,
            a0,
            s.path.steps@,
            end_cells(s.root, a, s.path.steps@),
            params,
            before,
            after,
        );
        lemma_end_before(s0, a0, s, a, id, step, key);
    }
}

/// The board a path leads to, in terms of what the descent began with.
proof fn lemma_end_before<S, P>(
    s0: Slot<S, P>,
    a0: Arena<S>,
    s: Slot<S, P>,
    a: Arena<S>,
    id: u16,
    step: PathStep<P>,
    key: u64,
)
    requires
        walked(s0, a0, s, a, id),
        looks_for(s0, a0, s, a, step, key),
    ensures
        end_cells(s0.root, a0, s.path.steps@) == end_cells(s.root, a, s.path.steps@),
{
    lemma_looked(s0, a0, s, a, step, key);
    lemma_route_before(s0, a0, s, a, id, key);
    lemma_searched(s0, a0, s, a, id);
    reveal(walked);
    reveal(looks_for);
    if a.has(key) {
        assert(a.is_live(a.index@[key] as int));
        assert(a0.is_live(a.index@[key] as int));
    }
}

/// What is legal at a node now was legal there when the descent began.
proof fn lemma_step_before<S, P>(
    s0: Slot<S, P>,
    a0: Arena<S>,
    s: Slot<S, P>,
    a: Arena<S>,
    id: u16,
    step: PathStep<P>,
)
    requires
        walked(s0, a0, s, a, id),
        step_ok(s.root, a, step),
    ensures
        step_ok(s0.root, a0, step),
{
    reveal(walked);
    if step.node != ROOT {
        assert(a0.is_live(step.node as int));
    }
}

/// What a descent has walked is in order.
proof fn lemma_walking<S, P>(s0: Slot<S, P>, a0: Arena<S>, s: Slot<S, P>, a: Arena<S>, id: u16)
    requires
        walked(s0, a0, s, a, id),
    ensures
        arena_ok(a),
{
    reveal(walked);
}

/// Where a descent stands is in order.
proof fn lemma_standing<S, P>(
    s0: Slot<S, P>,
    a0: Arena<S>,
    s: Slot<S, P>,
    a: Arena<S>,
    id: u16,
    cur: u32,
)
    requires
        walked(s0, a0, s, a, id),
        stands_at(s0, a0, s, a, id, cur),
    ensures
        arena_ok(a),
        root_ok(s.root),
        cur == ROOT || a.is_live(cur as int),
        s.path.steps@.len() <= MAX_PLY,
{
    reveal(walked);
    reveal(stands_at);
}

/// What a descent looks for is the child of a node in order.
proof fn lemma_looking<S, P>(
    s0: Slot<S, P>,
    a0: Arena<S>,
    s: Slot<S, P>,
    a: Arena<S>,
    id: u16,
    step: PathStep<P>,
    key: u64,
)
    requires
        walked(s0, a0, s, a, id),
        looks_for(s0, a0, s, a, step, key),
    ensures
        arena_ok(a),
        root_ok(s.root),
        step_ok(s.root, a, step),
        key == key_after(s.root, a, step),
        0 < s.path.steps@.len() <= MAX_PLY,
        s.sim_count == s0.sim_count,
{
    reveal(walked);
    reveal(looks_for);
}

/// A descent begins at the root.
proof fn lemma_begun<S, P>(s0: Slot<S, P>, a0: Arena<S>, s: Slot<S, P>, id: u16)
    requires
        root_ok(s0.root),
        arena_ok(a0),
        s == (Slot { path: s.path, ..s0 }),
        s.path.steps@.len() == 0,
    ensures
        walked(s0, a0, s, a0, id),
        stands_at(s0, a0, s, a0, id, ROOT),
{
    reveal(walked);
    reveal(stands_at);
    reveal(looks_for);
    lemma_playable_bound(s.root.game.cells@);
    lemma_reach_self(s.root.game.cells@);
}

/// A path with a step begins at a root where there is a move.
proof fn lemma_unfinished<S, P>(root: Root<S>, a: Arena<S>, steps: Seq<PathStep<P>>)
    requires
        root_ok(root),
        steps.len() > 0 ==> steps[0].node == ROOT && step_ok(root, a, steps[0]),
    ensures
        steps.len() > 0 ==> !root.game.finished,
{
}

/// Where nothing is playable, the count of playable squares is zero, and only there.
pub proof fn lemma_playable(cells: Seq<i8>)
    requires
        playable_even(cells),
    ensures
        any_playable(cells) ==> count_of(cells, PLAYABLE_SQUARE) > 0,
{
    if any_playable(cells) {
        let i = choose|i: int| 0 <= i < HW && #[trigger] cells[i] == PLAYABLE_SQUARE;
        let f = |i: int| holding(cells, PLAYABLE_SQUARE, i);
        assert(f(i) == 1);
        let z = |i: int| 0int;
        lemma_sum_lt(z, f, HW as nat, i);
        lemma_sum_nonneg(z, HW as nat);
    }
}

proof fn lemma_flags()
    ensures
        !pending(0),
        pending(PENDING),
{
    assert(0u8 & 1u8 == 0 && 1u8 & 1u8 == 1) by (bit_vector);
}

} // verus!
