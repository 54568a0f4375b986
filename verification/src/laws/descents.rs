//! Where a descent goes, and what it leaves behind.
use vstd::prelude::*;

use crate::board::{HW, PLAYABLE_SQUARE, PLAYER_0_MARK, PLAYER_1_MARK, SQUARES};
use crate::game::{any_playable, outcome, squares_of, Game};
use crate::laws::nodes::{lemma_move_selected, lemma_takeable, move_selected, stats_there, takeable};
use crate::legal::{cell_of, holds, lemma_cell_of, LEGAL_WORDS};
use crate::mcts::arena::Arena;
use crate::mcts::collect::{descends_along, run_at, run_by, runs, runs_by, seated, Asked};
use crate::mcts::config::Config;
use crate::mcts::descent::{
    arena_ok, descend, descend_traced, descended, game_at, key_after, key_at, node_ok, root_ok,
    route, step_ok, steps_of, Descent, Selection,
};
use crate::mcts::diagnostics::Diagnostics;
use crate::mcts::search::{collected, rested, toured, toured_at, toured_by, walk_reached, Search};
use crate::mcts::slot::{PathStep, Root, Slot};
use crate::mcts::stats::{
    backs_up, concludes, counts_of, end_cells, end_of, lemma_whole_path, made_cells, masks_of,
    selected_at, selections, selects_path, settled_by, simulates, simulates_by, stats_of,
};
use crate::mcts::variant::{selects, selects_both, Choice, Variant};
use crate::mcts::visits::comes_to;
use crate::moves::moved;
use crate::rng::Rng;
use crate::score::score_of;
use crate::scratch::Scratch;
use crate::sums::{lemma_sum_eq, sum_to};
use crate::zobrist::{hash_of, lemma_step_matches_rehash};

verus! {

/// The game at a step of a path: the root's, or a node's.
pub open spec fn game_there<S>(root: Root<S>, a: Arena<S>, node: u32) -> Game {
    if node == u32::MAX {
        root.game
    } else {
        a.nodes@[node as int].game
    }
}

/// The board that the moves of a step lead to.
pub open spec fn board_after<S, P>(root: Root<S>, a: Arena<S>, s: PathStep<P>) -> Seq<i8> {
    let a0 = s.choice@[0].action as int;
    let a1 = s.choice@[1].action as int;
    moved(
        game_there(root, a, s.node).cells@,
        2 * a0 + (a0 / 8) % 2,
        2 * a1 + (a1 / 8) % 2,
    )
}

/// A path goes from the root, by squares open to the players, through nodes that have been
/// evaluated, each of them the node for the board that the step before led to.
pub open spec fn walks<S, P>(root: Root<S>, a: Arena<S>, steps: Seq<PathStep<P>>) -> bool {
    &&& steps.len() <= 80
    &&& steps.len() > 0 ==> steps[0].node == u32::MAX
    &&& forall|k: int| 0 <= k < steps.len() ==> open_squares(root, a, #[trigger] steps[k])
    &&& forall|k: int|
        0 < k < steps.len() ==> {
            let n = a.nodes@[(#[trigger] steps[k]).node as int];
            &&& a.is_live(steps[k].node as int)
            &&& n.flags & 1 == 0
            &&& n.key == hash_of(squares_of(board_after(root, a, steps[k - 1])))
        }
}

/// Are the squares chosen at a step open, and before the first move in the players' halves?
pub open spec fn open_squares<S, P>(root: Root<S>, a: Arena<S>, s: PathStep<P>) -> bool {
    let g = game_there(root, a, s.node);
    let a0 = s.choice@[0].action as int;
    let a1 = s.choice@[1].action as int;
    let c0 = 2 * a0 + (a0 / 8) % 2;
    let c1 = 2 * a1 + (a1 / 8) % 2;
    &&& a0 < SQUARES
    &&& a1 < SQUARES
    &&& g.cells@[c0] == PLAYABLE_SQUARE
    &&& g.cells@[c1] == PLAYABLE_SQUARE
    &&& g.move_count == 0 ==> c0 % 16 < 8 && c1 % 16 >= 8
}

/// How a path ends. At a finished root nothing is to be done. Where there is a node for the
/// board it leads to, that node is a terminal, or waits for its evaluation, or the path is as
/// long as a game. Where there is none, one is made, with that board and one move more, for
/// this game alone and waiting for its evaluation unless the game is over; or there is no room.
pub open spec fn ends_so<S, P>(
    root: Root<S>,
    before: Arena<S>,
    after: Arena<S>,
    id: u16,
    steps: Seq<PathStep<P>>,
    r: Descent,
) -> bool {
    if steps.len() == 0 {
        root.game.finished && r is NoEntry && after.live == before.live
    } else {
        let last = steps[steps.len() - 1];
        let board = board_after(root, before, last);
        let key = hash_of(squares_of(board));
        if !before.lacks(key) {
            exists|i: u32| {
                let n = before.nodes@[i as int];
                &&& #[trigger] before.is_live(i as int)
                &&& n.key == key
                &&& after.live == before.live
                &&& r == (if n.game.finished {
                    Descent::NoEntry
                } else if n.flags & 1 != 0 {
                    Descent::Entry { node: i, fresh: false }
                } else {
                    Descent::Exhausted
                })
                &&& r is Exhausted ==> steps.len() == 80
            }
        } else if before.live == before.capacity {
            r is Exhausted && after.live == before.live
        } else {
            exists|i: u32| {
                let n = after.nodes@[i as int];
                let over = forall|x: int| 0 <= x < HW ==> #[trigger] board[x] != PLAYABLE_SQUARE;
                &&& after.live == before.live + 1
                &&& #[trigger] after.is_live(i as int)
                &&& !before.is_live(i as int)
                &&& n.key == key
                &&& n.game.cells@ == board
                &&& n.game.move_count == game_there(root, before, last.node).move_count + 1
                &&& n.ids@.take(n.id_count as int) == seq![id]
                &&& n.flags == (if over {
                    0u8
                } else {
                    1
                })
                &&& r == (if over {
                    Descent::NoEntry
                } else {
                    Descent::Entry { node: i, fresh: true }
                })
            }
        }
    }
}

/// The key that a step leads to is that of the board it leads to.
proof fn lemma_key_after<S, P>(root: Root<S>, a: Arena<S>, s: PathStep<P>)
    requires
        root_ok(root),
        arena_ok(a),
        step_ok(root, a, s),
    ensures
        key_after(root, a, s) == hash_of(squares_of(board_after(root, a, s))),
        made_cells(root, a, s) == board_after(root, a, s),
        open_squares(root, a, s),
{
    let g = game_at(root, a, s.node);
    assert(key_at(root, a, s.node) == hash_of(squares_of(g.cells@)) && g.wf()) by {
        if s.node != u32::MAX {
            assert(node_ok(a.nodes@[s.node as int]));
        }
    }
    lemma_cell_of(s.choice@[0].action as int);
    lemma_cell_of(s.choice@[1].action as int);
    lemma_step_matches_rehash(
        g.cells@,
        s.choice@[0].action as int,
        s.choice@[1].action as int,
    );
}

/// A descent walks down a path, of the length that it notes and the very path that it leaves
/// for an evaluation, and ends as it must.
pub proof fn lemma_descent_walks<V: Variant>(
    id: u16,
    slot: &mut Slot<V::Stats, V::Prob>,
    arena: &mut Arena<V::Stats>,
    params: V::Params,
    rng: &mut Rng,
    scratch: &mut Scratch,
    r: Descent,
)
    requires
        call_ensures(descend::<V>, (id, slot, arena, &params, rng, scratch), r),
        root_ok(old(slot).root),
        arena_ok(*old(arena)),
    ensures
        exists|steps: Seq<PathStep<V::Prob>>| {
            &&& #[trigger] walks(old(slot).root, *old(arena), steps)
            &&& ends_so(old(slot).root, *old(arena), *final(arena), id, steps, r)
            &&& steps.len() == final(slot).last_depth
            &&& r is Entry ==> steps == final(slot).path.steps@
        },
{
    let steps = choose|steps: Seq<PathStep<V::Prob>>|
        steps.len() == final(slot).last_depth && (r is Entry ==> steps == final(slot).path.steps@)
            && #[trigger] comes_to(old(slot).root, *old(arena), *final(arena), id, steps, r);
    lemma_walked(old(slot).root, *old(arena), *final(arena), id, steps, r);
}

#[verifier::spinoff_prover]
proof fn lemma_walked<S, P>(
    root: Root<S>,
    before: Arena<S>,
    after: Arena<S>,
    id: u16,
    steps: Seq<PathStep<P>>,
    r: Descent,
)
    requires
        root_ok(root),
        arena_ok(before),
        comes_to(root, before, after, id, steps, r),
    ensures
        walks(root, before, steps),
        ends_so(root, before, after, id, steps, r),
{
    reveal(comes_to);
    let end = end_of(root, before, steps);
    assert(route(root, before, steps, end));
    assert forall|k: int| 0 <= k < steps.len() implies open_squares(
        root,
        before,
        #[trigger] steps[k],
    ) && key_after(root, before, steps[k]) == hash_of(
        squares_of(board_after(root, before, steps[k])),
    ) by {
        lemma_key_after(root, before, steps[k]);
    }
    assert forall|k: int| 0 < k < steps.len() implies {
        let n = before.nodes@[(#[trigger] steps[k]).node as int];
        &&& before.is_live(steps[k].node as int)
        &&& n.flags & 1 == 0
        &&& n.key == hash_of(squares_of(board_after(root, before, steps[k - 1])))
    } by {
        assert(step_ok(root, before, steps[k]));
        assert(open_squares(root, before, steps[k - 1]) && key_after(root, before, steps[k - 1])
            == hash_of(squares_of(board_after(root, before, steps[k - 1]))));
    }
    if steps.len() > 0 {
        lemma_key_after(root, before, steps.last());
        let board = board_after(root, before, steps.last());
        if before.has(end) {
            let i = before.index@[end];
            assert(before.is_live(i as int));
            assert(before.nodes@[i as int].key == end);
        } else {
            assert(before.lacks(end));
            if before.live != before.capacity {
                let i = before.next_slot() as u32;
                let n = after.nodes@[i as int];
                assert(after.is_live(i as int) && !before.is_live(i as int));
                assert(n.game.finished <==> !any_playable(board));
            }
        }
    }
}

// ------------------------------------------------------------------------ what is learnt

/// Does step `k` stand at a node that no other step of the path stands at?
pub open spec fn stands_once<P>(steps: Seq<PathStep<P>>, k: int) -> bool {
    forall|j: int|
        0 <= j < steps.len() && j != k ==> (#[trigger] steps[j]).node != steps[k].node
}

/// Both moves of a step are selected by the statistics that are there, player 0's first, from
/// the squares open to each player.
pub open spec fn chosen_there<V: Variant>(
    g: Game,
    choice: [Choice<V::Prob>; 2],
    params: V::Params,
    before: (V::Stats, Rng),
    after: (V::Stats, Rng),
) -> bool {
    exists|legal: [[u64; LEGAL_WORDS]; 2], mid: (V::Stats, Rng)| {
        &&& forall|k: int|
            0 <= k < 128 ==> (#[trigger] holds(legal@[0]@, k) <==> free_for(g, 0, k))
        &&& forall|k: int|
            0 <= k < 128 ==> (#[trigger] holds(legal@[1]@, k) <==> free_for(g, 1, k))
        &&& #[trigger] move_selected::<V>(before, legal@[0], 0, params, mid, choice@[0])
        &&& #[trigger] move_selected::<V>(mid, legal@[1], 1, params, after, choice@[1])
    }
}

/// Is square `k` open to a player: nothing on it, and before the first move in the player's
/// half?
pub open spec fn free_for(g: Game, player: int, k: int) -> bool {
    let i = 2 * k + (k / 8) % 2;
    &&& 0 <= k < 80
    &&& g.cells@[i] == PLAYABLE_SQUARE
    &&& g.move_count > 0 || player == 0 && i % 16 < 8 || player == 1 && i % 16 >= 8
}

/// Moves are selected down a path by the statistics that there are, one step after the other,
/// which leaves the statistics `mids`.
pub open spec fn chosen_along<V: Variant>(
    root: Root<V::Stats>,
    a: Arena<V::Stats>,
    steps: Seq<PathStep<V::Prob>>,
    params: V::Params,
    rngs: Seq<Rng>,
    mids: Map<u32, V::Stats>,
) -> bool {
    &&& rngs.len() == steps.len() + 1
    &&& forall|k: int|
        0 <= k < steps.len() && stands_once(steps, k) ==> chosen_there::<V>(
            game_there(root, a, steps[k].node),
            steps[k].choice,
            params,
            (stats_there(root.stats, a.nodes@, steps[k].node), #[trigger] rngs[k]),
            (mids[steps[k].node], rngs[k + 1]),
        )
}

/// The result of a finished board is backed up along a path: a win for the player with the
/// higher score, a loss for the other, or a draw; at each step with the moves chosen there and
/// the numbers of squares that were open.
pub open spec fn result_backed<V: Variant>(
    root: Root<V::Stats>,
    a: Arena<V::Stats>,
    steps: Seq<PathStep<V::Prob>>,
    params: V::Params,
    mids: Map<u32, V::Stats>,
    after_root: V::Stats,
    after: Arena<V::Stats>,
    board: Seq<i8>,
    result: [i8; 2],
    value: V::Value,
) -> bool {
    let p = score_of(board, PLAYER_0_MARK);
    let q = score_of(board, PLAYER_1_MARK);
    &&& result@[0] == 1 <==> p > q
    &&& result@[0] == -1 <==> p < q
    &&& result@[0] == 0 <==> p == q
    &&& result@[1] == -result@[0]
    &&& call_ensures(V::terminal, (result,), value)
    &&& forall|x: int| 0 <= x < HW ==> #[trigger] board[x] != PLAYABLE_SQUARE
    &&& forall|k: int|
        0 <= k < steps.len() && stands_once(steps, k) ==> backed_there::<V>(
            game_there(root, a, steps[k].node),
            #[trigger] steps[k],
            value,
            params,
            mids[steps[k].node],
            stats_there(after_root, after.nodes@, steps[k].node),
        )
}

/// A value backed up at one step.
pub open spec fn backed_there<V: Variant>(
    g: Game,
    s: PathStep<V::Prob>,
    value: V::Value,
    params: V::Params,
    before: V::Stats,
    after: V::Stats,
) -> bool {
    exists|n: [u32; 2]| {
        &&& n@[0] == takeable(g.cells@, g.move_count > 0, 0)
        &&& n@[1] == takeable(g.cells@, g.move_count > 0, 1)
        &&& #[trigger] call_ensures(V::backup, (before, s.choice, value, n, &params), after)
    }
}

/// A descent selects its moves by the statistics on its way. One that comes to a terminal backs
/// the result up along the whole way; any other leaves the statistics as the selection did.
pub proof fn lemma_descent_learns<V: Variant>(
    id: u16,
    slot: &mut Slot<V::Stats, V::Prob>,
    arena: &mut Arena<V::Stats>,
    params: V::Params,
    rng: &mut Rng,
    scratch: &mut Scratch,
    r: Descent,
)
    requires
        call_ensures(descend::<V>, (id, slot, arena, &params, rng, scratch), r),
        root_ok(old(slot).root),
        arena_ok(*old(arena)),
        forall|i: int| #[trigger] old(arena).is_live(i) ==> final(arena).is_live(i),
    ensures
        exists|steps: Seq<PathStep<V::Prob>>| {
            &&& #[trigger] learns_along::<V>(
                old(slot).root,
                *old(arena),
                steps,
                params,
                (*old(rng), *final(rng)),
                final(slot).root,
                *final(arena),
                r,
            )
            &&& walks(old(slot).root, *old(arena), steps)
            &&& steps.len() == final(slot).last_depth
            &&& r is Entry ==> steps == final(slot).path.steps@
        },
{
    let root = old(slot).root;
    let a = *old(arena);
    let steps = choose|steps: Seq<PathStep<V::Prob>>|
        #[trigger] simulates::<V>(
            root,
            a,
            steps,
            params,
            (*old(rng), *final(rng)),
            stats_of(final(slot).root, *final(arena)),
            r,
        ) && steps.len() == final(slot).last_depth && (r is Entry ==> steps
            == final(slot).path.steps@) && comes_to(root, a, *final(arena), id, steps, r);
    lemma_walked(root, a, *final(arena), id, steps, r);
    lemma_learns::<V>(
        root,
        a,
        steps,
        params,
        (*old(rng), *final(rng)),
        final(slot).root,
        *final(arena),
        r,
    );
}

/// What a descent along a path leaves of the statistics.
pub open spec fn learns_along<V: Variant>(
    root: Root<V::Stats>,
    a: Arena<V::Stats>,
    steps: Seq<PathStep<V::Prob>>,
    params: V::Params,
    rngs: (Rng, Rng),
    root_after: Root<V::Stats>,
    after: Arena<V::Stats>,
    r: Descent,
) -> bool {
    exists|all: Seq<Rng>, mids: Map<u32, V::Stats>| {
        &&& #[trigger] chosen_along::<V>(root, a, steps, params, all, mids)
        &&& all[0] == rngs.0
        &&& all.last() == rngs.1
        &&& !(r is NoEntry) ==> forall|k: int|
            0 <= k < steps.len() ==> stats_there(
                root_after.stats,
                after.nodes@,
                (#[trigger] steps[k]).node,
            ) == mids[steps[k].node]
        &&& r is NoEntry ==> exists|board: Seq<i8>, result: [i8; 2], value: V::Value| #[trigger]
            result_backed::<V>(
                root,
                a,
                steps,
                params,
                mids,
                root_after.stats,
                after,
                board,
                result,
                value,
            )
    }
}

proof fn lemma_learns<V: Variant>(
    root: Root<V::Stats>,
    a: Arena<V::Stats>,
    steps: Seq<PathStep<V::Prob>>,
    params: V::Params,
    rngs: (Rng, Rng),
    root_after: Root<V::Stats>,
    after: Arena<V::Stats>,
    r: Descent,
)
    requires
        root_ok(root),
        arena_ok(a),
        walks(root, a, steps),
        simulates::<V>(root, a, steps, params, rngs, stats_of(root_after, after), r),
        forall|i: int| #[trigger] a.is_live(i) ==> after.is_live(i),
    ensures
        learns_along::<V>(root, a, steps, params, rngs, root_after, after, r),
{
    let end = stats_of(root_after, after);
    assert(exists|mid: Map<u32, V::Stats>| #[trigger]
        simulates_by::<V>(root, a, steps, params, rngs, end, r, mid)) by {
        reveal(simulates);
    }
    let mids = choose|mid: Map<u32, V::Stats>| #[trigger]
        simulates_by::<V>(root, a, steps, params, rngs, end, r, mid);
    assert(exists|worlds: Seq<(Map<u32, V::Stats>, Rng)>| #[trigger]
        selections::<V>(
            root,
            a,
            steps,
            params,
            (stats_of(root, a), rngs.0),
            (mids, rngs.1),
            worlds,
        )) by {
        reveal(selects_path);
    }
    let worlds = choose|worlds: Seq<(Map<u32, V::Stats>, Rng)>| #[trigger]
        selections::<V>(
            root,
            a,
            steps,
            params,
            (stats_of(root, a), rngs.0),
            (mids, rngs.1),
            worlds,
        );
    let all = Seq::new(worlds.len(), |k: int| worlds[k].1);
    lemma_chosen::<V>(root, a, steps, params, rngs, worlds, all, mids);
    lemma_concluded::<V>(root, a, steps, params, mids, root_after, after, r);
}

/// What the statistics of a step that stands alone are along the way.
proof fn lemma_world<V: Variant>(
    root: Root<V::Stats>,
    a: Arena<V::Stats>,
    steps: Seq<PathStep<V::Prob>>,
    params: V::Params,
    worlds: Seq<(Map<u32, V::Stats>, Rng)>,
    k: int,
    m: int,
)
    requires
        0 <= k < steps.len(),
        0 <= m <= steps.len(),
        worlds.len() == steps.len() + 1,
        worlds[0].0.contains_key(steps[k].node),
        forall|j: int|
            0 <= j < steps.len() ==> #[trigger] selected_at::<V>(root, a, steps, params, worlds, j),
    ensures
        worlds[m].0.contains_key(steps[k].node),
        stands_once(steps, k) && m <= k ==> worlds[m].0[steps[k].node]
            == worlds[0].0[steps[k].node],
        stands_once(steps, k) && m > k ==> worlds[m].0[steps[k].node] == worlds[k
            + 1].0[steps[k].node],
    decreases m,
{
    if m > 0 {
        lemma_world::<V>(root, a, steps, params, worlds, k, m - 1);
        assert(selected_at::<V>(root, a, steps, params, worlds, m - 1));
        assert(worlds[m].0 == worlds[m - 1].0.insert(
            steps[m - 1].node,
            worlds[m].0[steps[m - 1].node],
        ));
    }
}

#[verifier::spinoff_prover]
proof fn lemma_chosen<V: Variant>(
    root: Root<V::Stats>,
    a: Arena<V::Stats>,
    steps: Seq<PathStep<V::Prob>>,
    params: V::Params,
    ends: (Rng, Rng),
    worlds: Seq<(Map<u32, V::Stats>, Rng)>,
    rngs: Seq<Rng>,
    mids: Map<u32, V::Stats>,
)
    requires
        root_ok(root),
        arena_ok(a),
        walks(root, a, steps),
        selections::<V>(
            root,
            a,
            steps,
            params,
            (stats_of(root, a), ends.0),
            (mids, ends.1),
            worlds,
        ),
        rngs == Seq::new(worlds.len(), |k: int| worlds[k].1),
    ensures
        chosen_along::<V>(root, a, steps, params, rngs, mids),
        forall|k: int| 0 <= k < steps.len() ==> mids.contains_key((#[trigger] steps[k]).node),
        rngs[0] == ends.0,
        rngs.last() == ends.1,
{
    reveal(selections);
    assert forall|k: int| 0 <= k < steps.len() implies worlds[0].0.contains_key(
        (#[trigger] steps[k]).node,
    ) by {}
    assert forall|k: int| 0 <= k < steps.len() implies mids.contains_key(
        (#[trigger] steps[k]).node,
    ) by {
        lemma_world::<V>(root, a, steps, params, worlds, k, steps.len() as int);
    }
    assert forall|k: int| 0 <= k < steps.len() && stands_once(steps, k) implies chosen_there::<V>(
        game_there(root, a, steps[k].node),
        steps[k].choice,
        params,
        (stats_there(root.stats, a.nodes@, steps[k].node), #[trigger] rngs[k]),
        (mids[steps[k].node], rngs[k + 1]),
    ) by {
        let node = steps[k].node;
        let g = game_there(root, a, node);
        assert(g.wf()) by {
            if node != u32::MAX {
                assert(node_ok(a.nodes@[node as int]));
            }
        }
        lemma_world::<V>(root, a, steps, params, worlds, k, k);
        lemma_world::<V>(root, a, steps, params, worlds, k, steps.len() as int);
        assert(selected_at::<V>(root, a, steps, params, worlds, k));
        let legal = choose|legal: [[u64; LEGAL_WORDS]; 2]| #[trigger]
            masks_of(g, legal) && selects_both::<V>(
                (worlds[k].0[node], worlds[k].1),
                legal,
                params,
                (worlds[k + 1].0[node], worlds[k + 1].1),
                steps[k].choice,
            );
        let mid = choose|mid: (V::Stats, Rng)|
            {
                &&& #[trigger] selects::<V>(
                    (worlds[k].0[node], worlds[k].1),
                    legal@[0],
                    0,
                    params,
                    mid,
                    steps[k].choice@[0],
                )
                &&& selects::<V>(
                    mid,
                    legal@[1],
                    1,
                    params,
                    (worlds[k + 1].0[node], worlds[k + 1].1),
                    steps[k].choice@[1],
                )
            };
        lemma_move_selected::<V>(
            (worlds[k].0[node], worlds[k].1),
            legal@[0],
            0,
            params,
            mid,
            steps[k].choice@[0],
        );
        lemma_move_selected::<V>(
            mid,
            legal@[1],
            1,
            params,
            (worlds[k + 1].0[node], worlds[k + 1].1),
            steps[k].choice@[1],
        );
        lemma_free_for(g, legal@[0]@, 0);
        lemma_free_for(g, legal@[1]@, 1);
    }
}

proof fn lemma_free_for(g: Game, w: Seq<u64>, player: int)
    requires
        g.wf(),
        0 <= player < 2,
        g.is_mask(w, player),
    ensures
        forall|k: int| 0 <= k < 128 ==> (#[trigger] holds(w, k) <==> free_for(g, player, k)),
{
    assert forall|k: int| 0 <= k < 128 implies (#[trigger] holds(w, k) <==> free_for(
        g,
        player,
        k,
    )) by {
        if k < 80 {
            lemma_cell_of(k);
            assert(holds(g.legal@, k) <==> g.cells@[cell_of(k)] == PLAYABLE_SQUARE);
        }
    }
}

proof fn lemma_result(g: Game, result: [i8; 2])
    requires
        g.wf(),
        g.finished,
        result@ == outcome(g.scores@),
    ensures
        ({
            let p = score_of(g.cells@, PLAYER_0_MARK);
            let q = score_of(g.cells@, PLAYER_1_MARK);
            &&& result@[0] == 1 <==> p > q
            &&& result@[0] == -1 <==> p < q
            &&& result@[0] == 0 <==> p == q
            &&& result@[1] == -result@[0]
        }),
        forall|x: int| 0 <= x < HW ==> #[trigger] g.cells@[x] != PLAYABLE_SQUARE,
{
    assert(g.scores@[0] == score_of(g.cells@, PLAYER_0_MARK));
    assert(g.scores@[1] == score_of(g.cells@, PLAYER_1_MARK));
    assert(!any_playable(g.cells@));
}

proof fn lemma_backed_there<V: Variant>(
    root: Root<V::Stats>,
    a: Arena<V::Stats>,
    steps: Seq<PathStep<V::Prob>>,
    value: V::Value,
    params: V::Params,
    before: Map<u32, V::Stats>,
    after: Map<u32, V::Stats>,
    k: int,
)
    requires
        backs_up::<V>(root, a, steps, value, params, before, after),
        0 <= k < steps.len(),
        stands_once(steps, k),
    ensures
        backed_there::<V>(
            game_there(root, a, steps[k].node),
            steps[k],
            value,
            params,
            before[steps[k].node],
            after[steps[k].node],
        ),
{
    let game = game_at(root, a, steps[k].node);
    lemma_whole_path::<V>(root, a, steps, value, params, before, after, k);
    let n = choose|n: [u32; 2]| #[trigger]
        counts_of(game, n) && call_ensures(
            V::backup,
            (before[steps[k].node], steps[k].choice, value, n, &params),
            after[steps[k].node],
        );
    lemma_takeable(game, 0);
    lemma_takeable(game, 1);
}

#[verifier::spinoff_prover]
proof fn lemma_concluded<V: Variant>(
    root: Root<V::Stats>,
    a: Arena<V::Stats>,
    steps: Seq<PathStep<V::Prob>>,
    params: V::Params,
    mids: Map<u32, V::Stats>,
    root_after: Root<V::Stats>,
    after: Arena<V::Stats>,
    r: Descent,
)
    requires
        walks(root, a, steps),
        concludes::<V>(root, a, steps, params, mids, stats_of(root_after, after), r),
        forall|k: int| 0 <= k < steps.len() ==> mids.contains_key((#[trigger] steps[k]).node),
        forall|i: int| #[trigger] a.is_live(i) ==> after.is_live(i),
    ensures
        !(r is NoEntry) ==> forall|k: int|
            0 <= k < steps.len() ==> stats_there(
                root_after.stats,
                after.nodes@,
                (#[trigger] steps[k]).node,
            ) == mids[steps[k].node],
        r is NoEntry ==> exists|board: Seq<i8>, result: [i8; 2], value: V::Value| #[trigger]
            result_backed::<V>(
                root,
                a,
                steps,
                params,
                mids,
                root_after.stats,
                after,
                board,
                result,
                value,
            ),
{
    reveal(concludes);
    let end = stats_of(root_after, after);
    assert forall|k: int| 0 <= k < steps.len() implies end[(#[trigger] steps[k]).node]
        == stats_there(root_after.stats, after.nodes@, steps[k].node) by {
        if k > 0 {
            assert(a.is_live(steps[k].node as int));
        }
    }
    if r is NoEntry {
        let cells = end_cells(root, a, steps);
        let (g, result, value, grown_to) = choose|
            g: Game,
            result: [i8; 2],
            value: V::Value,
            mid: Map<u32, V::Stats>,
        | #[trigger]
            settled_by::<V>(root, a, steps, cells, params, mids, end, g, result, value, mid);
        assert forall|k: int| 0 <= k < steps.len() && stands_once(steps, k) implies backed_there::<
            V,
        >(
            game_there(root, a, steps[k].node),
            #[trigger] steps[k],
            value,
            params,
            mids[steps[k].node],
            stats_there(root_after.stats, after.nodes@, steps[k].node),
        ) by {
            lemma_backed_there::<V>(root, a, steps, value, params, grown_to, end, k);
            assert(mids.contains_key(steps[k].node));
        }
        lemma_result(g, result);
        assert(result_backed::<V>(
            root,
            a,
            steps,
            params,
            mids,
            root_after.stats,
            after,
            g.cells@,
            result,
            value,
        ));
    }
}

/// A descent that is traced walks, ends and learns as any does, and what it adds to the trace is
/// its path.
pub proof fn lemma_descent_traced<V: Variant>(
    id: u16,
    slot: &mut Slot<V::Stats, V::Prob>,
    arena: &mut Arena<V::Stats>,
    params: V::Params,
    rng: &mut Rng,
    scratch: &mut Scratch,
    trace: &mut Vec<Selection<V::Prob>>,
    r: Descent,
)
    requires
        call_ensures(descend_traced::<V>, (id, slot, arena, &params, rng, scratch, trace), r),
        root_ok(old(slot).root),
        arena_ok(*old(arena)),
        forall|i: int| #[trigger] old(arena).is_live(i) ==> final(arena).is_live(i),
    ensures
        ({
            let was = old(trace)@.len() as int;
            let steps = Seq::new(
                (final(trace)@.len() - was) as nat,
                |k: int|
                    PathStep {
                        node: final(trace)@[was + k].node,
                        choice: final(trace)@[was + k].choice,
                    },
            );
            &&& final(trace)@.len() == was + final(slot).last_depth
            &&& final(trace)@.take(was) == old(trace)@
            &&& walks(old(slot).root, *old(arena), steps)
            &&& ends_so(old(slot).root, *old(arena), *final(arena), id, steps, r)
            &&& learns_along::<V>(
                old(slot).root,
                *old(arena),
                steps,
                params,
                (*old(rng), *final(rng)),
                final(slot).root,
                *final(arena),
                r,
            )
            &&& r is Entry ==> steps == final(slot).path.steps@
        }),
{
    let was = old(trace)@.len() as int;
    let steps = Seq::new(
        (final(trace)@.len() - was) as nat,
        |k: int|
            PathStep {
                node: final(trace)@[was + k].node,
                choice: final(trace)@[was + k].choice,
            },
    );
    assert(steps =~= steps_of(final(trace)@.skip(was)));
    lemma_walked(old(slot).root, *old(arena), *final(arena), id, steps, r);
    lemma_learns::<V>(
        old(slot).root,
        *old(arena),
        steps,
        params,
        (*old(rng), *final(rng)),
        final(slot).root,
        *final(arena),
        r,
    );
}

// ------------------------------------------------------------------------------- a cycle

/// The descents of a game so far, and the simulations that they completed.
proof fn lemma_so_far<V: Variant>(
    id: u16,
    cfg: Config,
    params: V::Params,
    states: Seq<(Slot<V::Stats, V::Prob>, Arena<V::Stats>, Rng, Diagnostics)>,
    ends: Seq<Descent>,
    k: nat,
)
    requires
        k <= ends.len(),
        states.len() == ends.len() + 1,
        forall|m: int|
            0 <= m < ends.len() ==> #[trigger] run_at::<V>(id, cfg, params, states, ends, m),
    ensures
        states[k as int].0.descents == states[0].0.descents + k,
        states[k as int].3.descents == (states[0].3.descents + k) % 0x1_0000_0000_0000_0000,
        k < ends.len() ==> states[k as int].0.sim_count == states[0].0.sim_count + k,
        0 < k < ends.len() ==> states[k as int].0.descents < cfg.max_descents
            && states[k as int].0.sim_count < cfg.s,
        k == ends.len() && k > 0 ==> states[k as int].0.sim_count == states[0].0.sim_count + k - (
        if ends[k - 1] is NoEntry {
            0int
        } else {
            1
        }),
    decreases k,
{
    if k > 0 {
        lemma_so_far::<V>(id, cfg, params, states, ends, (k - 1) as nat);
        assert(run_at::<V>(id, cfg, params, states, ends, k - 1));
        let steps = choose|steps: Seq<PathStep<V::Prob>>| #[trigger]
            descends_along::<V>(id, params, states[k - 1], states[k as int], ends[k - 1], steps);
        reveal(descended);
    }
}

/// A game's descents in one cycle, counted.
proof fn lemma_run_counted<V: Variant>(
    id: u16,
    cfg: Config,
    params: V::Params,
    before: (Slot<V::Stats, V::Prob>, Arena<V::Stats>, Rng, Diagnostics),
    after: (Slot<V::Stats, V::Prob>, Arena<V::Stats>, Rng, Diagnostics),
)
    requires
        runs::<V>(id, cfg, params, before, after),
        before.0.descents == 0,
        before.0.waiting_on is None,
    ensures
        after.0.descents > 0,
        after.0.descents == 1 || after.0.descents <= cfg.max_descents,
        after.3.descents == (before.3.descents + after.0.descents) % 0x1_0000_0000_0000_0000,
        after.0.waiting_on is Some ==> after.0.sim_count == before.0.sim_count + after.0.descents
            - 1,
        after.0.waiting_on is None ==> after.0.sim_count == before.0.sim_count + after.0.descents
            && (after.0.sim_count >= cfg.s || after.0.descents >= cfg.max_descents)
            || after.0.sim_count == before.0.sim_count + after.0.descents - 1,
{
    let (states, ends) = choose|
        states: Seq<(Slot<V::Stats, V::Prob>, Arena<V::Stats>, Rng, Diagnostics)>,
        ends: Seq<Descent>,
    | #[trigger]
        runs_by::<V>(id, cfg, params, before, after, states, ends);
    reveal(run_by);
    let n = ends.len();
    lemma_so_far::<V>(id, cfg, params, states, ends, n);
    lemma_so_far::<V>(id, cfg, params, states, ends, (n - 1) as nat);
    assert(run_at::<V>(id, cfg, params, states, ends, n - 1));
    let steps = choose|steps: Seq<PathStep<V::Prob>>| #[trigger]
        descends_along::<V>(id, params, states[n - 1], states[n as int], ends[n - 1], steps);
    reveal(descended);
}

/// In a cycle a game whose root is evaluated descends at least once and, beyond that, no more
/// than it may; every descent but one that waits, or finds no room, completes a simulation. It
/// stops only when it waits, has done its simulations or its descents, or finds no room. No
/// other game descends, and all descents are counted.
pub proof fn lemma_cycle_descends<V: Variant>(search: &mut Search<V>, n: usize, j: int)
    requires
        call_ensures(Search::<V>::prepare_evaluation, (search,), n),
        old(search).wf(),
        old(search).settled(),
        0 <= j < old(search).slots@.len(),
    ensures
        ({
            let was = old(search).slots@[j];
            let now = final(search).slots@[j];
            let cfg = old(search).cfg;
            let may = was.occupied && !was.game_over && was.waiting_on is None && was.sim_count
                < cfg.s && !was.root.pending;
            &&& !may ==> now.descents == 0 && now.sim_count == was.sim_count
            &&& may && n < cfg.b ==> now.descents > 0
            &&& now.descents <= 1 || now.descents <= cfg.max_descents
            &&& now.waiting_on is Some && was.waiting_on is None ==> now.sim_count
                == was.sim_count + now.descents - 1
            &&& now.waiting_on is None && now.descents > 0 ==> {
                ||| now.sim_count == was.sim_count + now.descents && (now.sim_count >= cfg.s
                    || now.descents >= cfg.max_descents)
                ||| now.sim_count == was.sim_count + now.descents - 1
            }
        }),
        final(search).diag.descents == (old(search).diag.descents + sum_to(
            |i: int| final(search).slots@[i].descents as int,
            old(search).slots@.len(),
        )) % 0x1_0000_0000_0000_0000,
{
    let s0 = *old(search);
    let s = *final(search);
    let end = choose|end: int| #[trigger] collected(s0, s, end);
    let stages = choose|stages: Seq<(Arena<V::Stats>, Rng, Diagnostics, Asked)>| #[trigger]
        toured(s0, s, end, stages);
    let f = |i: int| s.slots@[i].descents as int;
    reveal(toured_by);
    lemma_stages_counted::<V>(s0, s, stages, end, end as nat);
    lemma_rest_idle(f, end as nat, s0.slots@.len());
    assert(seated(s0.slots@[j], s0.cfg));
    if j < end {
        assert(toured_at::<V>(
            rested(s0.slots@),
            s0.cfg,
            s0.params,
            s.slots@,
            stages,
            j,
        ));
        let before = rested(s0.slots@)[j];
        if before.is_collectable(s0.cfg) && !before.root.pending {
            lemma_run_counted::<V>(
                j as u16,
                s0.cfg,
                s0.params,
                (before, stages[j].0, stages[j].1, walk_reached(stages[j].2, j)),
                (s.slots@[j], stages[j + 1].0, stages[j + 1].1, stages[j + 1].2),
            );
        }
    } else {
        assert(s.slots@[j] == (Slot { descents: 0, ..s0.slots@[j] }));
    }
    lemma_sum_eq(f, |i: int| final(search).slots@[i].descents as int, s0.slots@.len());
}

proof fn lemma_rest_idle(f: spec_fn(int) -> int, end: nat, n: nat)
    requires
        end <= n,
        forall|i: int| end <= i < n ==> #[trigger] f(i) == 0,
    ensures
        sum_to(f, n) == sum_to(f, end),
    decreases n,
{
    if end < n {
        lemma_rest_idle(f, end, (n - 1) as nat);
        assert(f(n - 1) == 0);
    }
}

proof fn lemma_stages_counted<V: Variant>(
    s0: Search<V>,
    s: Search<V>,
    stages: Seq<(Arena<V::Stats>, Rng, Diagnostics, Asked)>,
    end: int,
    k: nat,
)
    requires
        k <= end <= s0.slots@.len(),
        toured(s0, s, end, stages),
    ensures
        stages[k as int].2.descents == (s0.diag.descents + sum_to(
            |i: int| s.slots@[i].descents as int,
            k,
        )) % 0x1_0000_0000_0000_0000,
    decreases k,
{
    reveal(toured_by);
    if k > 0 {
        lemma_stages_counted::<V>(s0, s, stages, end, (k - 1) as nat);
        let j = k - 1;
        assert(toured_at::<V>(
            rested(s0.slots@),
            s0.cfg,
            s0.params,
            s.slots@,
            stages,
            j,
        ));
        let before = rested(s0.slots@)[j];
        if before.is_collectable(s0.cfg) && !before.root.pending {
            lemma_run_counted::<V>(
                j as u16,
                s0.cfg,
                s0.params,
                (before, stages[j].0, stages[j].1, walk_reached(stages[j].2, j)),
                (s.slots@[j], stages[j + 1].0, stages[j + 1].1, stages[j + 1].2),
            );
        }
    }
}

} // verus!
