//! Collecting the positions of one model call.
use vstd::prelude::*;

use std::collections::HashMap;

use crate::mcts::arena::{pending, touch_list, Arena, Node};
use crate::mcts::buffer::{Buffer, Target};
use crate::mcts::config::{Config, K};
use crate::mcts::descent::{
    arena_ok, clash, descend, descended, lemma_clash_kept, lemma_route, node_touched, root_ok,
    root_same_but_stats, route, Descent,
};
use crate::mcts::diagnostics::{descent_noted, Diagnostics};
use crate::mcts::slot::{PathStep, Slot};
use crate::mcts::stats::{simulates, stats_of};
use crate::mcts::sweep::{claimed, claims_below};
use crate::mcts::variant::Variant;
use crate::mcts::visits::comes_to;
use crate::reach::reachable;
use crate::rng::Rng;
use crate::scratch::Scratch;
use crate::sums::unit;

verus! {

/// A slot with a game in play that has not done more than its share of simulations.
pub open spec fn seated<S, P>(s: Slot<S, P>, cfg: Config) -> bool {
    &&& s.occupied
    &&& !s.game_over
    &&& root_ok(s.root)
    &&& !s.root.game.finished
    &&& s.sim_count <= cfg.s
}

/// A slot's path leads to the node it waits on, for which there is a row; a slot that waits on
/// nothing has no path.
pub open spec fn awaits<S, P>(s: Slot<S, P>, a: Arena<S>, targets: Seq<Target>, cfg: Config) -> bool {
    match s.waiting_on {
        None => s.path.steps@.len() == 0,
        Some(n) => {
            &&& a.is_live(n as int)
            &&& targets.contains(Target::Node(n))
            &&& route(s.root, a, s.path.steps@, a.nodes@[n as int].key)
            &&& s.sim_count < cfg.s
        },
    }
}

/// The nodes that await their evaluation are those with a row, one each, with their position.
pub open spec fn node_rows<S>(a: Arena<S>, b: Buffer) -> bool {
    &&& b.targets@.no_duplicates()
    &&& forall|i: int| #[trigger]
        a.is_live(i) && pending(a.nodes@[i].flags) ==> b.targets@.contains(Target::Node(i as u32))
    &&& forall|r: int|
        0 <= r < b.targets@.len() ==> node_row(a, b, #[trigger] b.targets@[r], r)
}

/// If row `r` is for a node, then for one that awaits its evaluation, with its position.
pub open spec fn node_row<S>(a: Arena<S>, b: Buffer, t: Target, r: int) -> bool {
    t matches Target::Node(n) ==> {
        &&& a.is_live(n as int)
        &&& pending(a.nodes@[n as int].flags)
        &&& b.row_is(r, a.nodes@[n as int].game)
    }
}

/// The nodes of `a` are still there, in the same positions; any other node is new.
pub open spec fn grown<S>(a: Arena<S>, b: Arena<S>) -> bool {
    &&& b.capacity == a.capacity
    &&& b.live >= a.live
    &&& forall|i: int| #[trigger]
        a.is_live(i) ==> b.is_live(i) && b.nodes@[i].same_position(&a.nodes@[i])
    &&& forall|i: int| #[trigger] b.is_live(i) && !a.is_live(i) ==> b.nodes@[i].sweep_age == 0
}

/// A slot's root and path are those of another but for statistics.
pub open spec fn slot_kept<S, P>(a: Slot<S, P>, b: Slot<S, P>) -> bool {
    &&& root_same_but_stats(a.root, b.root)
    &&& b.occupied == a.occupied
    &&& b.game_over == a.game_over
}

/// A game is through with a cycle: it waits on a node, has done its share of simulations or of
/// descents, or there is no room for a node. (Or keys clash, which ends a descent too.)
pub open spec fn through<S, P>(s: Slot<S, P>, a: Arena<S>, cfg: Config) -> bool {
    ||| s.waiting_on is Some
    ||| s.sim_count == cfg.s
    ||| s.descents >= cfg.max_descents
    ||| a.live == a.capacity
    ||| clash(s.root, a)
}

/// What is through stays through while the arena grows.
pub proof fn lemma_through<S, P>(s: Slot<S, P>, a: Arena<S>, b: Arena<S>, cfg: Config)
    requires
        through(s, a, cfg),
        grown(a, b),
        b.live <= b.capacity,
    ensures
        through(s, b, cfg),
{
    if clash(s.root, a) {
        lemma_clash_kept(s.root, a, s.root, b);
    }
}

/// What waits stays in wait while the arena grows and rows are added.
pub proof fn lemma_awaits<S, P>(
    s: Slot<S, P>,
    a: Arena<S>,
    b: Arena<S>,
    t: Seq<Target>,
    u: Seq<Target>,
    cfg: Config,
)
    requires
        awaits(s, a, t, cfg),
        grown(a, b),
        forall|n: u32| #[trigger]
            t.contains(Target::Node(n)) ==> u.contains(Target::Node(n)),
    ensures
        awaits(s, b, u, cfg),
{
    if let Some(n) = s.waiting_on {
        lemma_route(s.root, a, s.root, b, s.path.steps@, a.nodes@[n as int].key);
        assert(t.contains(Target::Node(n)));
    }
}

/// Recording a game on a node keeps its claims to games that there are.
proof fn lemma_touched_claims<S>(before: Node<S>, after: Node<S>, id: u16, g: int)
    requires
        node_touched(before, after, id),
        before.wf(),
        after.wf(),
        before.id_count > 0,
        claims_below(before, g),
        id < g,
    ensures
        after.id_count > 0,
        claims_below(after, g),
{
    if after.ids == before.ids && after.id_count == before.id_count {
        assert(after.listed() =~= before.listed());
    } else {
        let l = touch_list(before, id);
        assert forall|x: u16| #[trigger] after.listed().contains(x) implies x < g by {
            let j = l.index_of(x);
            assert(l[j] == x);
            if !before.listed().contains(id) {
                if before.id_count < K {
                    if j < before.listed().len() {
                        assert(before.listed()[j] == x);
                        assert(before.listed().contains(x));
                    }
                } else if j != before.id_cursor {
                    assert(before.listed()[j] == x);
                    assert(before.listed().contains(x));
                }
            }
        }
    }
}

/// Every claim in `a` was there in `a0`, or is of game `id` on a node that its root's board can
/// reach.
pub open spec fn claims_kept<S>(cells: Seq<i8>, a0: Arena<S>, a: Arena<S>, id: u16) -> bool {
    forall|i: int, x: u16|
        #![trigger a.is_live(i), a.nodes@[i].listed().contains(x)]
        a.is_live(i) && a.nodes@[i].listed().contains(x) ==> (a0.is_live(i)
            && a0.nodes@[i].listed().contains(x)) || (x == id && reachable(
            cells,
            a.nodes@[i].game.cells@,
        ))
}

/// Claims add up.
proof fn lemma_claims_on<S>(cells: Seq<i8>, a: Arena<S>, b: Arena<S>, c: Arena<S>, id: u16)
    requires
        claims_kept(cells, a, b, id),
        claims_kept(cells, b, c, id),
        grown(b, c),
    ensures
        claims_kept(cells, a, c, id),
{
    assert forall|i: int, x: u16|
        #![trigger c.is_live(i), c.nodes@[i].listed().contains(x)]
        c.is_live(i) && c.nodes@[i].listed().contains(x) implies (a.is_live(i)
        && a.nodes@[i].listed().contains(x)) || (x == id && reachable(
        cells,
        c.nodes@[i].game.cells@,
    )) by {
        if b.is_live(i) && b.nodes@[i].listed().contains(x) {
            assert(c.nodes@[i].same_position(&b.nodes@[i]));
        }
    }
}

/// The claims after a descent, unless keys clash.
proof fn lemma_descended_claims<S, P>(
    s0: Slot<S, P>,
    a0: Arena<S>,
    s: Slot<S, P>,
    a: Arena<S>,
    id: u16,
    r: Descent,
)
    requires
        arena_ok(a0),
        descended(s0, a0, s, a, id, r),
        !clash(s.root, a),
    ensures
        claims_kept(s0.root.game.cells@, a0, a, id),
{
    reveal(descended);
    if clash(s0.root, a0) {
        lemma_clash_kept(s0.root, a0, s.root, a);
    }
    assert forall|i: int, x: u16|
        #![trigger a.is_live(i), a.nodes@[i].listed().contains(x)]
        a.is_live(i) && a.nodes@[i].listed().contains(x) implies (a0.is_live(i)
        && a0.nodes@[i].listed().contains(x)) || (x == id && reachable(
        s0.root.game.cells@,
        a.nodes@[i].game.cells@,
    )) by {
        if a0.is_live(i) && x != id {
            assert(a0.nodes@[i].wf());
            lemma_touched_only(a0.nodes@[i], a.nodes@[i], id, x);
        } else if x != id {
            let j = a.nodes@[i].listed().index_of(x);
            assert(seq![id][j] == x);
        }
    }
}

/// Recording a game on a node lists no other game anew.
proof fn lemma_touched_only<S>(before: Node<S>, after: Node<S>, id: u16, x: u16)
    requires
        node_touched(before, after, id),
        before.wf(),
        after.listed().contains(x),
        x != id,
    ensures
        before.listed().contains(x),
{
    if after.ids == before.ids && after.id_count == before.id_count {
        assert(after.listed() =~= before.listed());
    } else {
        let l = touch_list(before, id);
        let j = l.index_of(x);
        assert(l[j] == x);
        if !before.listed().contains(id) {
            if before.id_count < K {
                assert(before.listed()[j] == x);
            } else if j != before.id_cursor {
                assert(before.listed()[j] == x);
            }
        }
    }
}

/// What a descent does to the arena and its claims.
proof fn lemma_descended<S, P>(
    s0: Slot<S, P>,
    a0: Arena<S>,
    s: Slot<S, P>,
    a: Arena<S>,
    id: u16,
    r: Descent,
    g: int,
)
    requires
        arena_ok(a0),
        claimed(a0, g),
        id < g,
        descended(s0, a0, s, a, id, r),
    ensures
        claimed(a, g),
        grown(a0, a),
        arena_ok(a),
        root_ok(s.root),
        slot_kept(s0, s),
        s.descents == s0.descents,
        s.sim_count == s0.sim_count + (if r is NoEntry {
            1int
        } else {
            0
        }),
        r matches Descent::Entry { node, .. } ==> {
            &&& s.waiting_on == Some(node)
            &&& a.is_live(node as int)
            &&& route(s.root, a, s.path.steps@, a.nodes@[node as int].key)
        },
        !(r is Entry) ==> s.waiting_on is None && s.path.steps@.len() == 0,
        r is Exhausted ==> a.live == a.capacity || clash(s.root, a),
{
    reveal(descended);
    if r is Exhausted && clash(s0.root, a0) {
        lemma_clash_kept(s0.root, a0, s.root, a);
    }
    assert forall|i: int| #[trigger] a.is_live(i) implies a.nodes@[i].id_count > 0 && claims_below(
        a.nodes@[i],
        g,
    ) by {
        assert(a.nodes@[i].wf());
        if a0.is_live(i) {
            assert(a0.nodes@[i].wf());
            lemma_touched_claims(a0.nodes@[i], a.nodes@[i], id, g);
        } else {
            assert(a.nodes@[i].listed() == seq![id]);
            assert(a.nodes@[i].listed().len() == 1);
            assert forall|x: u16| #[trigger] a.nodes@[i].listed().contains(x) implies x < g by {
                let j = a.nodes@[i].listed().index_of(x);
                assert(seq![id][j] == x);
            }
        }
    }
}

/// The rows after a descent that asks for no new one.
proof fn lemma_rows_kept<S, P>(
    s0: Slot<S, P>,
    a0: Arena<S>,
    s: Slot<S, P>,
    a: Arena<S>,
    b: Buffer,
    id: u16,
    r: Descent,
)
    requires
        node_rows(a0, b),
        descended(s0, a0, s, a, id, r),
        !(r matches Descent::Entry { fresh, .. } && fresh),
    ensures
        node_rows(a, b),
        r matches Descent::Entry { node, .. } ==> b.targets@.contains(Target::Node(node)),
{
    reveal(descended);
    assert forall|i: int| #[trigger] a.is_live(i) && pending(a.nodes@[i].flags) implies b.targets@.contains(
        Target::Node(i as u32),
    ) by {
        if !a0.is_live(i) {
            assert(a.live == a0.live + 1);
        }
    }
    assert forall|q: int| 0 <= q < b.targets@.len() implies node_row(
        a,
        b,
        #[trigger] b.targets@[q],
        q,
    ) by {
        assert(node_row(a0, b, b.targets@[q], q));
    }
}

/// The rows after a descent that asks for a new one.
proof fn lemma_rows_grown<S, P>(
    s0: Slot<S, P>,
    a0: Arena<S>,
    s: Slot<S, P>,
    a: Arena<S>,
    b: Buffer,
    c: Buffer,
    id: u16,
    node: u32,
)
    requires
        node_rows(a0, b),
        descended(s0, a0, s, a, id, (Descent::Entry { node, fresh: true })),
        c.targets@ == b.targets@.push(Target::Node(node)),
        c.row_is(b.targets@.len() as int, a.nodes@[node as int].game),
        forall|r: int|
            0 <= r < b.targets@.len() ==> #[trigger] c.positions@[r] == b.positions@[r]
                && c.scores@[r] == b.scores@[r],
    ensures
        node_rows(a, c),
        c.targets@.contains(Target::Node(node)),
        forall|t: Target| #[trigger] b.targets@.contains(t) ==> c.targets@.contains(t),
{
    reveal(descended);
    let m = b.targets@.len() as int;
    assert(c.targets@[m] == Target::Node(node));
    assert forall|t: Target| #[trigger] b.targets@.contains(t) implies c.targets@.contains(t) by {
        let q = b.targets@.index_of(t);
        assert(c.targets@[q] == t);
    }
    assert forall|i: int| #[trigger] a.is_live(i) && pending(a.nodes@[i].flags) implies c.targets@.contains(
        Target::Node(i as u32),
    ) by {
        if a0.is_live(i) {
            assert(b.targets@.contains(Target::Node(i as u32)));
        } else {
            assert(a.is_live(node as int));
            assert(i == node);
        }
    }
    assert forall|q: int| 0 <= q < c.targets@.len() implies node_row(
        a,
        c,
        #[trigger] c.targets@[q],
        q,
    ) by {
        if q < m {
            assert(c.targets@[q] == b.targets@[q]);
            assert(node_row(a0, b, b.targets@[q], q));
            assert(c.positions@[q] == b.positions@[q]);
        }
    }
    assert forall|x: int, y: int| 0 <= x < c.targets@.len() && 0 <= y < c.targets@.len() && x != y
        implies c.targets@[x] != c.targets@[y] by {
        if x < m {
            assert(node_row(a0, b, b.targets@[x], x));
        }
        if y < m {
            assert(node_row(a0, b, b.targets@[y], y));
        }
    }
}

/// The counters that a collection walk leaves alone.
pub open spec fn walk_keeps(d0: Diagnostics, d: Diagnostics) -> bool {
    &&& d.cycles == d0.cycles
    &&& d.steps == d0.steps
    &&& d.games_finished == d0.games_finished
    &&& d.nodes_deleted == d0.nodes_deleted
    &&& d.root_evals == d0.root_evals
}

/// One descent of game `id` along `steps`, counted. `before` and `after` are the game's slot,
/// the nodes, the generator and the counters.
pub open spec fn descends_along<V: Variant>(
    id: u16,
    params: V::Params,
    before: (Slot<V::Stats, V::Prob>, Arena<V::Stats>, Rng, Diagnostics),
    after: (Slot<V::Stats, V::Prob>, Arena<V::Stats>, Rng, Diagnostics),
    r: Descent,
    steps: Seq<PathStep<V::Prob>>,
) -> bool {
    let s = Slot { descents: before.0.descents, ..after.0 };
    &&& descended(before.0, before.1, s, after.1, id, r)
    &&& simulates::<V>(
        before.0.root,
        before.1,
        steps,
        params,
        (before.2, after.2),
        stats_of(after.0.root, after.1),
        r,
    )
    &&& comes_to(before.0.root, before.1, after.1, id, steps, r)
    &&& steps.len() == after.0.last_depth
    &&& r is Entry ==> steps == after.0.path.steps@
    &&& after.0.descents == before.0.descents + 1
    &&& descent_noted(before.3, after.3, after.0.last_depth, r)
}

/// One descent of game `id`, counted.
pub open spec fn descends<V: Variant>(
    id: u16,
    params: V::Params,
    before: (Slot<V::Stats, V::Prob>, Arena<V::Stats>, Rng, Diagnostics),
    after: (Slot<V::Stats, V::Prob>, Arena<V::Stats>, Rng, Diagnostics),
    r: Descent,
) -> bool {
    exists|steps: Seq<PathStep<V::Prob>>| #[trigger]
        descends_along::<V>(id, params, before, after, r, steps)
}

/// Does a game descend again after a descent that ended as `r`? Only after a terminal, and
/// only while it has simulations and descents left.
pub open spec fn goes_again<S, P>(slot: Slot<S, P>, cfg: Config, r: Descent) -> bool {
    r is NoEntry && slot.sim_count < cfg.s && slot.descents < cfg.max_descents
}

/// Descent `k` of a game leads from `states[k]` to `states[k + 1]`, ends as `ends[k]`, and is
/// followed by another exactly if the game goes again.
pub open spec fn run_at<V: Variant>(
    id: u16,
    cfg: Config,
    params: V::Params,
    states: Seq<(Slot<V::Stats, V::Prob>, Arena<V::Stats>, Rng, Diagnostics)>,
    ends: Seq<Descent>,
    k: int,
) -> bool {
    &&& descends::<V>(id, params, states[k], states[k + 1], ends[k])
    &&& k < ends.len() - 1 ==> goes_again(states[k + 1].0, cfg, ends[k])
}

/// The descents of a game so far, one after the other.
#[verifier::opaque]
pub open spec fn run_by<V: Variant>(
    id: u16,
    cfg: Config,
    params: V::Params,
    before: (Slot<V::Stats, V::Prob>, Arena<V::Stats>, Rng, Diagnostics),
    after: (Slot<V::Stats, V::Prob>, Arena<V::Stats>, Rng, Diagnostics),
    states: Seq<(Slot<V::Stats, V::Prob>, Arena<V::Stats>, Rng, Diagnostics)>,
    ends: Seq<Descent>,
) -> bool {
    &&& states.len() == ends.len() + 1
    &&& states[0] == before
    &&& states.last() == after
    &&& forall|k: int|
        0 <= k < ends.len() ==> #[trigger] run_at::<V>(id, cfg, params, states, ends, k)
}

/// The counters after a game's last descent: one more game stopped for want of descents, where
/// that is what stopped it.
pub open spec fn stop_noted<S, P>(
    d: Diagnostics,
    slot: Slot<S, P>,
    cfg: Config,
    r: Descent,
) -> Diagnostics {
    if r is NoEntry && slot.sim_count < cfg.s {
        Diagnostics { max_descents_hit: d.max_descents_hit.wrapping_add(1), ..d }
    } else {
        d
    }
}

/// All the descents of a game, by way of the states between them.
pub open spec fn runs_by<V: Variant>(
    id: u16,
    cfg: Config,
    params: V::Params,
    before: (Slot<V::Stats, V::Prob>, Arena<V::Stats>, Rng, Diagnostics),
    after: (Slot<V::Stats, V::Prob>, Arena<V::Stats>, Rng, Diagnostics),
    states: Seq<(Slot<V::Stats, V::Prob>, Arena<V::Stats>, Rng, Diagnostics)>,
    ends: Seq<Descent>,
) -> bool {
    let d = states.last().3;
    &&& run_by::<V>(id, cfg, params, before, (after.0, after.1, after.2, d), states, ends)
    &&& ends.len() > 0
    &&& !goes_again(after.0, cfg, ends.last())
    &&& after.3 == stop_noted(d, after.0, cfg, ends.last())
}

/// All the descents of a game: one after the other, until it does not go again.
pub open spec fn runs<V: Variant>(
    id: u16,
    cfg: Config,
    params: V::Params,
    before: (Slot<V::Stats, V::Prob>, Arena<V::Stats>, Rng, Diagnostics),
    after: (Slot<V::Stats, V::Prob>, Arena<V::Stats>, Rng, Diagnostics),
) -> bool {
    exists|
        states: Seq<(Slot<V::Stats, V::Prob>, Arena<V::Stats>, Rng, Diagnostics)>,
        ends: Seq<Descent>,
    | #[trigger]
        runs_by::<V>(id, cfg, params, before, after, states, ends)
}

/// Before the last of a game's descents, none was exhausted.
proof fn lemma_none_exhausted<V: Variant>(
    id: u16,
    cfg: Config,
    params: V::Params,
    before: (Slot<V::Stats, V::Prob>, Arena<V::Stats>, Rng, Diagnostics),
    after: (Slot<V::Stats, V::Prob>, Arena<V::Stats>, Rng, Diagnostics),
    states: Seq<(Slot<V::Stats, V::Prob>, Arena<V::Stats>, Rng, Diagnostics)>,
    ends: Seq<Descent>,
    k: int,
)
    requires
        run_by::<V>(id, cfg, params, before, after, states, ends),
        0 <= k < ends.len(),
    ensures
        states[k].3.exhausted == before.3.exhausted,
    decreases k,
{
    reveal(run_by);
    if k > 0 {
        lemma_none_exhausted::<V>(id, cfg, params, before, after, states, ends, k - 1);
        assert(run_at::<V>(id, cfg, params, states, ends, k - 1));
    }
}

/// A game whose descents end for want of node slots adds one to the count of exhausted
/// descents, and nothing else does.
pub proof fn lemma_exhausted_counted<V: Variant>(
    id: u16,
    cfg: Config,
    params: V::Params,
    before: (Slot<V::Stats, V::Prob>, Arena<V::Stats>, Rng, Diagnostics),
    after: (Slot<V::Stats, V::Prob>, Arena<V::Stats>, Rng, Diagnostics),
    states: Seq<(Slot<V::Stats, V::Prob>, Arena<V::Stats>, Rng, Diagnostics)>,
    ends: Seq<Descent>,
)
    requires
        runs_by::<V>(id, cfg, params, before, after, states, ends),
    ensures
        after.3.exhausted == (if ends.last() is Exhausted {
            before.3.exhausted.wrapping_add(1)
        } else {
            before.3.exhausted
        }),
{
    let d = states.last().3;
    let end = (after.0, after.1, after.2, d);
    let k = ends.len() - 1;
    lemma_none_exhausted::<V>(id, cfg, params, before, end, states, ends, k);
    reveal(run_by);
    assert(run_at::<V>(id, cfg, params, states, ends, k));
}

/// No descent yet.
proof fn lemma_run_none<V: Variant>(
    id: u16,
    cfg: Config,
    params: V::Params,
    at: (Slot<V::Stats, V::Prob>, Arena<V::Stats>, Rng, Diagnostics),
)
    ensures
        run_by::<V>(id, cfg, params, at, at, seq![at], Seq::<Descent>::empty()),
{
    reveal(run_by);
}

/// One more descent.
proof fn lemma_run_on<V: Variant>(
    id: u16,
    cfg: Config,
    params: V::Params,
    before: (Slot<V::Stats, V::Prob>, Arena<V::Stats>, Rng, Diagnostics),
    mid: (Slot<V::Stats, V::Prob>, Arena<V::Stats>, Rng, Diagnostics),
    after: (Slot<V::Stats, V::Prob>, Arena<V::Stats>, Rng, Diagnostics),
    states: Seq<(Slot<V::Stats, V::Prob>, Arena<V::Stats>, Rng, Diagnostics)>,
    ends: Seq<Descent>,
    r: Descent,
)
    requires
        run_by::<V>(id, cfg, params, before, mid, states, ends),
        ends.len() > 0 ==> goes_again(mid.0, cfg, ends.last()),
        descends::<V>(id, params, mid, after, r),
    ensures
        run_by::<V>(id, cfg, params, before, after, states.push(after), ends.push(r)),
{
    reveal(run_by);
    let more = states.push(after);
    let all = ends.push(r);
    assert forall|k: int| 0 <= k < all.len() implies #[trigger] run_at::<V>(
        id,
        cfg,
        params,
        more,
        all,
        k,
    ) by {
        if k < ends.len() {
            assert(run_at::<V>(id, cfg, params, states, ends, k));
        }
    }
}

/// One descent of a game, with a row for the node if it is new.
fn descend_once<V: Variant>(
    id: u16,
    slot: &mut Slot<V::Stats, V::Prob>,
    arena: &mut Arena<V::Stats>,
    buffer: &mut Buffer,
    diag: &mut Diagnostics,
    params: &V::Params,
    rng: &mut Rng,
    scratch: &mut Scratch,
    Ghost(g): Ghost<int>,
) -> (r: Descent)
    requires
        id < g,
        old(slot).occupied,
        !old(slot).game_over,
        old(slot).waiting_on is None,
        old(slot).path.steps@.len() == 0,
        root_ok(old(slot).root),
        old(slot).sim_count < u32::MAX,
        old(slot).descents < u32::MAX,
        arena_ok(*old(arena)),
        claimed(*old(arena), g),
        old(buffer).wf(),
        old(buffer).targets@.len() < old(buffer).positions@.len(),
        node_rows(*old(arena), *old(buffer)),
        old(diag).wf(),
        old(scratch).wf(),
    ensures
        root_ok(final(slot).root),
        slot_kept(*old(slot), *final(slot)),
        final(slot).descents == old(slot).descents,
        final(slot).sim_count == old(slot).sim_count + (if r is NoEntry {
            1int
        } else {
            0
        }),
        match r {
            Descent::Entry { node, fresh } => {
                &&& final(slot).waiting_on == Some(node)
                &&& final(arena).is_live(node as int)
                &&& final(buffer).targets@.contains(Target::Node(node))
                &&& route(
                    final(slot).root,
                    *final(arena),
                    final(slot).path.steps@,
                    final(arena).nodes@[node as int].key,
                )
                &&& fresh ==> final(buffer).targets@ == old(buffer).targets@.push(
                    Target::Node(node),
                )
            },
            _ => final(slot).waiting_on is None && final(slot).path.steps@.len() == 0,
        },
        arena_ok(*final(arena)),
        claimed(*final(arena), g),
        grown(*old(arena), *final(arena)),
        final(buffer).wf(),
        final(buffer).positions@.len() == old(buffer).positions@.len(),
        final(buffer).groups == old(buffer).groups,
        node_rows(*final(arena), *final(buffer)),
        !(r matches Descent::Entry { fresh, .. } && fresh) ==> *final(buffer) == *old(buffer),
        forall|q: int|
            0 <= q < old(buffer).targets@.len() ==> #[trigger] final(buffer).positions@[q] == old(
                buffer,
            ).positions@[q] && final(buffer).scores@[q] == old(buffer).scores@[q],
        final(diag).wf(),
        walk_keeps(*old(diag), *final(diag)),
        r is Exhausted ==> final(arena).live == final(arena).capacity || clash(
            final(slot).root,
            *final(arena),
        ),
        !clash(final(slot).root, *final(arena)) ==> claims_kept(
            old(slot).root.game.cells@,
            *old(arena),
            *final(arena),
            id,
        ),
        descends::<V>(
            id,
            *params,
            (*old(slot), *old(arena), *old(rng), *old(diag)),
            (
                (Slot { descents: (old(slot).descents + 1) as u32, ..*final(slot) }),
                *final(arena),
                *final(rng),
                *final(diag),
            ),
            r,
        ),
        final(scratch).wf(),
{
    let ghost s0 = *slot;
    let ghost a0 = *arena;
    let ghost b0 = *buffer;
    let ghost r0 = *rng;
    let ghost d0 = *diag;
    let r = descend::<V>(id, slot, arena, params, rng, scratch);
    diag.note_descent(slot.last_depth, r);
    proof {
        let steps = choose|steps: Seq<PathStep<V::Prob>>| #[trigger]
            simulates::<V>(
                s0.root,
                a0,
                steps,
                *params,
                (r0, *rng),
                stats_of(slot.root, *arena),
                r,
            ) && steps.len() == slot.last_depth && (r is Entry ==> steps == slot.path.steps@)
                && comes_to(s0.root, a0, *arena, id, steps, r);
        let counted = Slot { descents: (s0.descents + 1) as u32, ..*slot };
        assert(slot.descents == s0.descents) by {
            reveal(descended);
        }
        assert((Slot { descents: s0.descents, ..counted }) == *slot);
        assert(descends_along::<V>(
            id,
            *params,
            (s0, a0, r0, d0),
            (counted, *arena, *rng, *diag),
            r,
            steps,
        ));
        lemma_descended(s0, a0, *slot, *arena, id, r, g);
        if !clash(slot.root, *arena) {
            lemma_descended_claims(s0, a0, *slot, *arena, id, r);
        }
    }
    match r {
        Descent::Entry { node, fresh } => {
            if fresh {
                buffer.push(&arena.node(node).game, Target::Node(node));
                proof {
                    lemma_rows_grown(s0, a0, *slot, *arena, b0, *buffer, id, node);
                }
            } else {
                proof {
                    lemma_rows_kept(s0, a0, *slot, *arena, b0, id, r);
                }
            }
        },
        _ => {
            proof {
                lemma_rows_kept(s0, a0, *slot, *arena, b0, id, r);
            }
        },
    }
    r
}

/// Descend one game until it waits on a node, runs out of simulations or descents, or there is
/// no room for a node.
pub(crate) fn run_slot<V: Variant>(
    id: u16,
    slot: &mut Slot<V::Stats, V::Prob>,
    arena: &mut Arena<V::Stats>,
    buffer: &mut Buffer,
    diag: &mut Diagnostics,
    cfg: &Config,
    params: &V::Params,
    rng: &mut Rng,
    scratch: &mut Scratch,
    Ghost(g): Ghost<int>,
)
    requires
        id < g,
        seated(*old(slot), *cfg),
        old(slot).is_collectable(*cfg),
        old(slot).path.steps@.len() == 0,
        old(slot).descents == 0,
        arena_ok(*old(arena)),
        claimed(*old(arena), g),
        old(buffer).wf(),
        old(buffer).targets@.len() < old(buffer).positions@.len(),
        node_rows(*old(arena), *old(buffer)),
        old(diag).wf(),
        old(scratch).wf(),
    ensures
        seated(*final(slot), *cfg),
        slot_kept(*old(slot), *final(slot)),
        awaits(*final(slot), *final(arena), final(buffer).targets@, *cfg),
        final(slot).sim_count >= old(slot).sim_count,
        arena_ok(*final(arena)),
        claimed(*final(arena), g),
        grown(*old(arena), *final(arena)),
        final(buffer).wf(),
        final(buffer).positions@.len() == old(buffer).positions@.len(),
        final(buffer).groups == old(buffer).groups,
        node_rows(*final(arena), *final(buffer)),
        final(buffer).targets@ == old(buffer).targets@ || (final(slot).waiting_on matches Some(n)
            && final(buffer).targets@ == old(buffer).targets@.push(Target::Node(n))),
        forall|r: int|
            0 <= r < old(buffer).targets@.len() ==> #[trigger] final(buffer).positions@[r] == old(
                buffer,
            ).positions@[r] && final(buffer).scores@[r] == old(buffer).scores@[r],
        through(*final(slot), *final(arena), *cfg),
        runs::<V>(
            id,
            *cfg,
            *params,
            (*old(slot), *old(arena), *old(rng), *old(diag)),
            (*final(slot), *final(arena), *final(rng), *final(diag)),
        ),
        !clash(final(slot).root, *final(arena)) ==> claims_kept(
            old(slot).root.game.cells@,
            *old(arena),
            *final(arena),
            id,
        ),
        final(diag).wf(),
        walk_keeps(*old(diag), *final(diag)),
        final(scratch).wf(),
{
    let ghost s0 = *slot;
    let ghost a0 = *arena;
    let ghost b0 = *buffer;
    let ghost d0 = *diag;
    let ghost begin = (s0, a0, *rng, d0);
    let ghost mut states: Seq<(Slot<V::Stats, V::Prob>, Arena<V::Stats>, Rng, Diagnostics)> = seq![begin];
    let ghost mut ends: Seq<Descent> = Seq::empty();
    proof {
        lemma_run_none::<V>(id, *cfg, *params, begin);
    }
    let mut again: bool = true;
    while again
        invariant
            begin == (*old(slot), *old(arena), *old(rng), *old(diag)),
            again ==> run_by::<V>(
                id,
                *cfg,
                *params,
                begin,
                (*slot, *arena, *rng, *diag),
                states,
                ends,
            ),
            again ==> (ends.len() > 0 ==> goes_again(*slot, *cfg, ends.last())),
            !again ==> runs::<V>(id, *cfg, *params, begin, (*slot, *arena, *rng, *diag)),
            s0 == *old(slot),
            a0 == *old(arena),
            b0 == *old(buffer),
            d0 == *old(diag),
            id < g,
            again ==> {
                &&& slot.is_collectable(*cfg)
                &&& slot.path.steps@.len() == 0
                &&& slot.descents == slot.sim_count - s0.sim_count
                &&& *buffer == b0
            },
            seated(*slot, *cfg),
            slot_kept(s0, *slot),
            slot.sim_count >= s0.sim_count,
            arena_ok(*arena),
            claimed(*arena, g),
            grown(a0, *arena),
            !clash(slot.root, *arena) ==> claims_kept(s0.root.game.cells@, a0, *arena, id),
            b0.wf(),
            b0.targets@.len() < b0.positions@.len(),
            node_rows(*arena, *buffer),
            diag.wf(),
            walk_keeps(d0, *diag),
            scratch.wf(),
            buffer.wf(),
            buffer.positions@.len() == b0.positions@.len(),
            buffer.groups == b0.groups,
            buffer.targets@ == b0.targets@ || (slot.waiting_on matches Some(n) && buffer.targets@
                == b0.targets@.push(Target::Node(n))),
            forall|r: int|
                0 <= r < b0.targets@.len() ==> #[trigger] buffer.positions@[r] == b0.positions@[r]
                    && buffer.scores@[r] == b0.scores@[r],
            !again ==> {
                &&& awaits(*slot, *arena, buffer.targets@, *cfg)
                &&& through(*slot, *arena, *cfg)
            },
        decreases cfg.s - slot.sim_count, unit(again),
    {
        let ghost a1 = *arena;
        let ghost s1 = *slot;
        let ghost here = (s1, a1, *rng, *diag);
        let r = descend_once::<V>(
            id,
            slot,
            arena,
            buffer,
            diag,
            params,
            rng,
            scratch,
            Ghost(g),
        );
        proof {
            lemma_grown_on(a0, a1, *arena);
            if !clash(slot.root, *arena) {
                if clash(s1.root, a1) {
                    lemma_clash_kept(s1.root, a1, slot.root, *arena);
                }
                lemma_claims_on(s0.root.game.cells@, a0, a1, *arena, id);
            }
        }
        slot.descents = slot.descents + 1;
        proof {
            let next = (*slot, *arena, *rng, *diag);
            lemma_run_on::<V>(id, *cfg, *params, begin, here, next, states, ends, r);
            states = states.push(next);
            ends = ends.push(r);
        }
        match r {
            Descent::Entry { .. } | Descent::Exhausted => {
                again = false;
            },
            Descent::NoEntry => {
                if slot.sim_count >= cfg.s {
                    again = false;
                } else if slot.descents >= cfg.max_descents {
                    diag.max_descents_hit = diag.max_descents_hit.wrapping_add(1);
                    again = false;
                }
            },
        }
        proof {
            if !again {
                reveal(run_by);
                assert(runs_by::<V>(
                    id,
                    *cfg,
                    *params,
                    begin,
                    (*slot, *arena, *rng, *diag),
                    states,
                    ends,
                ));
            }
        }
    }
}

/// Growth adds up.
pub proof fn lemma_grown_on<S>(a: Arena<S>, b: Arena<S>, c: Arena<S>)
    requires
        grown(a, b),
        grown(b, c),
    ensures
        grown(a, c),
{
    assert forall|i: int| #[trigger] a.is_live(i) implies c.is_live(i)
        && c.nodes@[i].same_position(&a.nodes@[i]) by {
        assert(b.is_live(i));
    }
    assert forall|i: int| #[trigger] c.is_live(i) && !a.is_live(i) implies c.nodes@[i].sweep_age
        == 0 by {
        if b.is_live(i) {
            assert(b.nodes@[i].sweep_age == 0);
        }
    }
}

// ---------------------------------------------------------------------------------- roots

/// Games that wait on one root state, in slot order.
pub open spec fn group_ok<S, P>(slots: Seq<Slot<S, P>>, members: Seq<u16>) -> bool {
    &&& members.len() > 0
    &&& forall|m: int|
        0 <= m < members.len() ==> {
            let id = (#[trigger] members[m]) as int;
            &&& id < slots.len()
            &&& slots[id].root.pending
            &&& slots[id].root.key == slots[members[0] as int].root.key
        }
    &&& forall|x: int, y: int| 0 <= x < y < members.len() ==> members[x] < members[y]
}

/// The key of the root state that group `k` waits on.
pub open spec fn group_key<S, P>(slots: Seq<Slot<S, P>>, groups: Seq<Vec<u16>>, k: int) -> u64 {
    slots[groups[k]@[0] as int].root.key
}

/// Whom the rows of a buffer are for, in order, and the games that wait on each root state.
#[verifier::ext_equal]
pub struct Asked {
    pub targets: Seq<Target>,
    pub groups: Seq<Seq<u16>>,
}

/// What is asked for in a buffer.
pub open spec fn asked(b: Buffer) -> Asked {
    Asked { targets: b.targets@, groups: Seq::new(b.groups@.len(), |k: int| b.groups@[k]@) }
}

/// Nothing is asked for.
pub open spec fn nothing_asked() -> Asked {
    Asked { targets: Seq::empty(), groups: Seq::empty() }
}

/// The rows with one for the node that a game waits on, unless there is one.
pub open spec fn row_added(targets: Seq<Target>, waiting_on: Option<u32>) -> Seq<Target> {
    match waiting_on {
        Some(n) => if targets.contains(Target::Node(n)) {
            targets
        } else {
            targets.push(Target::Node(n))
        },
        None => targets,
    }
}

/// Game `j` joins group `k`, which waits on its root state.
pub open spec fn joins_group<S, P>(
    slots: Seq<Slot<S, P>>,
    before: Asked,
    after: Asked,
    j: int,
    k: int,
) -> bool {
    &&& 0 <= k < before.groups.len()
    &&& slots[before.groups[k][0] as int].root.key == slots[j].root.key
    &&& after == (Asked {
        targets: before.targets,
        groups: before.groups.update(k, before.groups[k].push(j as u16)),
    })
}

/// Game `j` asks for the evaluation of its root state: it joins the group that waits on that
/// state, or else opens one, with a row.
pub open spec fn joins<S, P>(
    slots: Seq<Slot<S, P>>,
    before: Asked,
    after: Asked,
    j: int,
) -> bool {
    if forall|k: int|
        0 <= k < before.groups.len() ==> slots[(
        #[trigger] before.groups[k])[0] as int].root.key != slots[j].root.key {
        after == (Asked {
            targets: before.targets.push(Target::Root(before.groups.len() as usize)),
            groups: before.groups.push(seq![j as u16]),
        })
    } else {
        exists|k: int| #[trigger] joins_group(slots, before, after, j, k)
    }
}

/// What the visit of game `j` asks for. `after` is its slot after the visit.
pub open spec fn asks<S, P: Copy>(
    slots: Seq<Slot<S, P>>,
    cfg: Config,
    after: Slot<S, P>,
    q0: Asked,
    q1: Asked,
    j: int,
) -> bool {
    if !slots[j].is_collectable(cfg) {
        q1 == q0
    } else if slots[j].root.pending {
        joins(slots, q0, q1, j)
    } else {
        q1 == (Asked { targets: row_added(q0.targets, after.waiting_on), ..q0 })
    }
}

/// What a visit asks for is a matter of the keys of roots.
pub(crate) proof fn lemma_asks_same<S, P: Copy>(
    s: Seq<Slot<S, P>>,
    t: Seq<Slot<S, P>>,
    cfg: Config,
    after: Slot<S, P>,
    q0: Asked,
    q1: Asked,
    j: int,
)
    requires
        0 <= j < s.len(),
        t.len() == s.len(),
        t[j] == s[j],
        forall|m: int| 0 <= m < s.len() ==> (#[trigger] t[m]).root.key == s[m].root.key,
        forall|k: int| 0 <= k < q0.groups.len() ==> (#[trigger] q0.groups[k])[0] < s.len(),
        asks(s, cfg, after, q0, q1, j),
    ensures
        asks(t, cfg, after, q0, q1, j),
{
    assert forall|k: int| 0 <= k < q0.groups.len() implies t[(
    #[trigger] q0.groups[k])[0] as int].root.key == s[q0.groups[k][0] as int].root.key by {
        assert(q0.groups[k][0] < s.len());
    }
    if s[j].is_collectable(cfg) && s[j].root.pending {
        if exists|k: int| #[trigger] joins_group(s, q0, q1, j, k) {
            let k = choose|k: int| #[trigger] joins_group(s, q0, q1, j, k);
            assert(joins_group(t, q0, q1, j, k));
        }
    }
}

/// Does game `j` wait on a root state?
pub open spec fn in_group(groups: Seq<Vec<u16>>, j: int) -> bool {
    exists|k: int| 0 <= k < groups.len() && (#[trigger] groups[k])@.contains(j as u16)
}

/// The games that wait on root states: one group for each state, one row for each group, with
/// the state's position.
pub open spec fn root_rows<S, P>(slots: Seq<Slot<S, P>>, b: Buffer) -> bool {
    &&& forall|k: int| 0 <= k < b.groups@.len() ==> group_ok(slots, (#[trigger] b.groups@[k])@)
    &&& forall|j: int, k: int|
        0 <= j < b.groups@.len() && 0 <= k < b.groups@.len() && j != k ==> #[trigger] group_key(
            slots,
            b.groups@,
            j,
        ) != #[trigger] group_key(slots, b.groups@, k)
    &&& forall|k: usize|
        k < b.groups@.len() ==> #[trigger] b.targets@.contains(Target::Root(k))
    &&& forall|r: int|
        0 <= r < b.targets@.len() ==> root_row(slots, b, #[trigger] b.targets@[r], r)
}

/// If row `r` is for a group, then with the position its games wait on.
pub open spec fn root_row<S, P>(slots: Seq<Slot<S, P>>, b: Buffer, t: Target, r: int) -> bool {
    t matches Target::Root(k) ==> {
        &&& k < b.groups@.len()
        &&& b.row_is(r, slots[b.groups@[k as int]@[0] as int].root.game)
    }
}

/// The groups, by the keys of their root states.
pub open spec fn keyed<S, P>(
    slots: Seq<Slot<S, P>>,
    groups: Seq<Vec<u16>>,
    roots: Map<u64, usize>,
) -> bool {
    &&& forall|key: u64| #[trigger]
        roots.contains_key(key) ==> roots[key] < groups.len() && group_key(
            slots,
            groups,
            roots[key] as int,
        ) == key
    &&& forall|k: int|
        0 <= k < groups.len() ==> roots.contains_key(#[trigger] group_key(slots, groups, k))
            && roots[group_key(slots, groups, k)] == k
}

/// Groups are a matter of roots alone, not of their statistics.
pub proof fn lemma_root_rows<S, P>(s: Seq<Slot<S, P>>, t: Seq<Slot<S, P>>, b: Buffer, c: Buffer)
    requires
        root_rows(s, b),
        t.len() == s.len(),
        forall|i: int| 0 <= i < s.len() ==> slot_kept(#[trigger] s[i], t[i]),
        c.groups == b.groups,
        c.targets@ == b.targets@ || exists|n: u32|
            c.targets@ == #[trigger] b.targets@.push(Target::Node(n)),
        forall|r: int|
            0 <= r < b.targets@.len() ==> #[trigger] c.positions@[r] == b.positions@[r]
                && c.scores@[r] == b.scores@[r],
    ensures
        root_rows(t, c),
        forall|k: int|
            0 <= k < b.groups@.len() ==> #[trigger] group_key(t, c.groups@, k) == group_key(
                s,
                b.groups@,
                k,
            ),
{
    assert forall|k: int| 0 <= k < b.groups@.len() implies #[trigger] group_key(t, c.groups@, k)
        == group_key(s, b.groups@, k) by {
        assert(group_ok(s, b.groups@[k]@));
        let first = b.groups@[k]@[0] as int;
        assert(slot_kept(s[first], t[first]));
    }
    assert forall|k: int| 0 <= k < c.groups@.len() implies group_ok(
        t,
        (#[trigger] c.groups@[k])@,
    ) by {
        let members = b.groups@[k]@;
        assert(group_ok(s, members));
        assert(slot_kept(s[members[0] as int], t[members[0] as int]));
        assert forall|m: int| 0 <= m < members.len() implies {
            let id = (#[trigger] members[m]) as int;
            &&& id < t.len()
            &&& t[id].root.pending
            &&& t[id].root.key == t[members[0] as int].root.key
        } by {
            assert(slot_kept(s[members[m] as int], t[members[m] as int]));
        }
    }
    assert forall|j: int, k: int|
        0 <= j < c.groups@.len() && 0 <= k < c.groups@.len() && j != k implies #[trigger] group_key(
        t,
        c.groups@,
        j,
    ) != #[trigger] group_key(t, c.groups@, k) by {
        assert(group_key(s, b.groups@, j) != group_key(s, b.groups@, k));
    }
    assert forall|k: usize| k < c.groups@.len() implies #[trigger] c.targets@.contains(
        Target::Root(k),
    ) by {
        assert(b.targets@.contains(Target::Root(k)));
        let r = b.targets@.index_of(Target::Root(k));
        assert(c.targets@[r] == Target::Root(k));
    }
    assert forall|r: int| 0 <= r < c.targets@.len() implies root_row(
        t,
        c,
        #[trigger] c.targets@[r],
        r,
    ) by {
        if r < b.targets@.len() {
            assert(c.targets@[r] == b.targets@[r]);
            assert(root_row(s, b, b.targets@[r], r));
            if let Target::Root(k) = b.targets@[r] {
                assert(group_ok(s, b.groups@[k as int]@));
                let first = b.groups@[k as int]@[0] as int;
                assert(slot_kept(s[first], t[first]));
                assert(c.positions@[r] == b.positions@[r]);
            }
        }
    }
}

/// Put a game whose root is not evaluated in the group that waits on its root state, with a
/// new row if it is the first.
pub(crate) fn ask_root<S, P: Copy>(
    id: u16,
    slots: &Vec<Slot<S, P>>,
    arena: &Arena<S>,
    buffer: &mut Buffer,
    roots: &mut HashMap<u64, usize>,
    diag: &mut Diagnostics,
)
    requires
        id < slots@.len(),
        slots@[id as int].root.pending,
        old(buffer).wf(),
        old(buffer).targets@.len() < old(buffer).positions@.len(),
        node_rows(*arena, *old(buffer)),
        root_rows(slots@, *old(buffer)),
        keyed(slots@, old(buffer).groups@, old(roots)@),
        forall|k: int, m: int|
            #![trigger old(buffer).groups@[k]@[m]]
            0 <= k < old(buffer).groups@.len() && 0 <= m < old(buffer).groups@[k]@.len()
                ==> old(buffer).groups@[k]@[m] < id,
        old(buffer).groups@.len() <= old(buffer).targets@.len(),
        old(diag).wf(),
    ensures
        final(buffer).wf(),
        final(buffer).positions@.len() == old(buffer).positions@.len(),
        node_rows(*arena, *final(buffer)),
        root_rows(slots@, *final(buffer)),
        keyed(slots@, final(buffer).groups@, final(roots)@),
        in_group(final(buffer).groups@, id as int),
        forall|j: int| #[trigger]
            in_group(old(buffer).groups@, j) ==> in_group(final(buffer).groups@, j),
        forall|k: int, m: int|
            #![trigger final(buffer).groups@[k]@[m]]
            0 <= k < final(buffer).groups@.len() && 0 <= m < final(buffer).groups@[k]@.len()
                ==> final(buffer).groups@[k]@[m] <= id,
        forall|t: Target| #[trigger]
            old(buffer).targets@.contains(t) ==> final(buffer).targets@.contains(t),
        final(buffer).groups@.len() <= final(buffer).targets@.len(),
        final(diag).wf(),
        final(diag).root_evals == old(diag).root_evals.wrapping_add(
            (final(buffer).groups@.len() - old(buffer).groups@.len()) as u64,
        ),
        final(buffer).groups@.len() == old(buffer).groups@.len() || final(buffer).groups@.len()
            == old(buffer).groups@.len() + 1,
        *final(diag) == (Diagnostics { root_evals: final(diag).root_evals, ..*old(diag) }),
        joins(slots@, asked(*old(buffer)), asked(*final(buffer)), id as int),
{
    broadcast use vstd::std_specs::hash::group_hash_axioms;

    let key: u64 = slots[id as usize].root.key;
    let ghost b0 = *buffer;
    let ghost r0 = roots@;
    let known: Option<usize> = match roots.get(&key) {
        Some(k) => Some(*k),
        None => None,
    };
    match known {
        Some(k) => {
            assert(r0.contains_key(key));
            buffer.groups[k].push(id);
            proof {
                let g0 = b0.groups@[k as int]@;
                let g1 = buffer.groups@[k as int]@;
                assert(g1 == g0.push(id));
                assert(group_ok(slots@, g0));
                assert(group_key(slots@, b0.groups@, k as int) == key);
                lemma_joined(slots@, *arena, b0, *buffer, k as int, id, r0);
                assert(asked(*buffer).groups =~= asked(b0).groups.update(
                    k as int,
                    asked(b0).groups[k as int].push(id),
                ));
                assert(joins_group(slots@, asked(b0), asked(*buffer), id as int, k as int));
            }
        },
        None => {
            let k: usize = buffer.groups.len();
            let mut members: Vec<u16> = Vec::new();
            members.push(id);
            buffer.push(&slots[id as usize].root.game, Target::Root(k));
            let ghost b1 = *buffer;
            buffer.groups.push(members);
            roots.insert(key, k);
            diag.root_evals = diag.root_evals.wrapping_add(1);
            proof {
                assert(b1.groups == b0.groups);
                lemma_opened(slots@, *arena, b0, *buffer, id, r0, roots@);
                assert forall|q: int| 0 <= q < asked(b0).groups.len() implies slots@[(
                #[trigger] asked(b0).groups[q])[0] as int].root.key != key by {
                    assert(r0.contains_key(group_key(slots@, b0.groups@, q)));
                }
                assert(members@ =~= seq![id]);
                assert(asked(*buffer).groups =~= asked(b0).groups.push(seq![id]));
            }
        },
    }
}

/// A game joins a group.
proof fn lemma_joined<S, P>(
    slots: Seq<Slot<S, P>>,
    a: Arena<S>,
    b: Buffer,
    c: Buffer,
    k: int,
    id: u16,
    roots: Map<u64, usize>,
)
    requires
        node_rows(a, b),
        root_rows(slots, b),
        keyed(slots, b.groups@, roots),
        0 <= k < b.groups@.len(),
        id < slots.len(),
        slots[id as int].root.pending,
        slots[id as int].root.key == group_key(slots, b.groups@, k),
        forall|q: int, m: int|
            #![trigger b.groups@[q]@[m]]
            0 <= q < b.groups@.len() && 0 <= m < b.groups@[q]@.len() ==> b.groups@[q]@[m] < id,
        c == (Buffer { groups: c.groups, ..b }),
        c.groups@.len() == b.groups@.len(),
        c.groups@[k]@ == b.groups@[k]@.push(id),
        forall|q: int| 0 <= q < b.groups@.len() && q != k ==> #[trigger] c.groups@[q] == b.groups@[q],
    ensures
        node_rows(a, c),
        root_rows(slots, c),
        keyed(slots, c.groups@, roots),
        in_group(c.groups@, id as int),
        forall|j: int| #[trigger] in_group(b.groups@, j) ==> in_group(c.groups@, j),
        forall|q: int, m: int|
            #![trigger c.groups@[q]@[m]]
            0 <= q < c.groups@.len() && 0 <= m < c.groups@[q]@.len() ==> c.groups@[q]@[m] <= id,
{
    assert(group_ok(slots, b.groups@[k]@));
    assert forall|q: int| 0 <= q < b.groups@.len() implies (#[trigger] c.groups@[q])@[0]
        == b.groups@[q]@[0] by {
        assert(group_ok(slots, b.groups@[q]@));
    }
    assert forall|q: int| 0 <= q < b.groups@.len() implies #[trigger] group_key(slots, c.groups@, q)
        == group_key(slots, b.groups@, q) by {
        assert(c.groups@[q]@[0] == b.groups@[q]@[0]);
    }
    assert(c.groups@[k]@[b.groups@[k]@.len() as int] == id);
    assert(c.groups@[k]@.contains(id));
    assert forall|j: int| #[trigger] in_group(b.groups@, j) implies in_group(c.groups@, j) by {
        let q = choose|q: int|
            0 <= q < b.groups@.len() && (#[trigger] b.groups@[q])@.contains(j as u16);
        if q == k {
            let m = b.groups@[k]@.index_of(j as u16);
            assert(c.groups@[k]@[m] == j as u16);
        }
        assert(c.groups@[q]@.contains(j as u16));
    }
    assert forall|q: int, m: int|
        #![trigger c.groups@[q]@[m]]
        0 <= q < c.groups@.len() && 0 <= m < c.groups@[q]@.len() implies c.groups@[q]@[m] <= id by {
        if q == k {
            if m < b.groups@[k]@.len() {
                assert(b.groups@[k]@[m] < id);
            }
        } else {
            assert(c.groups@[q] == b.groups@[q]);
            assert(b.groups@[q]@[m] < id);
        }
    }
    assert forall|q: int| 0 <= q < c.groups@.len() implies group_ok(
        slots,
        (#[trigger] c.groups@[q])@,
    ) by {
        assert(group_ok(slots, b.groups@[q]@));
        if q == k {
            let g0 = b.groups@[k]@;
            let g1 = c.groups@[k]@;
            assert forall|x: int, y: int| 0 <= x < y < g1.len() implies g1[x] < g1[y] by {
                if y == g0.len() {
                    assert(b.groups@[k]@[x] < id);
                }
            }
        }
    }
    assert forall|i: int, j: int|
        0 <= i < c.groups@.len() && 0 <= j < c.groups@.len() && i != j implies #[trigger] group_key(
        slots,
        c.groups@,
        i,
    ) != #[trigger] group_key(slots, c.groups@, j) by {
        assert(group_key(slots, b.groups@, i) != group_key(slots, b.groups@, j));
    }
    assert forall|r: int| 0 <= r < c.targets@.len() implies root_row(
        slots,
        c,
        #[trigger] c.targets@[r],
        r,
    ) by {
        assert(root_row(slots, b, b.targets@[r], r));
        if let Target::Root(q) = b.targets@[r] {
            assert(c.groups@[q as int]@[0] == b.groups@[q as int]@[0]);
        }
    }
    assert forall|r: int| 0 <= r < c.targets@.len() implies node_row(
        a,
        c,
        #[trigger] c.targets@[r],
        r,
    ) by {
        assert(node_row(a, b, b.targets@[r], r));
    }
    assert forall|key: u64| #[trigger] roots.contains_key(key) implies roots[key] < c.groups@.len()
        && group_key(slots, c.groups@, roots[key] as int) == key by {
        assert(group_key(slots, b.groups@, roots[key] as int) == key);
    }
}

/// A game opens a group.
proof fn lemma_opened<S, P>(
    slots: Seq<Slot<S, P>>,
    a: Arena<S>,
    b: Buffer,
    c: Buffer,
    id: u16,
    r0: Map<u64, usize>,
    r1: Map<u64, usize>,
)
    requires
        node_rows(a, b),
        root_rows(slots, b),
        keyed(slots, b.groups@, r0),
        id < slots.len(),
        slots[id as int].root.pending,
        !r0.contains_key(slots[id as int].root.key),
        forall|q: int, m: int|
            #![trigger b.groups@[q]@[m]]
            0 <= q < b.groups@.len() && 0 <= m < b.groups@[q]@.len() ==> b.groups@[q]@[m] < id,
        b.groups@.len() <= usize::MAX,
        c.groups@.len() == b.groups@.len() + 1,
        c.groups@.last()@ == seq![id],
        forall|q: int| 0 <= q < b.groups@.len() ==> #[trigger] c.groups@[q] == b.groups@[q],
        c.targets@ == b.targets@.push(Target::Root(b.groups@.len() as usize)),
        c.row_is(b.targets@.len() as int, slots[id as int].root.game),
        forall|r: int|
            0 <= r < b.targets@.len() ==> #[trigger] c.positions@[r] == b.positions@[r]
                && c.scores@[r] == b.scores@[r],
        r1 == r0.insert(slots[id as int].root.key, b.groups@.len() as usize),
    ensures
        node_rows(a, c),
        root_rows(slots, c),
        keyed(slots, c.groups@, r1),
        in_group(c.groups@, id as int),
        forall|j: int| #[trigger] in_group(b.groups@, j) ==> in_group(c.groups@, j),
        forall|t: Target| #[trigger] b.targets@.contains(t) ==> c.targets@.contains(t),
        forall|q: int, m: int|
            #![trigger c.groups@[q]@[m]]
            0 <= q < c.groups@.len() && 0 <= m < c.groups@[q]@.len() ==> c.groups@[q]@[m] <= id,
{
    let n = b.groups@.len() as int;
    let w = b.targets@.len() as int;
    let key = slots[id as int].root.key;
    assert(c.groups@[n]@ == seq![id]);
    assert(c.groups@[n]@[0] == id);
    assert(c.groups@[n]@.contains(id));
    assert(c.targets@[w] == Target::Root(n as usize));
    assert forall|q: int| 0 <= q < n implies #[trigger] group_key(slots, c.groups@, q) == group_key(
        slots,
        b.groups@,
        q,
    ) by {
        assert(c.groups@[q] == b.groups@[q]);
    }
    assert(group_key(slots, c.groups@, n) == key);
    assert forall|q: int| 0 <= q < n implies #[trigger] group_key(slots, b.groups@, q) != key by {
        assert(r0.contains_key(group_key(slots, b.groups@, q)));
    }
    assert forall|j: int| #[trigger] in_group(b.groups@, j) implies in_group(c.groups@, j) by {
        let q = choose|q: int|
            0 <= q < b.groups@.len() && (#[trigger] b.groups@[q])@.contains(j as u16);
        assert(c.groups@[q]@.contains(j as u16));
    }
    assert forall|t: Target| #[trigger] b.targets@.contains(t) implies c.targets@.contains(t) by {
        let r = b.targets@.index_of(t);
        assert(c.targets@[r] == t);
    }
    assert forall|q: int, m: int|
        #![trigger c.groups@[q]@[m]]
        0 <= q < c.groups@.len() && 0 <= m < c.groups@[q]@.len() implies c.groups@[q]@[m] <= id by {
        if q < n {
            assert(c.groups@[q] == b.groups@[q]);
            assert(b.groups@[q]@[m] < id);
        } else {
            assert(c.groups@[n]@[m] == seq![id][m]);
        }
    }
    assert forall|q: int| 0 <= q < c.groups@.len() implies group_ok(
        slots,
        (#[trigger] c.groups@[q])@,
    ) by {
        if q < n {
            assert(group_ok(slots, b.groups@[q]@));
        }
    }
    assert forall|i: int, j: int|
        0 <= i < c.groups@.len() && 0 <= j < c.groups@.len() && i != j implies #[trigger] group_key(
        slots,
        c.groups@,
        i,
    ) != #[trigger] group_key(slots, c.groups@, j) by {
        if i < n && j < n {
            assert(group_key(slots, b.groups@, i) != group_key(slots, b.groups@, j));
        }
    }
    assert forall|k: usize| k < c.groups@.len() implies #[trigger] c.targets@.contains(
        Target::Root(k),
    ) by {
        if k < n {
            assert(b.targets@.contains(Target::Root(k)));
        }
    }
    assert forall|r: int| 0 <= r < c.targets@.len() implies root_row(
        slots,
        c,
        #[trigger] c.targets@[r],
        r,
    ) && node_row(a, c, c.targets@[r], r) by {
        if r < w {
            assert(c.targets@[r] == b.targets@[r]);
            assert(root_row(slots, b, b.targets@[r], r));
            assert(node_row(a, b, b.targets@[r], r));
            assert(c.positions@[r] == b.positions@[r]);
        }
    }
    assert forall|x: int, y: int| 0 <= x < c.targets@.len() && 0 <= y < c.targets@.len() && x != y
        implies c.targets@[x] != c.targets@[y] by {
        if x < w {
            assert(root_row(slots, b, b.targets@[x], x));
        }
        if y < w {
            assert(root_row(slots, b, b.targets@[y], y));
        }
    }
    assert forall|i: int| #[trigger] a.is_live(i) && pending(a.nodes@[i].flags) implies c.targets@.contains(
        Target::Node(i as u32),
    ) by {
        assert(b.targets@.contains(Target::Node(i as u32)));
    }
    assert forall|x: u64| #[trigger] r1.contains_key(x) implies r1[x] < c.groups@.len()
        && group_key(slots, c.groups@, r1[x] as int) == x by {
        if x != key {
            assert(r0.contains_key(x));
            assert(group_key(slots, b.groups@, r0[x] as int) == x);
        }
    }
    assert forall|k: int| 0 <= k < c.groups@.len() implies r1.contains_key(
        #[trigger] group_key(slots, c.groups@, k),
    ) && r1[group_key(slots, c.groups@, k)] == k by {
        if k < n {
            assert(r0.contains_key(group_key(slots, b.groups@, k)));
        }
    }
}

} // verus!
