//! Which nodes a descent records its game on, and where it ends.
use vstd::prelude::*;

use crate::mcts::arena::{
    lemma_touch_lists, only_node_changed, pending, slot_taken, touch_cursor, touch_flags,
    touch_list, touch_result, Arena, Node,
};
use crate::mcts::config::PENDING;
use crate::mcts::descent::{
    arena_same_but_stats, game_at, key_after, key_at, node_ok, route, same_but_stats, step_ok,
    Descent,
};
use crate::mcts::slot::{PathStep, Root, MAX_PLY, ROOT};
use crate::mcts::stats::{end_of, made_cells};

verus! {

/// Game `id` has been recorded on a node.
pub open spec fn recorded<S>(before: Node<S>, after: Node<S>, id: u16) -> bool {
    &&& after.listed() == touch_list(before, id)
    &&& after.id_cursor == touch_cursor(before, id)
    &&& after.flags == touch_flags(before, id)
}

/// No game has been recorded on a node.
pub open spec fn unrecorded<S>(before: Node<S>, after: Node<S>) -> bool {
    &&& after.listed() == before.listed()
    &&& after.id_cursor == before.id_cursor
    &&& after.flags == before.flags
}

/// Node `i` is on the way of a path, past the root, or is the one it leads to.
pub open spec fn comes_by<S, P>(
    root: Root<S>,
    a: Arena<S>,
    steps: Seq<PathStep<P>>,
    i: int,
) -> bool {
    let end = end_of(root, a, steps);
    ||| steps.len() > 0 && a.has(end) && a.index@[end] == i
    ||| exists|k: int| 0 < k < steps.len() && (#[trigger] steps[k]).node == i
}

/// A descent of game `id` along a path records the game on the nodes it visits, and on no
/// other.
pub open spec fn visits_recorded<S, P>(
    root: Root<S>,
    a0: Arena<S>,
    a: Arena<S>,
    id: u16,
    steps: Seq<PathStep<P>>,
) -> bool {
    forall|i: int| #[trigger]
        a0.is_live(i) ==> if comes_by(root, a0, steps, i) {
            recorded(a0.nodes@[i], a.nodes@[i], id)
        } else {
            unrecorded(a0.nodes@[i], a.nodes@[i])
        }
}

/// Does recording game `id` on node `i`, on a path, displace another?
pub open spec fn displaces_at<S, P>(
    root: Root<S>,
    a: Arena<S>,
    id: u16,
    steps: Seq<PathStep<P>>,
    i: int,
) -> bool {
    a.is_live(i) && comes_by(root, a, steps, i) && touch_result(a.nodes@[i], id) is Displaced
}

/// How many games are displaced from the first `n` nodes.
pub open spec fn displacements<S, P>(
    root: Root<S>,
    a: Arena<S>,
    id: u16,
    steps: Seq<PathStep<P>>,
    n: nat,
) -> nat
    decreases n,
{
    if n == 0 {
        0
    } else {
        displacements(root, a, id, steps, (n - 1) as nat) + if displaces_at(
            root,
            a,
            id,
            steps,
            n - 1,
        ) {
            1nat
        } else {
            0
        }
    }
}

/// The same slots hold the same positions.
pub open spec fn same_slots<S>(before: Arena<S>, after: Arena<S>) -> bool {
    &&& after.nodes@.len() == before.nodes@.len()
    &&& after.free == before.free
    &&& after.index == before.index
    &&& after.live == before.live
}

/// A new node, in the next slot, for the position with this key, this board and so many moves:
/// game `id` alone has used it, and it awaits its evaluation unless the game is finished.
pub open spec fn node_added<S>(
    before: Arena<S>,
    after: Arena<S>,
    id: u16,
    key: u64,
    cells: Seq<i8>,
    moves: int,
) -> bool {
    let n = after.nodes@[before.next_slot()];
    &&& slot_taken(before, after)
    &&& after.live == before.live + 1
    &&& after.index@ == before.index@.insert(key, before.next_slot() as u32)
    &&& n.key == key
    &&& n.game.wf()
    &&& n.game.cells@ == cells
    &&& n.game.move_count == moves
    &&& n.flags == (if n.game.finished {
        0
    } else {
        PENDING
    })
    &&& n.listed() == seq![id]
    &&& n.id_cursor == 0
    &&& n.sweep_age == 0
}

/// How a descent ends at the root or at a node that there is: a terminal is backed up, and a
/// node that awaits its evaluation is waited on. Any other ends a descent only where a path can
/// go no further.
pub open spec fn stops_at<S, P>(
    root: Root<S>,
    a: Arena<S>,
    steps: Seq<PathStep<P>>,
    r: Descent,
) -> bool {
    if steps.len() == 0 {
        root.game.finished && r is NoEntry
    } else {
        let node = a.index@[end_of(root, a, steps)];
        let n = a.nodes@[node as int];
        if n.game.finished {
            r is NoEntry
        } else if pending(n.flags) {
            r == (Descent::Entry { node, fresh: false })
        } else {
            r is Exhausted && steps.len() == MAX_PLY
        }
    }
}

/// A descent passes through nodes that have been evaluated.
pub open spec fn evaluated<S, P>(a: Arena<S>, steps: Seq<PathStep<P>>) -> bool {
    forall|k: int|
        0 < k < steps.len() ==> !pending(a.nodes@[(#[trigger] steps[k]).node as int].flags)
}

/// What a descent of game `id` along a path does to the nodes, and how it ends.
///
/// The path goes from the root through evaluated nodes. The game is recorded on each node it
/// visits, which may displace others. Where there is a node for the position it leads to, the
/// descent ends there; where there is none and no room for one, it is given up; and else it
/// makes one.
#[verifier::opaque]
pub open spec fn comes_to<S, P>(
    root: Root<S>,
    a0: Arena<S>,
    a: Arena<S>,
    id: u16,
    steps: Seq<PathStep<P>>,
    r: Descent,
) -> bool {
    let end = end_of(root, a0, steps);
    &&& route(root, a0, steps, end)
    &&& evaluated(a0, steps)
    &&& visits_recorded(root, a0, a, id, steps)
    &&& a.overflows == a0.overflows.wrapping_add(
        displacements(root, a0, id, steps, a0.nodes@.len()) as u64,
    )
    &&& a.capacity == a0.capacity
    &&& if steps.len() == 0 || a0.has(end) {
        same_slots(a0, a) && stops_at(root, a0, steps, r)
    } else if a0.live == a0.capacity {
        same_slots(a0, a) && r is Exhausted
    } else {
        &&& node_added(
            a0,
            a,
            id,
            end,
            made_cells(root, a0, steps.last()),
            game_at(root, a0, steps.last().node).move_count + 1,
        )
        &&& r == (if a.nodes@[a0.next_slot()].game.finished {
            Descent::NoEntry
        } else {
            Descent::Entry { node: a0.next_slot() as u32, fresh: true }
        })
    }
}

/// What the nodes have become once a path is entered.
#[verifier::opaque]
pub(crate) open spec fn entered<S, P>(
    root: Root<S>,
    a0: Arena<S>,
    a: Arena<S>,
    id: u16,
    steps: Seq<PathStep<P>>,
) -> bool {
    &&& visits_recorded(root, a0, a, id, steps)
    &&& a.overflows == a0.overflows.wrapping_add(
        displacements(root, a0, id, steps, a0.nodes@.len()) as u64,
    )
    &&& a.capacity == a0.capacity
    &&& same_slots(a0, a)
}

/// A descent stands at `cur` once a path is entered.
#[verifier::opaque]
pub(crate) open spec fn passed<S, P>(
    root: Root<S>,
    a0: Arena<S>,
    steps: Seq<PathStep<P>>,
    cur: u32,
) -> bool {
    &&& route(root, a0, steps, key_at(root, a0, cur))
    &&& evaluated(a0, steps)
    &&& cur == ROOT <==> steps.len() == 0
    &&& cur != ROOT ==> a0.is_live(cur as int) && !pending(a0.nodes@[cur as int].flags)
}

/// Nothing is displaced where nothing is visited.
proof fn lemma_none_displaced<S, P>(
    root: Root<S>,
    a: Arena<S>,
    id: u16,
    steps: Seq<PathStep<P>>,
    n: nat,
)
    requires
        forall|i: int| !#[trigger] comes_by(root, a, steps, i),
    ensures
        displacements(root, a, id, steps, n) == 0,
    decreases n,
{
    if n > 0 {
        lemma_none_displaced(root, a, id, steps, (n - 1) as nat);
    }
}

/// The same visits displace the same games.
proof fn lemma_displaced_same<S, P>(
    root: Root<S>,
    a: Arena<S>,
    id: u16,
    s: Seq<PathStep<P>>,
    t: Seq<PathStep<P>>,
    n: nat,
)
    requires
        forall|i: int| #[trigger] comes_by(root, a, t, i) <==> comes_by(root, a, s, i),
    ensures
        displacements(root, a, id, t, n) == displacements(root, a, id, s, n),
    decreases n,
{
    if n > 0 {
        lemma_displaced_same(root, a, id, s, t, (n - 1) as nat);
        assert(comes_by(root, a, t, n - 1) <==> comes_by(root, a, s, n - 1));
    }
}

/// Visiting `c` too displaces at most one game more.
proof fn lemma_one_displaced<S, P>(
    root: Root<S>,
    a: Arena<S>,
    id: u16,
    s: Seq<PathStep<P>>,
    t: Seq<PathStep<P>>,
    c: int,
    n: nat,
)
    requires
        forall|i: int| #[trigger] comes_by(root, a, t, i) <==> comes_by(root, a, s, i) || i == c,
    ensures
        displacements(root, a, id, t, n) == displacements(root, a, id, s, n) + if 0 <= c < n
            && displaces_at(root, a, id, t, c) && !comes_by(root, a, s, c) {
            1nat
        } else {
            0
        },
        displacements(root, a, id, s, n) <= n,
    decreases n,
{
    if n > 0 {
        lemma_one_displaced(root, a, id, s, t, c, (n - 1) as nat);
    }
}

/// A descent begins at the root.
pub(crate) proof fn lemma_starts<S, P>(
    root: Root<S>,
    a: Arena<S>,
    id: u16,
    steps: Seq<PathStep<P>>,
)
    requires
        steps.len() == 0,
    ensures
        entered(root, a, a, id, steps),
        passed(root, a, steps, ROOT),
{
    reveal(entered);
    reveal(passed);
    assert forall|i: int| !#[trigger] comes_by(root, a, steps, i) by {}
    lemma_none_displaced(root, a, id, steps, a.nodes@.len());
}

/// Statistics are another matter.
pub(crate) proof fn lemma_enters_same<S, P>(
    root: Root<S>,
    a0: Arena<S>,
    a: Arena<S>,
    b: Arena<S>,
    id: u16,
    steps: Seq<PathStep<P>>,
)
    requires
        entered(root, a0, a, id, steps),
        arena_same_but_stats(a, b),
    ensures
        entered(root, a0, b, id, steps),
{
    reveal(entered);
    assert forall|i: int| #[trigger] a0.is_live(i) implies if comes_by(root, a0, steps, i) {
        recorded(a0.nodes@[i], b.nodes@[i], id)
    } else {
        unrecorded(a0.nodes@[i], b.nodes@[i])
    } by {
        assert(same_but_stats(a.nodes@[i], b.nodes@[i]));
        assert(b.nodes@[i].listed() =~= a.nodes@[i].listed());
    }
}

/// What one more step visits.
proof fn lemma_visits_on<S, P>(
    root: Root<S>,
    a: Arena<S>,
    steps: Seq<PathStep<P>>,
    step: PathStep<P>,
    i: int,
)
    requires
        a.wf(),
        passed(root, a, steps, step.node),
    ensures
        comes_by(root, a, steps.push(step), i) <==> comes_by(root, a, steps, i) || (a.has(
            key_after(root, a, step),
        ) && a.index@[key_after(root, a, step)] == i),
{
    reveal(passed);
    let t = steps.push(step);
    assert(t.last() == step);
    let cur = step.node;
    if cur != ROOT {
        assert(a.is_live(cur as int));
        assert(a.has(a.nodes@[cur as int].key));
        assert(end_of(root, a, steps) == a.nodes@[cur as int].key);
    }
    if comes_by(root, a, t, i) {
        if exists|k: int| 0 < k < t.len() && (#[trigger] t[k]).node == i {
            let k = choose|k: int| 0 < k < t.len() && (#[trigger] t[k]).node == i;
            if k < steps.len() {
                assert(steps[k].node == i);
            } else {
                assert(cur != ROOT);
            }
        }
    }
    if comes_by(root, a, steps, i) {
        if exists|k: int| 0 < k < steps.len() && (#[trigger] steps[k]).node == i {
            let k = choose|k: int| 0 < k < steps.len() && (#[trigger] steps[k]).node == i;
            assert(t[k].node == i);
        } else {
            assert(t[steps.len() as int].node == i);
        }
    }
}

/// A path that goes on from where it stands.
pub(crate) proof fn lemma_steps_on<S, P>(
    root: Root<S>,
    a: Arena<S>,
    steps: Seq<PathStep<P>>,
    step: PathStep<P>,
)
    requires
        passed(root, a, steps, step.node),
        step_ok(root, a, step),
        steps.len() < MAX_PLY,
    ensures
        route(root, a, steps.push(step), key_after(root, a, step)),
        end_of(root, a, steps.push(step)) == key_after(root, a, step),
        evaluated(a, steps.push(step)),
{
    reveal(passed);
    let t = steps.push(step);
    assert(t.last() == step);
    assert forall|k: int| 0 <= k < t.len() implies step_ok(root, a, #[trigger] t[k]) by {
        if k < steps.len() {
            assert(t[k] == steps[k]);
        }
    }
    assert forall|k: int| 0 < k < t.len() implies (#[trigger] t[k]).node != ROOT && key_at(
        root,
        a,
        t[k].node,
    ) == key_after(root, a, t[k - 1]) && !pending(a.nodes@[t[k].node as int].flags) by {
        assert(t[k - 1] == steps[k - 1]);
        if k < steps.len() {
            assert(t[k] == steps[k]);
        }
    }
}

/// Going on to a node that there is.
pub(crate) proof fn lemma_enters_on<S, P>(
    root: Root<S>,
    a0: Arena<S>,
    a1: Arena<S>,
    a2: Arena<S>,
    id: u16,
    steps: Seq<PathStep<P>>,
    step: PathStep<P>,
    child: u32,
)
    requires
        a0.wf(),
        a1.wf(),
        entered(root, a0, a1, id, steps),
        passed(root, a0, steps, step.node),
        step_ok(root, a0, step),
        steps.len() < MAX_PLY,
        a0.has(key_after(root, a0, step)),
        a0.index@[key_after(root, a0, step)] == child,
        only_node_changed(a1, a2, child as int),
        recorded(a1.nodes@[child as int], a2.nodes@[child as int], id),
        a2.overflows == (if touch_result(a1.nodes@[child as int], id) is Displaced {
            a1.overflows.wrapping_add(1)
        } else {
            a1.overflows
        }),
    ensures
        entered(root, a0, a2, id, steps.push(step)),
        !pending(a0.nodes@[child as int].flags) ==> passed(root, a0, steps.push(step), child),
{
    lemma_steps_on(root, a0, steps, step);
    let t = steps.push(step);
    let c = child as int;
    assert(a0.is_live(c));
    assert forall|i: int| #[trigger] comes_by(root, a0, t, i) <==> comes_by(root, a0, steps, i) || i
        == c by {
        lemma_visits_on(root, a0, steps, step, i);
    }
    lemma_one_displaced(root, a0, id, steps, t, c, a0.nodes@.len());
    assert(entered(root, a0, a2, id, t)) by {
        reveal(entered);
        assert(a0.nodes@.len() <= a0.capacity);
        let n0 = a0.nodes@[c];
        let n1 = a1.nodes@[c];
        let n2 = a2.nodes@[c];
        assert(n0.wf());
        assert(n1.wf());
        lemma_touch_lists(n0, id);
        assert(n0.listed().len() == n0.id_count);
        assert(n1.listed().len() == n1.id_count);
        if comes_by(root, a0, steps, c) {
            assert(n1.listed().contains(id));
        } else {
            assert(touch_list(n1, id) == touch_list(n0, id));
        }
        assert(recorded(n0, n2, id));
        assert forall|i: int| #[trigger] a0.is_live(i) implies if comes_by(root, a0, t, i) {
            recorded(a0.nodes@[i], a2.nodes@[i], id)
        } else {
            unrecorded(a0.nodes@[i], a2.nodes@[i])
        } by {
            if i != c {
                assert(a2.nodes@[i] == a1.nodes@[i]);
            }
        }
    }
    if !pending(a0.nodes@[c].flags) {
        reveal(passed);
        assert(a0.nodes@[c].key == key_after(root, a0, step));
    }
}

/// Ending where a descent stands.
pub(crate) proof fn lemma_stops<S, P>(
    root: Root<S>,
    a0: Arena<S>,
    a: Arena<S>,
    id: u16,
    steps: Seq<PathStep<P>>,
    cur: u32,
    r: Descent,
)
    requires
        a0.wf(),
        entered(root, a0, a, id, steps),
        passed(root, a0, steps, cur),
        if game_at(root, a0, cur).finished {
            r is NoEntry
        } else {
            r is Exhausted && steps.len() == MAX_PLY
        },
    ensures
        comes_to(root, a0, a, id, steps, r),
{
    reveal(entered);
    reveal(passed);
    reveal(comes_to);
    if cur != ROOT {
        assert(a0.is_live(cur as int));
        assert(a0.has(a0.nodes@[cur as int].key));
    }
}

/// Ending at a node that awaits its evaluation.
pub(crate) proof fn lemma_waits<S, P>(
    root: Root<S>,
    a0: Arena<S>,
    a: Arena<S>,
    id: u16,
    steps: Seq<PathStep<P>>,
    child: u32,
)
    requires
        a0.wf(),
        entered(root, a0, a, id, steps),
        steps.len() > 0,
        route(root, a0, steps, end_of(root, a0, steps)),
        evaluated(a0, steps),
        a0.has(end_of(root, a0, steps)),
        a0.index@[end_of(root, a0, steps)] == child,
        pending(a0.nodes@[child as int].flags),
        node_ok(a0.nodes@[child as int]),
    ensures
        comes_to(root, a0, a, id, steps, (Descent::Entry { node: child, fresh: false })),
{
    reveal(entered);
    reveal(comes_to);
}

/// Ending at a position that there is no node for: `b` are the nodes before one is made.
pub(crate) proof fn lemma_grows<S, P>(
    root: Root<S>,
    a0: Arena<S>,
    b: Arena<S>,
    a: Arena<S>,
    id: u16,
    steps: Seq<PathStep<P>>,
    step: PathStep<P>,
    r: Descent,
)
    requires
        a0.wf(),
        entered(root, a0, b, id, steps),
        passed(root, a0, steps, step.node),
        step_ok(root, a0, step),
        steps.len() < MAX_PLY,
        !a0.has(key_after(root, a0, step)),
        if b.live == b.capacity {
            a == b && r is Exhausted
        } else {
            makes_node(
                b,
                a,
                id,
                key_after(root, a0, step),
                made_cells(root, a0, step),
                game_at(root, a0, step.node).move_count + 1,
                r,
            )
        },
    ensures
        comes_to(root, a0, a, id, steps.push(step), r),
{
    lemma_steps_on(root, a0, steps, step);
    let t = steps.push(step);
    assert(t.last() == step);
    assert forall|i: int| #[trigger] comes_by(root, a0, t, i) <==> comes_by(root, a0, steps, i) by {
        lemma_visits_on(root, a0, steps, step, i);
    }
    lemma_displaced_same(root, a0, id, steps, t, a0.nodes@.len());
    lemma_grown_ids(root, a0, b, a, id, steps, t);
    reveal(comes_to);
    reveal(entered);
}

/// The same nodes are visited, and those there were before one was made have kept their ids.
proof fn lemma_grown_ids<S, P>(
    root: Root<S>,
    a0: Arena<S>,
    b: Arena<S>,
    a: Arena<S>,
    id: u16,
    s: Seq<PathStep<P>>,
    t: Seq<PathStep<P>>,
)
    requires
        entered(root, a0, b, id, s),
        forall|i: int| #[trigger] comes_by(root, a0, t, i) <==> comes_by(root, a0, s, i),
        forall|i: int| #[trigger] b.is_live(i) ==> same_but_stats(b.nodes@[i], a.nodes@[i]),
    ensures
        visits_recorded(root, a0, a, id, t),
{
    reveal(entered);
    assert forall|i: int| #[trigger] a0.is_live(i) implies if comes_by(root, a0, t, i) {
        recorded(a0.nodes@[i], a.nodes@[i], id)
    } else {
        unrecorded(a0.nodes@[i], a.nodes@[i])
    } by {
        assert(b.is_live(i));
        assert(a.nodes@[i].listed() =~= b.nodes@[i].listed());
    }
}

/// A new node is made, and ends a descent as `r`; the others change in statistics alone.
pub open spec fn makes_node<S>(
    b: Arena<S>,
    a: Arena<S>,
    id: u16,
    key: u64,
    cells: Seq<i8>,
    moves: int,
    r: Descent,
) -> bool {
    &&& node_added(b, a, id, key, cells, moves)
    &&& a.capacity == b.capacity
    &&& a.overflows == b.overflows
    &&& forall|i: int| #[trigger]
        b.is_live(i) ==> same_but_stats(b.nodes@[i], a.nodes@[i])
    &&& r == (if a.nodes@[b.next_slot()].game.finished {
        Descent::NoEntry
    } else {
        Descent::Entry { node: b.next_slot() as u32, fresh: true }
    })
}

} // verus!
