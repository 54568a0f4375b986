//! The sweep: after games have moved, drop each node's claims from games that can no longer
//! reach it, and delete the nodes nobody claims.
use vstd::prelude::*;

use crate::mcts::arena::{
    kept_cursor, lemma_node_changed, lemma_swap_removed, only_node_changed, swap_removed, Arena,
    Node,
};
use crate::mcts::config::K;
use crate::mcts::diagnostics::{bumped, Diagnostics};
use crate::mcts::slot::Slot;
use crate::reach::reachable;

verus! {

/// Has game `id` no more business with a node of this board? A finished game has none with
/// any; a game that moved has some only with what its new root can still reach; the root of
/// any other game did not move, so everything it holds is still live.
pub open spec fn stale<S, P>(
    slots: Seq<Slot<S, P>>,
    stepping: Seq<bool>,
    finished: Seq<bool>,
    cells: Seq<i8>,
    id: u16,
) -> bool {
    finished[id as int] || (stepping[id as int] && !reachable(
        slots[id as int].root.game.cells@,
        cells,
    ))
}

/// Is some claim on a node not stale?
pub open spec fn kept<S, P>(
    slots: Seq<Slot<S, P>>,
    stepping: Seq<bool>,
    finished: Seq<bool>,
    n: Node<S>,
) -> bool {
    exists|id: u16| #[trigger]
        n.listed().contains(id) && !stale(slots, stepping, finished, n.game.cells@, id)
}

/// Only games that there are have claims on a node.
pub open spec fn claims_below<S>(n: Node<S>, g: int) -> bool {
    forall|id: u16| #[trigger] n.listed().contains(id) ==> id < g
}

/// Every node is claimed, by games that there are.
pub open spec fn claimed<S>(a: Arena<S>, g: int) -> bool {
    forall|i: int| #[trigger]
        a.is_live(i) ==> a.nodes@[i].id_count > 0 && claims_below(a.nodes@[i], g)
}

/// An id list and its cursor once the stale ones of its first `k` ids are dropped, one after
/// the other.
pub open spec fn pruned_list<S, P>(
    slots: Seq<Slot<S, P>>,
    stepping: Seq<bool>,
    finished: Seq<bool>,
    cells: Seq<i8>,
    list: Seq<u16>,
    cursor: u8,
    k: nat,
) -> (Seq<u16>, u8)
    decreases k,
{
    if k == 0 {
        (list, cursor)
    } else {
        let p = pruned_list(slots, stepping, finished, cells, list, cursor, (k - 1) as nat);
        let id = list[k - 1];
        if stale(slots, stepping, finished, cells, id) {
            (swap_removed(p.0, p.0.index_of(id)), kept_cursor(p.1, p.0.len() - 1))
        } else {
            p
        }
    }
}

/// The id list of a node, and its cursor, once its stale ids are dropped.
pub open spec fn pruned_ids<S, P>(
    slots: Seq<Slot<S, P>>,
    stepping: Seq<bool>,
    finished: Seq<bool>,
    n: Node<S>,
) -> (Seq<u16>, u8) {
    pruned_list(
        slots,
        stepping,
        finished,
        n.game.cells@,
        n.listed(),
        n.id_cursor,
        n.listed().len(),
    )
}

/// What the sweep counts.
#[verifier::ext_equal]
pub struct Tally {
    pub tested: u64,
    pub kept: u64,
    pub histogram: Seq<u64>,
    pub highest: u8,
    pub survivors: Seq<u64>,
}

/// The sweep's counts among the counters.
pub open spec fn tally_of(d: Diagnostics) -> Tally {
    Tally {
        tested: d.reach_tested,
        kept: d.reach_kept,
        histogram: d.id_histogram@,
        highest: d.max_id_count,
        survivors: d.full_node_survivors@,
    }
}

/// The reach tests run and passed, with those for the first `k` ids of a list: one for each
/// game that moved and goes on.
pub open spec fn reach_tally<S, P>(
    slots: Seq<Slot<S, P>>,
    stepping: Seq<bool>,
    finished: Seq<bool>,
    cells: Seq<i8>,
    list: Seq<u16>,
    begin: (u64, u64),
    k: nat,
) -> (u64, u64)
    decreases k,
{
    if k == 0 {
        begin
    } else {
        let t = reach_tally(slots, stepping, finished, cells, list, begin, (k - 1) as nat);
        let id = list[k - 1] as int;
        if stepping[id] && !finished[id] {
            (
                t.0.wrapping_add(1),
                if reachable(slots[id].root.game.cells@, cells) {
                    t.1.wrapping_add(1)
                } else {
                    t.1
                },
            )
        } else {
            t
        }
    }
}

/// The counts with one more node: how many ids it had, and, where its list was full, how many
/// it was left with.
pub open spec fn node_tally<S, P>(
    slots: Seq<Slot<S, P>>,
    stepping: Seq<bool>,
    finished: Seq<bool>,
    t: Tally,
    n: Node<S>,
) -> Tally {
    let count = n.listed().len();
    let reach = reach_tally(
        slots,
        stepping,
        finished,
        n.game.cells@,
        n.listed(),
        (t.tested, t.kept),
        count,
    );
    Tally {
        tested: reach.0,
        kept: reach.1,
        histogram: bumped(t.histogram, count as int),
        highest: if t.highest < count {
            count as u8
        } else {
            t.highest
        },
        survivors: if count == K {
            bumped(
                t.survivors,
                pruned_ids(slots, stepping, finished, n).0.len() as int,
            )
        } else {
            t.survivors
        },
    }
}

/// The counts with those of the first `n` node slots; an unused one counts nothing.
pub open spec fn nodes_tally<S, P>(
    slots: Seq<Slot<S, P>>,
    stepping: Seq<bool>,
    finished: Seq<bool>,
    begin: Tally,
    nodes: Seq<Node<S>>,
    n: nat,
) -> Tally
    decreases n,
{
    if n == 0 {
        begin
    } else {
        let t = nodes_tally(slots, stepping, finished, begin, nodes, (n - 1) as nat);
        if nodes[n - 1].id_count > 0 {
            node_tally(slots, stepping, finished, t, nodes[n - 1])
        } else {
            t
        }
    }
}

/// Two sets of slots with the same roots for the games that go on.
pub open spec fn same_goers<S, P>(
    s: Seq<Slot<S, P>>,
    t: Seq<Slot<S, P>>,
    finished: Seq<bool>,
) -> bool {
    t.len() == s.len() && forall|j: int|
        0 <= j < s.len() && !finished[j] ==> #[trigger] t[j] == s[j]
}

/// Pruning and counting go by the roots of the games that go on.
pub(crate) proof fn lemma_lists_same<S, P>(
    s: Seq<Slot<S, P>>,
    t: Seq<Slot<S, P>>,
    stepping: Seq<bool>,
    finished: Seq<bool>,
    cells: Seq<i8>,
    list: Seq<u16>,
    cursor: u8,
    begin: (u64, u64),
    k: nat,
)
    requires
        same_goers(s, t, finished),
        k <= list.len(),
        forall|m: int| 0 <= m < list.len() ==> (#[trigger] list[m]) < s.len(),
    ensures
        pruned_list(s, stepping, finished, cells, list, cursor, k) == pruned_list(
            t,
            stepping,
            finished,
            cells,
            list,
            cursor,
            k,
        ),
        reach_tally(s, stepping, finished, cells, list, begin, k) == reach_tally(
            t,
            stepping,
            finished,
            cells,
            list,
            begin,
            k,
        ),
    decreases k,
{
    if k > 0 {
        lemma_lists_same(s, t, stepping, finished, cells, list, cursor, begin, (k - 1) as nat);
        let id = list[k - 1] as int;
        assert(list[k - 1] < s.len());
        if !finished[id] {
            assert(t[id] == s[id]);
        }
    }
}

/// The counts go by the roots of the games that go on.
pub(crate) proof fn lemma_tally_same<S, P>(
    s: Seq<Slot<S, P>>,
    t: Seq<Slot<S, P>>,
    stepping: Seq<bool>,
    finished: Seq<bool>,
    begin: Tally,
    a: Arena<S>,
    n: nat,
)
    requires
        a.wf(),
        claimed(a, s.len() as int),
        same_goers(s, t, finished),
        n <= a.nodes@.len(),
    ensures
        nodes_tally(s, stepping, finished, begin, a.nodes@, n) == nodes_tally(
            t,
            stepping,
            finished,
            begin,
            a.nodes@,
            n,
        ),
    decreases n,
{
    if n > 0 {
        lemma_tally_same(s, t, stepping, finished, begin, a, (n - 1) as nat);
        let node = a.nodes@[n - 1];
        let so_far = nodes_tally(s, stepping, finished, begin, a.nodes@, (n - 1) as nat);
        if node.id_count > 0 {
            assert(a.is_live(n - 1)) by {
                if !a.is_live(n - 1) {
                    assert(a.nodes@[n - 1].id_count == 0);
                }
            }
            let list = node.listed();
            assert forall|m: int| 0 <= m < list.len() implies (#[trigger] list[m]) < s.len() by {
                assert(list.contains(list[m]));
            }
            lemma_lists_same(
                s,
                t,
                stepping,
                finished,
                node.game.cells@,
                list,
                node.id_cursor,
                (so_far.tested, so_far.kept),
                list.len(),
            );
        }
    }
}

/// A node after a sweep it survived: one sweep older, and without the stale claims.
pub open spec fn pruned<S, P>(
    slots: Seq<Slot<S, P>>,
    stepping: Seq<bool>,
    finished: Seq<bool>,
    before: Node<S>,
    after: Node<S>,
) -> bool {
    &&& after.key == before.key
    &&& after.game == before.game
    &&& after.flags == before.flags
    &&& after.stats == before.stats
    &&& after.sweep_age == aged(before.sweep_age)
    &&& (after.listed(), after.id_cursor) == pruned_ids(slots, stepping, finished, before)
    &&& forall|id: u16| #[trigger]
        after.listed().contains(id) <==> before.listed().contains(id) && !stale(
            slots,
            stepping,
            finished,
            before.game.cells@,
            id,
        )
}

/// One sweep older.
pub open spec fn aged(age: u32) -> u32 {
    if age < u32::MAX {
        (age + 1) as u32
    } else {
        age
    }
}

/// What the sweep makes of slot `i`: a node with a claim that is not stale stays, pruned, and
/// any other goes.
pub open spec fn swept_at<S, P>(
    slots: Seq<Slot<S, P>>,
    stepping: Seq<bool>,
    finished: Seq<bool>,
    before: Arena<S>,
    after: Arena<S>,
    i: int,
) -> bool {
    &&& after.is_live(i) <==> before.is_live(i) && kept(
        slots,
        stepping,
        finished,
        before.nodes@[i],
    )
    &&& after.is_live(i) ==> pruned(slots, stepping, finished, before.nodes@[i], after.nodes@[i])
}

/// The slots below `n` whose node was deleted, in order.
pub open spec fn freed<S>(before: Arena<S>, after: Arena<S>, n: nat) -> Seq<u32>
    decreases n,
{
    if n == 0 {
        Seq::empty()
    } else {
        let rest = freed(before, after, (n - 1) as nat);
        if before.is_live(n - 1) && !after.is_live(n - 1) {
            rest.push((n - 1) as u32)
        } else {
            rest
        }
    }
}

/// What is freed below `n` is a matter of the slots there.
proof fn lemma_freed_same<S>(before: Arena<S>, a: Arena<S>, b: Arena<S>, n: nat)
    requires
        forall|i: int| 0 <= i < n ==> (#[trigger] a.is_live(i) <==> b.is_live(i)),
    ensures
        freed(before, a, n) == freed(before, b, n),
    decreases n,
{
    if n > 0 {
        lemma_freed_same(before, a, b, (n - 1) as nat);
        assert(a.is_live(n - 1) <==> b.is_live(n - 1));
    }
}

/// What the sweep makes of the arena. The slots of deleted nodes are free, the last one first
/// in line.
pub open spec fn swept<S, P>(
    slots: Seq<Slot<S, P>>,
    stepping: Seq<bool>,
    finished: Seq<bool>,
    before: Arena<S>,
    after: Arena<S>,
) -> bool {
    &&& after.wf()
    &&& after.nodes@.len() == before.nodes@.len()
    &&& after.capacity == before.capacity
    &&& after.overflows == before.overflows
    &&& after.free@ == before.free@ + freed(before, after, before.nodes@.len())
    &&& forall|i: int| #[trigger]
        after.is_live(i) ==> before.is_live(i)
    &&& forall|i: int|
        0 <= i < before.nodes@.len() ==> #[trigger] swept_at(
            slots,
            stepping,
            finished,
            before,
            after,
            i,
        )
}

/// Has game `id` no more business with a node of this board?
fn is_stale<S, P>(
    slots: &Vec<Slot<S, P>>,
    stepping: &Vec<bool>,
    finished: &Vec<bool>,
    node: &Node<S>,
    id: u16,
    diag: &mut Diagnostics,
) -> (r: bool)
    requires
        id < slots@.len(),
        stepping@.len() == slots@.len(),
        finished@.len() == slots@.len(),
        old(diag).wf(),
    ensures
        r == stale(slots@, stepping@, finished@, node.game.cells@, id),
        final(diag).wf(),
        *final(diag) == (Diagnostics {
            reach_tested: final(diag).reach_tested,
            reach_kept: final(diag).reach_kept,
            ..*old(diag)
        }),
        final(diag).reach_tested == (if stepping@[id as int] && !finished@[id as int] {
            old(diag).reach_tested.wrapping_add(1)
        } else {
            old(diag).reach_tested
        }),
        final(diag).reach_kept == (if stepping@[id as int] && !finished@[id as int] && reachable(
            slots@[id as int].root.game.cells@,
            node.game.cells@,
        ) {
            old(diag).reach_kept.wrapping_add(1)
        } else {
            old(diag).reach_kept
        }),
{
    let i: usize = id as usize;
    if finished[i] {
        return true;
    }
    if !stepping[i] {
        return false;
    }
    let keep: bool = node.game.reachable_from(&slots[i].root.game);
    diag.note_reach(keep);
    !keep
}

/// Drop the stale claims on a node. Returns how many are left.
fn prune<S, P>(
    node: u32,
    arena: &mut Arena<S>,
    slots: &Vec<Slot<S, P>>,
    stepping: &Vec<bool>,
    finished: &Vec<bool>,
    diag: &mut Diagnostics,
) -> (survivors: usize)
    requires
        old(arena).wf(),
        old(arena).is_live(node as int),
        claims_below(old(arena).nodes@[node as int], slots@.len() as int),
        stepping@.len() == slots@.len(),
        finished@.len() == slots@.len(),
        old(diag).wf(),
    ensures
        final(arena).wf(),
        only_node_changed(*old(arena), *final(arena), node as int),
        final(arena).overflows == old(arena).overflows,
        final(arena).is_live(node as int),
        ({
            let before = old(arena).nodes@[node as int];
            let after = final(arena).nodes@[node as int];
            &&& after.same_position(&before)
            &&& after.flags == before.flags
            &&& after.stats == before.stats
            &&& forall|id: u16| #[trigger]
                after.listed().contains(id) <==> before.listed().contains(id) && !stale(
                    slots@,
                    stepping@,
                    finished@,
                    before.game.cells@,
                    id,
                )
            &&& survivors == after.id_count
            &&& (after.listed(), after.id_cursor) == pruned_ids(
                slots@,
                stepping@,
                finished@,
                before,
            )
            &&& (final(diag).reach_tested, final(diag).reach_kept) == reach_tally(
                slots@,
                stepping@,
                finished@,
                before.game.cells@,
                before.listed(),
                (old(diag).reach_tested, old(diag).reach_kept),
                before.listed().len(),
            )
        }),
        final(diag).wf(),
        *final(diag) == (Diagnostics {
            reach_tested: final(diag).reach_tested,
            reach_kept: final(diag).reach_kept,
            ..*old(diag)
        }),
{
    let ghost a0 = *arena;
    let ghost n0 = a0.nodes@[node as int];
    let ghost list = n0.listed();
    let count: usize = arena.node(node).id_count as usize;
    let copy = arena.node(node).ids;
    let mut k: usize = 0;
    while k < count
        invariant
            k <= count,
            count == n0.id_count,
            n0 == a0.nodes@[node as int],
            n0.wf(),
            list == n0.listed(),
            copy == n0.ids,
            a0.is_live(node as int),
            claims_below(n0, slots@.len() as int),
            stepping@.len() == slots@.len(),
            finished@.len() == slots@.len(),
            arena.wf(),
            only_node_changed(a0, *arena, node as int),
            arena.overflows == a0.overflows,
            arena.nodes@[node as int].same_position(&n0),
            arena.nodes@[node as int].flags == n0.flags,
            arena.nodes@[node as int].stats == n0.stats,
            forall|id: u16| #[trigger]
                arena.nodes@[node as int].listed().contains(id) <==> list.contains(id) && !(stale(
                    slots@,
                    stepping@,
                    finished@,
                    n0.game.cells@,
                    id,
                ) && list.take(k as int).contains(id)),
            (
                arena.nodes@[node as int].listed(),
                arena.nodes@[node as int].id_cursor,
            ) == pruned_list(
                slots@,
                stepping@,
                finished@,
                n0.game.cells@,
                list,
                n0.id_cursor,
                k as nat,
            ),
            (diag.reach_tested, diag.reach_kept) == reach_tally(
                slots@,
                stepping@,
                finished@,
                n0.game.cells@,
                list,
                (old(diag).reach_tested, old(diag).reach_kept),
                k as nat,
            ),
            diag.wf(),
            *diag == (Diagnostics {
                reach_tested: diag.reach_tested,
                reach_kept: diag.reach_kept,
                ..*old(diag)
            }),
        decreases count - k,
    {
        let id: u16 = copy[k];
        let ghost a1 = *arena;
        let ghost l1 = a1.nodes@[node as int].listed();
        assert(list[k as int] == id);
        assert(list.contains(id));
        assert(list.take(k as int + 1) =~= list.take(k as int).push(id));
        assert(!list.take(k as int).contains(id)) by {
            if list.take(k as int).contains(id) {
                let j = list.take(k as int).index_of(id);
                assert(list.take(k as int)[j] == id);
                assert(list[j] == list[k as int]);
            }
        }
        assert(l1.contains(id));
        let gone: bool = is_stale(slots, stepping, finished, arena.node(node), id, diag);
        if gone {
            arena.drop_id(node, id);
        }
        proof {
            let l2 = arena.nodes@[node as int].listed();
            let t1 = list.take(k as int);
            let t2 = list.take(k as int + 1);
            if gone {
                assert(a1.nodes@[node as int].wf());
                lemma_swap_removed(l1, l1.index_of(id));
                assert(l1[l1.index_of(id)] == id);
            }
            assert forall|x: u16| #[trigger] l2.contains(x) <==> list.contains(x) && !(stale(
                slots@,
                stepping@,
                finished@,
                n0.game.cells@,
                x,
            ) && t2.contains(x)) by {
                assert(l1.contains(x) <==> list.contains(x) && !(stale(
                    slots@,
                    stepping@,
                    finished@,
                    n0.game.cells@,
                    x,
                ) && t1.contains(x)));
                assert(t2.contains(x) <==> t1.contains(x) || x == id) by {
                    if t1.contains(x) {
                        let j = t1.index_of(x);
                        assert(t2[j] == x);
                    }
                    if x == id {
                        assert(t2[k as int] == x);
                    }
                    if t2.contains(x) && x != id {
                        let j = t2.index_of(x);
                        assert(t1[j] == x);
                    }
                }
            }
        }
        k = k + 1;
    }
    assert(list.take(count as int) =~= list);
    arena.node(node).id_count as usize
}

/// Drop the stale claims on a node, and the node with the last of them.
fn sweep_node<S, P>(
    node: u32,
    arena: &mut Arena<S>,
    slots: &Vec<Slot<S, P>>,
    stepping: &Vec<bool>,
    finished: &Vec<bool>,
    diag: &mut Diagnostics,
)
    requires
        old(arena).wf(),
        old(arena).is_live(node as int),
        claims_below(old(arena).nodes@[node as int], slots@.len() as int),
        stepping@.len() == slots@.len(),
        finished@.len() == slots@.len(),
        old(diag).wf(),
    ensures
        final(arena).wf(),
        final(arena).nodes@.len() == old(arena).nodes@.len(),
        final(arena).capacity == old(arena).capacity,
        final(arena).overflows == old(arena).overflows,
        swept_at(slots@, stepping@, finished@, *old(arena), *final(arena), node as int),
        forall|i: int| i != node ==> (#[trigger] final(arena).is_live(i) <==> old(arena).is_live(i)),
        final(arena).free@ == (if final(arena).is_live(node as int) {
            old(arena).free@
        } else {
            old(arena).free@.push(node)
        }),
        forall|i: int|
            0 <= i < old(arena).nodes@.len() && i != node ==> #[trigger] final(arena).nodes@[i]
                == old(arena).nodes@[i],
        final(arena).live == old(arena).live - (if final(arena).is_live(node as int) {
            0int
        } else {
            1
        }),
        final(diag).wf(),
        tally_of(*final(diag)) == node_tally(
            slots@,
            stepping@,
            finished@,
            tally_of(*old(diag)),
            old(arena).nodes@[node as int],
        ),
        final(diag).nodes_deleted == old(diag).nodes_deleted.wrapping_add(
            (old(arena).live - final(arena).live) as u64,
        ),
        *final(diag) == (Diagnostics {
            reach_tested: final(diag).reach_tested,
            reach_kept: final(diag).reach_kept,
            id_histogram: final(diag).id_histogram,
            max_id_count: final(diag).max_id_count,
            full_node_survivors: final(diag).full_node_survivors,
            nodes_deleted: final(diag).nodes_deleted,
            ..*old(diag)
        }),
{
    let ghost a0 = *arena;
    let ghost n0 = a0.nodes@[node as int];
    assert(n0.wf());
    let count: usize = arena.node(node).id_count as usize;
    let survivors: usize = prune(node, arena, slots, stepping, finished, diag);
    let ghost a1 = *arena;
    let ghost n1 = a1.nodes@[node as int];
    assert(n1.wf());
    diag.note_swept(count, survivors);
    proof {
        assert(survivors > 0 <==> kept(slots@, stepping@, finished@, n0)) by {
            if survivors > 0 {
                let id = n1.listed()[0];
                assert(n1.listed().contains(id));
                assert(n0.listed().contains(id));
            }
            if kept(slots@, stepping@, finished@, n0) {
                let id = choose|id: u16| #[trigger]
                    n0.listed().contains(id) && !stale(
                        slots@,
                        stepping@,
                        finished@,
                        n0.game.cells@,
                        id,
                    );
                assert(n1.listed().contains(id));
            }
        }
        assert forall|i: int| #[trigger] a1.is_live(i) <==> a0.is_live(i) by {}
    }
    if survivors == 0 {
        arena.remove(node);
        assert(a1.is_live(node as int));
    } else {
        let age: u32 = arena.node(node).sweep_age;
        let i: usize = node as usize;
        if age < u32::MAX {
            arena.nodes[i].sweep_age = age + 1;
        }
        proof {
            let n2 = arena.nodes@[i as int];
            assert(n2.listed() =~= n1.listed());
            lemma_node_changed(a1, *arena, i as int);
        }
    }
}

/// Drop each node's claims from games that can no longer reach it, and delete the nodes nobody
/// claims. A node is only ever tested against the games in its own id list.
pub fn sweep<S, P>(
    arena: &mut Arena<S>,
    slots: &Vec<Slot<S, P>>,
    stepping: &Vec<bool>,
    finished: &Vec<bool>,
    diag: &mut Diagnostics,
)
    requires
        old(arena).wf(),
        claimed(*old(arena), slots@.len() as int),
        stepping@.len() == slots@.len(),
        finished@.len() == slots@.len(),
        old(diag).wf(),
    ensures
        swept(slots@, stepping@, finished@, *old(arena), *final(arena)),
        final(diag).wf(),
        tally_of(*final(diag)) == nodes_tally(
            slots@,
            stepping@,
            finished@,
            tally_of(*old(diag)),
            old(arena).nodes@,
            old(arena).nodes@.len(),
        ),
        final(diag).nodes_deleted == old(diag).nodes_deleted.wrapping_add(
            (old(arena).live - final(arena).live) as u64,
        ),
        *final(diag) == (Diagnostics {
            reach_tested: final(diag).reach_tested,
            reach_kept: final(diag).reach_kept,
            id_histogram: final(diag).id_histogram,
            max_id_count: final(diag).max_id_count,
            full_node_survivors: final(diag).full_node_survivors,
            nodes_deleted: final(diag).nodes_deleted,
            ..*old(diag)
        }),
        final(arena).live <= old(arena).live,
{
    let ghost a0 = *arena;
    let total: usize = arena.slot_count();
    let mut n: usize = 0;
    while n < total
        invariant
            n <= total,
            total == a0.nodes@.len(),
            a0 == *old(arena),
            a0.wf(),
            claimed(a0, slots@.len() as int),
            stepping@.len() == slots@.len(),
            finished@.len() == slots@.len(),
            arena.wf(),
            arena.nodes@.len() == a0.nodes@.len(),
            arena.capacity == a0.capacity,
            arena.overflows == a0.overflows,
            arena.live <= a0.live,
            forall|i: int|
                0 <= i < n ==> #[trigger] swept_at(
                    slots@,
                    stepping@,
                    finished@,
                    a0,
                    *arena,
                    i,
                ),
            arena.free@ == a0.free@ + freed(a0, *arena, n as nat),
            forall|i: int| i >= n ==> (#[trigger] arena.is_live(i) <==> a0.is_live(i)),
            forall|i: int| n <= i < total ==> #[trigger] arena.nodes@[i] == a0.nodes@[i],
            tally_of(*diag) == nodes_tally(
                slots@,
                stepping@,
                finished@,
                tally_of(*old(diag)),
                a0.nodes@,
                n as nat,
            ),
            diag.wf(),
            diag.nodes_deleted == old(diag).nodes_deleted.wrapping_add(
                (a0.live - arena.live) as u64,
            ),
            *diag == (Diagnostics {
                reach_tested: diag.reach_tested,
                reach_kept: diag.reach_kept,
                id_histogram: diag.id_histogram,
                max_id_count: diag.max_id_count,
                full_node_survivors: diag.full_node_survivors,
                nodes_deleted: diag.nodes_deleted,
                ..*old(diag)
            }),
        decreases total - n,
    {
        let ghost a1 = *arena;
        let node: u32 = n as u32;
        assert(a1.is_live(n as int) <==> a0.is_live(n as int));
        assert(a1.nodes@[n as int] == a0.nodes@[n as int]);
        if !arena.is_unused(node) {
            assert(a0.is_live(n as int)) by {
                if !a0.is_live(n as int) {
                    assert(a0.nodes@[n as int].id_count == 0);
                }
            }
            sweep_node(node, arena, slots, stepping, finished, diag);
        } else {
            assert(!a0.is_live(n as int));
            assert(a1.nodes@[n as int].listed().len() == 0);
        }
        proof {
            lemma_freed_same(a0, a1, *arena, n as nat);
            assert(arena.free@ =~= a0.free@ + freed(a0, *arena, (n + 1) as nat));
            assert forall|i: int| 0 <= i < n + 1 implies #[trigger] swept_at(
                slots@,
                stepping@,
                finished@,
                a0,
                *arena,
                i,
            ) by {
                if i < n {
                    assert(swept_at(slots@, stepping@, finished@, a0, a1, i));
                    assert(arena.is_live(i) <==> a1.is_live(i));
                    assert(arena.nodes@[i] == a1.nodes@[i]);
                } else {
                    if a0.is_live(n as int) {
                        assert(swept_at(slots@, stepping@, finished@, a1, *arena, i));
                    }
                }
            }
            assert forall|i: int| i >= n + 1 implies (#[trigger] arena.is_live(i) <==> a0.is_live(
                i,
            )) by {
                assert(a1.is_live(i) <==> a0.is_live(i));
            }
            assert forall|i: int| n + 1 <= i < total implies #[trigger] arena.nodes@[i]
                == a0.nodes@[i] by {
                assert(a1.nodes@[i] == a0.nodes@[i]);
            }
        }
        n = n + 1;
    }
    assert forall|i: int| #[trigger] arena.is_live(i) implies a0.is_live(i) by {
        assert(swept_at(slots@, stepping@, finished@, a0, *arena, i));
    }
}

// ---------------------------------------------------------------------------------- laws

/// After a sweep no node is left that nobody claims, and no claim is left of a finished game
/// or of a game that moved and can no longer reach the node.
pub proof fn lemma_sweep_leaves<S, P>(
    slots: Seq<Slot<S, P>>,
    stepping: Seq<bool>,
    finished: Seq<bool>,
    before: Arena<S>,
    after: Arena<S>,
)
    requires
        before.wf(),
        claimed(before, slots.len() as int),
        swept(slots, stepping, finished, before, after),
    ensures
        claimed(after, slots.len() as int),
        forall|i: int, id: u16|
            #![trigger after.is_live(i), after.nodes@[i].listed().contains(id)]
            after.is_live(i) && after.nodes@[i].listed().contains(id) ==> {
                &&& !finished[id as int]
                &&& stepping[id as int] ==> reachable(
                    slots[id as int].root.game.cells@,
                    after.nodes@[i].game.cells@,
                )
            },
{
    assert forall|i: int| #[trigger] after.is_live(i) implies after.nodes@[i].id_count > 0
        && claims_below(after.nodes@[i], slots.len() as int) by {
        assert(swept_at(slots, stepping, finished, before, after, i));
        assert(before.is_live(i));
        let n0 = before.nodes@[i];
        let n1 = after.nodes@[i];
        let id = choose|id: u16| #[trigger]
            n0.listed().contains(id) && !stale(slots, stepping, finished, n0.game.cells@, id);
        assert(n1.listed().contains(id));
        assert forall|x: u16| #[trigger] n1.listed().contains(x) implies x < slots.len() by {
            assert(n0.listed().contains(x));
        }
    }
    assert forall|i: int, id: u16|
        #![trigger after.is_live(i), after.nodes@[i].listed().contains(id)]
        after.is_live(i) && after.nodes@[i].listed().contains(id) implies {
        &&& !finished[id as int]
        &&& stepping[id as int] ==> reachable(
            slots[id as int].root.game.cells@,
            after.nodes@[i].game.cells@,
        )
    } by {
        assert(swept_at(slots, stepping, finished, before, after, i));
    }
}

/// A game whose root did not move and that is not finished loses no claim, so the sweep
/// deletes no node it uses.
pub proof fn lemma_sweep_spares<S, P>(
    slots: Seq<Slot<S, P>>,
    stepping: Seq<bool>,
    finished: Seq<bool>,
    before: Arena<S>,
    after: Arena<S>,
    i: int,
    id: u16,
)
    requires
        before.wf(),
        swept(slots, stepping, finished, before, after),
        before.is_live(i),
        before.nodes@[i].listed().contains(id),
        !stepping[id as int],
        !finished[id as int],
    ensures
        after.is_live(i),
        after.nodes@[i].listed().contains(id),
{
    assert(swept_at(slots, stepping, finished, before, after, i));
    assert(kept(slots, stepping, finished, before.nodes@[i]));
}

} // verus!
