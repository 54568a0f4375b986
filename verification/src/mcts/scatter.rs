//! Writing the model's answers where they belong.
use vstd::prelude::*;

use std::collections::HashMap;

use crate::mcts::arena::{pending, Arena, Node};
use crate::mcts::buffer::{Buffer, Target};
use crate::mcts::config::{OVERFLOWED, PENDING};
use crate::mcts::descent::{
    arena_ok, arena_same_but_stats, back_up, node_ok, root_ok, root_same_but_stats, same_but_stats,
};
use crate::mcts::slot::{Slot, ROOT};
use crate::mcts::stats::{
    backs_up, enroot, masks, prime, primes_at, primes_root, primes_root_by, slot_primed, stats_of,
};
use crate::mcts::variant::Variant;
use crate::rng::Rng;

verus! {

/// A node that may have had its answer: statistics are new and it no longer waits.
pub open spec fn node_answered<S>(before: Node<S>, after: Node<S>) -> bool {
    &&& after.key == before.key
    &&& after.game == before.game
    &&& after.ids == before.ids
    &&& after.id_count == before.id_count
    &&& after.id_cursor == before.id_cursor
    &&& after.sweep_age == before.sweep_age
    &&& pending(after.flags) ==> pending(before.flags)
    &&& after.flags & OVERFLOWED == before.flags & OVERFLOWED
}

/// An arena whose nodes may have had their answers.
pub open spec fn arena_answered<S>(a: Arena<S>, b: Arena<S>) -> bool {
    &&& b.nodes@.len() == a.nodes@.len()
    &&& b.free == a.free
    &&& b.index == a.index
    &&& b.capacity == a.capacity
    &&& b.live == a.live
    &&& b.overflows == a.overflows
    &&& forall|i: int|
        0 <= i < a.nodes@.len() ==> node_answered(#[trigger] a.nodes@[i], b.nodes@[i])
}

/// Answers keep an arena in order.
pub proof fn lemma_answered<S>(a: Arena<S>, b: Arena<S>)
    requires
        arena_ok(a),
        arena_answered(a, b),
    ensures
        arena_ok(b),
        forall|i: int| #[trigger] b.is_live(i) <==> a.is_live(i),
{
    assert forall|i: int| 0 <= i < b.nodes@.len() implies (#[trigger] b.nodes@[i]).wf() by {
        assert(a.nodes@[i].wf());
        assert(node_answered(a.nodes@[i], b.nodes@[i]));
        assert(b.nodes@[i].listed() =~= a.nodes@[i].listed());
    }
    assert forall|i: int| #[trigger] b.is_live(i) implies b.index@.contains_key(b.nodes@[i].key)
        && b.index@[b.nodes@[i].key] == i && node_ok(b.nodes@[i]) by {
        assert(a.is_live(i));
        assert(node_answered(a.nodes@[i], b.nodes@[i]));
    }
    assert forall|k: u64| #[trigger] b.index@.contains_key(k) implies b.is_live(
        b.index@[k] as int,
    ) && b.nodes@[b.index@[k] as int].key == k by {
        assert(a.index@.contains_key(k));
        let i = a.index@[k] as int;
        assert(a.is_live(i));
        assert(node_answered(a.nodes@[i], b.nodes@[i]));
    }
    assert forall|i: int| 0 <= i < b.nodes@.len() && !b.is_live(i) implies (
    #[trigger] b.nodes@[i]).id_count == 0 by {
        assert(!a.is_live(i));
        assert(node_answered(a.nodes@[i], b.nodes@[i]));
        assert(a.nodes@[i].id_count == 0);
    }
}

/// Hand a node its priors. It no longer waits.
fn answer_node<V: Variant>(arena: &mut Arena<V::Stats>, node: u32, reading: &V::Reading)
    requires
        arena_ok(*old(arena)),
        old(arena).is_live(node as int),
    ensures
        arena_ok(*final(arena)),
        arena_answered(*old(arena), *final(arena)),
        !pending(final(arena).nodes@[node as int].flags),
        primes_at::<V>(
            old(arena).nodes@[node as int].game,
            old(arena).nodes@[node as int].stats,
            *reading,
            final(arena).nodes@[node as int].stats,
        ),
        forall|i: int|
            0 <= i < old(arena).nodes@.len() && i != node ==> #[trigger] final(arena).nodes@[i]
                == old(arena).nodes@[i],
{
    let ghost a0 = *arena;
    let i: usize = node as usize;
    let flags: u8 = arena.nodes[i].flags;
    arena.nodes[i].flags = flags & !PENDING;
    proof {
        assert((flags & !1u8) & 1u8 == 0 && (flags & !1u8) & 2u8 == flags & 2u8) by (bit_vector);
    }
    let legal = masks(&arena.nodes[i].game);
    prime::<V>(&mut arena.nodes[i].stats, legal, reading);
    proof {
        lemma_answered(a0, *arena);
    }
}

/// A slot whose root may have had its answer.
pub open spec fn slot_answered<S, P>(before: Slot<S, P>, after: Slot<S, P>) -> bool {
    &&& after.root.key == before.root.key
    &&& after.root.game == before.root.game
    &&& after == (Slot { root: after.root, ..before })
}

/// Hand a root its priors, and its own noise, so that shared root states still diverge. It no
/// longer waits.
fn answer_root<V: Variant>(
    slot: &mut Slot<V::Stats, V::Prob>,
    reading: &V::Reading,
    params: &V::Params,
    rng: &mut Rng,
)
    ensures
        slot_answered(*old(slot), *final(slot)),
        slot_primed::<V>(
            *old(slot),
            *reading,
            *params,
            (*old(rng), *final(rng)),
            *final(slot),
        ),
{
    let ghost s0 = *slot;
    let ghost r0 = *rng;
    let legal = masks(&slot.root.game);
    prime::<V>(&mut slot.root.stats, legal, reading);
    let ghost mid = slot.root.stats;
    enroot::<V>(&mut slot.root.stats, legal, params, rng);
    slot.root.pending = false;
    proof {
        assert(primes_root_by::<V>(
            s0.root.game,
            (s0.root.stats, r0),
            *reading,
            *params,
            (slot.root.stats, *rng),
            legal,
            mid,
        ));
        assert(primes_root::<V>(
            s0.root.game,
            (s0.root.stats, r0),
            *reading,
            *params,
            (slot.root.stats, *rng),
        ));
    }
}

/// Is member `m` of a group in it only once?
pub open spec fn once(members: Seq<u16>, m: int) -> bool {
    forall|q: int| 0 <= q < members.len() && q != m ==> #[trigger] members[q] != members[m]
}

/// Member `m` of a group has had its answer, which takes the generator from `rngs[m]` to
/// `rngs[m + 1]`.
pub open spec fn member_primed<V: Variant>(
    before: Seq<Slot<V::Stats, V::Prob>>,
    members: Seq<u16>,
    reading: V::Reading,
    params: V::Params,
    after: Seq<Slot<V::Stats, V::Prob>>,
    rngs: Seq<Rng>,
    m: int,
) -> bool {
    slot_primed::<V>(
        before[members[m] as int],
        reading,
        params,
        (rngs[m], rngs[m + 1]),
        after[members[m] as int],
    )
}

/// The members of a group have had their answers, one after the other.
pub open spec fn group_primed<V: Variant>(
    before: Seq<Slot<V::Stats, V::Prob>>,
    members: Seq<u16>,
    reading: V::Reading,
    params: V::Params,
    after: Seq<Slot<V::Stats, V::Prob>>,
    rngs: Seq<Rng>,
) -> bool {
    &&& rngs.len() == members.len() + 1
    &&& forall|m: int|
        0 <= m < members.len() ==> #[trigger] member_primed::<V>(
            before,
            members,
            reading,
            params,
            after,
            rngs,
            m,
        )
}

/// What the answers of a group's members do depends on their slots alone.
proof fn lemma_group_same<V: Variant>(
    b0: Seq<Slot<V::Stats, V::Prob>>,
    a0: Seq<Slot<V::Stats, V::Prob>>,
    b1: Seq<Slot<V::Stats, V::Prob>>,
    a1: Seq<Slot<V::Stats, V::Prob>>,
    members: Seq<u16>,
    reading: V::Reading,
    params: V::Params,
    rngs: Seq<Rng>,
)
    requires
        group_primed::<V>(b0, members, reading, params, a0, rngs),
        forall|m: int|
            0 <= m < members.len() ==> b1[(#[trigger] members[m]) as int] == b0[members[m] as int]
                && a1[members[m] as int] == a0[members[m] as int],
    ensures
        group_primed::<V>(b1, members, reading, params, a1, rngs),
{
    assert forall|m: int| 0 <= m < members.len() implies #[trigger] member_primed::<V>(
        b1,
        members,
        reading,
        params,
        a1,
        rngs,
        m,
    ) by {
        assert(member_primed::<V>(b0, members, reading, params, a0, rngs, m));
        assert(b1[members[m] as int] == b0[members[m] as int]);
    }
}

/// Hand all games of a group their priors, in slot order.
fn answer_group<V: Variant>(
    slots: &mut Vec<Slot<V::Stats, V::Prob>>,
    members: &Vec<u16>,
    reading: &V::Reading,
    params: &V::Params,
    rng: &mut Rng,
)
    requires
        old(slots)@.len() <= 65536,
        forall|m: int|
            0 <= m < members@.len() ==> (#[trigger] members@[m]) < old(slots)@.len() && once(
                members@,
                m,
            ),
    ensures
        final(slots)@.len() == old(slots)@.len(),
        forall|j: int|
            0 <= j < old(slots)@.len() ==> slot_answered(
                old(slots)@[j],
                #[trigger] final(slots)@[j],
            ) && final(slots)@[j].root.pending == (old(slots)@[j].root.pending
                && !members@.contains(j as u16)),
        forall|j: int|
            0 <= j < old(slots)@.len() && !members@.contains(j as u16)
                ==> #[trigger] final(slots)@[j] == old(slots)@[j],
        exists|rngs: Seq<Rng>| #[trigger]
            group_primed::<V>(
                old(slots)@,
                members@,
                *reading,
                *params,
                final(slots)@,
                rngs,
            ) && rngs[0] == *old(rng) && rngs.last() == *final(rng),
{
    let ghost before = slots@;
    let ghost mut rngs: Seq<Rng> = seq![*rng];
    let mut m: usize = 0;
    while m < members.len()
        invariant
            m <= members@.len(),
            before == old(slots)@,
            before.len() <= 65536,
            slots@.len() == before.len(),
            forall|q: int|
                0 <= q < members@.len() ==> (#[trigger] members@[q]) < before.len() && once(
                    members@,
                    q,
                ),
            forall|j: int|
                0 <= j < before.len() ==> slot_answered(before[j], #[trigger] slots@[j])
                    && slots@[j].root.pending == (before[j].root.pending && !members@.take(
                    m as int,
                ).contains(j as u16)),
            forall|j: int|
                0 <= j < before.len() && !members@.take(m as int).contains(j as u16)
                    ==> #[trigger] slots@[j] == before[j],
            rngs.len() == m + 1,
            rngs[0] == *old(rng),
            rngs[m as int] == *rng,
            forall|q: int|
                0 <= q < m ==> #[trigger] member_primed::<V>(
                    before,
                    members@,
                    *reading,
                    *params,
                    slots@,
                    rngs,
                    q,
                ),
        decreases members@.len() - m,
    {
        let ghost here = slots@;
        let id: usize = members[m] as usize;
        assert(members@[m as int] < before.len());
        answer_root::<V>(&mut slots[id], reading, params, rng);
        proof {
            let t0 = members@.take(m as int);
            let t1 = members@.take(m as int + 1);
            assert(t1 =~= t0.push(members@[m as int]));
            assert forall|j: int| 0 <= j < before.len() implies slot_answered(
                before[j],
                #[trigger] slots@[j],
            ) && slots@[j].root.pending == (before[j].root.pending && !t1.contains(j as u16)) by {
                assert(slot_answered(before[j], here[j]));
                if j == id {
                    assert(t1[m as int] == j as u16);
                } else {
                    assert(slots@[j] == here[j]);
                    if t0.contains(j as u16) {
                        let q = t0.index_of(j as u16);
                        assert(t1[q] == j as u16);
                    }
                    if t1.contains(j as u16) {
                        let q = t1.index_of(j as u16);
                        assert(members@[q] == j as u16);
                        assert(members@[q] < before.len());
                        if q < m {
                            assert(t0[q] == j as u16);
                        }
                    }
                }
            }
            assert forall|j: int|
                0 <= j < before.len() && !t1.contains(j as u16) implies #[trigger] slots@[j]
                == before[j] by {
                assert(t1[m as int] != j as u16);
                if t0.contains(j as u16) {
                    let q = t0.index_of(j as u16);
                    assert(t1[q] == j as u16);
                }
                assert(here[j] == before[j]);
            }
            let past = rngs;
            rngs = rngs.push(*rng);
            assert forall|q: int| 0 <= q < m + 1 implies #[trigger] member_primed::<V>(
                before,
                members@,
                *reading,
                *params,
                slots@,
                rngs,
                q,
            ) by {
                assert(once(members@, q));
                assert(members@[q] < before.len());
                if q < m {
                    assert(member_primed::<V>(
                        before,
                        members@,
                        *reading,
                        *params,
                        here,
                        past,
                        q,
                    ));
                    assert(members@[m as int] != members@[q]);
                    assert(slots@[members@[q] as int] == here[members@[q] as int]);
                } else {
                    if t0.contains(members@[m as int]) {
                        let x = t0.index_of(members@[m as int]);
                        assert(members@[x] == members@[m as int]);
                    }
                    assert(here[id as int] == before[id as int]);
                }
            }
        }
        m = m + 1;
    }
    assert(members@.take(members@.len() as int) =~= members@);
    assert(group_primed::<V>(before, members@, *reading, *params, slots@, rngs));
}

/// Does game `j` wait on the root state of a row before `r`?
pub open spec fn answered_before(b: Buffer, r: int, j: int) -> bool {
    exists|q: int|
        0 <= q < r && root_row_of(#[trigger] b.targets@[q], b, j)
}

/// Is the row's target a group that game `j` is in?
pub open spec fn root_row_of(t: Target, b: Buffer, j: int) -> bool {
    t matches Target::Root(k) && b.groups@[k as int]@.contains(j as u16)
}

/// Is row `r` the only one for its node?
pub open spec fn node_once(b: Buffer, r: int) -> bool {
    &&& b.targets@[r] is Node
    &&& forall|q: int| 0 <= q < b.targets@.len() && q != r ==> #[trigger] b.targets@[q] != b.targets@[r]
}

/// The node of row `r` has its answer.
pub open spec fn node_answer<V: Variant>(
    b: Buffer,
    r: int,
    before: Arena<V::Stats>,
    readings: Seq<V::Reading>,
    after: Arena<V::Stats>,
) -> bool {
    let n = b.targets@[r]->Node_0 as int;
    primes_at::<V>(
        before.nodes@[n].game,
        before.nodes@[n].stats,
        readings[r],
        after.nodes@[n].stats,
    )
}

/// Is row `r` the only one for game `j`, and the game in its group only once?
pub open spec fn game_once(b: Buffer, r: int, j: int) -> bool {
    &&& b.targets@[r] matches Target::Root(k) && exists|m: int|
        0 <= m < b.groups@[k as int]@.len() && #[trigger] b.groups@[k as int]@[m] == j && once(
            b.groups@[k as int]@,
            m,
        )
    &&& forall|q: int|
        0 <= q < b.targets@.len() && q != r ==> !root_row_of(#[trigger] b.targets@[q], b, j)
}

/// Every node has one row, and every game is in one group, once.
pub open spec fn rows_once(b: Buffer, n: int) -> bool {
    &&& forall|r: int|
        0 <= r < b.targets@.len() && #[trigger] b.targets@[r] is Node ==> node_once(b, r)
    &&& forall|r: int, j: int|
        0 <= r < b.targets@.len() && 0 <= j < n && #[trigger] root_row_of(b.targets@[r], b, j)
            ==> game_once(b, r, j)
}

/// What row `r` does to the roots and the generator: the games of its group have their
/// answers, in slot order, between `rngs[r]` and `rngs[r + 1]`.
pub open spec fn row_primed<V: Variant>(
    b: Buffer,
    before: Seq<Slot<V::Stats, V::Prob>>,
    readings: Seq<V::Reading>,
    params: V::Params,
    after: Seq<Slot<V::Stats, V::Prob>>,
    rngs: Seq<Rng>,
    r: int,
) -> bool {
    match b.targets@[r] {
        Target::Node(_) => rngs[r + 1] == rngs[r],
        Target::Root(k) => exists|inner: Seq<Rng>| #[trigger]
            group_primed::<V>(
                before,
                b.groups@[k as int]@,
                readings[r],
                params,
                after,
                inner,
            ) && inner[0] == rngs[r] && inner.last() == rngs[r + 1],
    }
}

/// The roots that wait have their answers, in row order and then in slot order.
pub open spec fn rows_primed<V: Variant>(
    b: Buffer,
    before: Seq<Slot<V::Stats, V::Prob>>,
    readings: Seq<V::Reading>,
    params: V::Params,
    after: Seq<Slot<V::Stats, V::Prob>>,
    rngs: Seq<Rng>,
) -> bool {
    &&& rngs.len() == b.targets@.len() + 1
    &&& forall|r: int|
        0 <= r < b.targets@.len() ==> #[trigger] row_primed::<V>(
            b,
            before,
            readings,
            params,
            after,
            rngs,
            r,
        )
}

/// What a row did stands while the slots of its group do.
proof fn lemma_row_same<V: Variant>(
    b: Buffer,
    before: Seq<Slot<V::Stats, V::Prob>>,
    readings: Seq<V::Reading>,
    params: V::Params,
    a0: Seq<Slot<V::Stats, V::Prob>>,
    a1: Seq<Slot<V::Stats, V::Prob>>,
    rngs: Seq<Rng>,
    more: Seq<Rng>,
    r: int,
)
    requires
        row_primed::<V>(b, before, readings, params, a0, rngs, r),
        more[r] == rngs[r],
        more[r + 1] == rngs[r + 1],
        b.targets@[r] matches Target::Root(k) ==> forall|m: int|
            0 <= m < b.groups@[k as int]@.len() ==> a1[(
            #[trigger] b.groups@[k as int]@[m]) as int] == a0[b.groups@[k as int]@[m] as int],
    ensures
        row_primed::<V>(b, before, readings, params, a1, more, r),
{
    if let Target::Root(k) = b.targets@[r] {
        let members = b.groups@[k as int]@;
        let inner = choose|inner: Seq<Rng>| #[trigger]
            group_primed::<V>(before, members, readings[r], params, a0, inner) && inner[0]
                == rngs[r] && inner.last() == rngs[r + 1];
        lemma_group_same::<V>(
            before,
            a0,
            before,
            a1,
            members,
            readings[r],
            params,
            inner,
        );
    }
}

/// Write the model's output where it belongs and clear what waits. Returns the row of each
/// node that had one.
pub(crate) fn scatter<V: Variant>(
    slots: &mut Vec<Slot<V::Stats, V::Prob>>,
    arena: &mut Arena<V::Stats>,
    buffer: &Buffer,
    readings: &Vec<V::Reading>,
    params: &V::Params,
    rng: &mut Rng,
) -> (rows: HashMap<u32, usize>)
    requires
        old(slots)@.len() <= 65536,
        arena_ok(*old(arena)),
        readings@.len() >= buffer.targets@.len(),
        forall|r: int|
            0 <= r < buffer.targets@.len() ==> match #[trigger] buffer.targets@[r] {
                Target::Node(n) => old(arena).is_live(n as int),
                Target::Root(k) => k < buffer.groups@.len() && forall|m: int|
                    0 <= m < buffer.groups@[k as int]@.len() ==> (
                    #[trigger] buffer.groups@[k as int]@[m]) < old(slots)@.len(),
            },
        rows_once(*buffer, old(slots)@.len() as int),
    ensures
        arena_ok(*final(arena)),
        arena_answered(*old(arena), *final(arena)),
        forall|i: int|
            0 <= i < old(arena).nodes@.len() ==> pending((#[trigger] final(arena).nodes@[i]).flags)
                == (pending(old(arena).nodes@[i].flags) && !buffer.targets@.contains(
                Target::Node(i as u32),
            )),
        forall|i: int|
            0 <= i < old(arena).nodes@.len() && !buffer.targets@.contains(Target::Node(i as u32))
                ==> #[trigger] final(arena).nodes@[i] == old(arena).nodes@[i],
        final(slots)@.len() == old(slots)@.len(),
        forall|j: int|
            0 <= j < old(slots)@.len() ==> slot_answered(
                old(slots)@[j],
                #[trigger] final(slots)@[j],
            ) && final(slots)@[j].root.pending == (old(slots)@[j].root.pending
                && !answered_before(*buffer, buffer.targets@.len() as int, j)),
        forall|r: int|
            0 <= r < buffer.targets@.len() && #[trigger] buffer.targets@[r] is Node ==> node_answer::<V>(
                *buffer,
                r,
                *old(arena),
                readings@,
                *final(arena),
            ),
        forall|j: int|
            0 <= j < old(slots)@.len() && !answered_before(
                *buffer,
                buffer.targets@.len() as int,
                j,
            ) ==> #[trigger] final(slots)@[j] == old(slots)@[j],
        exists|rngs: Seq<Rng>| #[trigger]
            rows_primed::<V>(
                *buffer,
                old(slots)@,
                readings@,
                *params,
                final(slots)@,
                rngs,
            ) && rngs[0] == *old(rng) && rngs.last() == *final(rng),
        forall|n: u32| #[trigger]
            buffer.targets@.contains(Target::Node(n)) ==> rows@.contains_key(n),
        forall|n: u32| #[trigger]
            rows@.contains_key(n) ==> rows@[n] < buffer.targets@.len()
                && buffer.targets@[rows@[n] as int] == Target::Node(n),
{
    broadcast use vstd::std_specs::hash::group_hash_axioms;

    let ghost a0 = *arena;
    let ghost s0 = slots@;
    let ghost mut rngs: Seq<Rng> = seq![*rng];
    let mut rows: HashMap<u32, usize> = HashMap::new();
    let mut r: usize = 0;
    while r < buffer.targets.len()
        invariant
            r <= buffer.targets@.len() <= readings@.len(),
            s0 == old(slots)@,
            a0 == *old(arena),
            s0.len() <= 65536,
            arena_ok(a0),
            forall|q: int|
                0 <= q < buffer.targets@.len() ==> match #[trigger] buffer.targets@[q] {
                    Target::Node(n) => a0.is_live(n as int),
                    Target::Root(k) => k < buffer.groups@.len() && forall|m: int|
                        0 <= m < buffer.groups@[k as int]@.len() ==> (
                        #[trigger] buffer.groups@[k as int]@[m]) < s0.len(),
                },
            rows_once(*buffer, s0.len() as int),
            arena_ok(*arena),
            arena_answered(a0, *arena),
            forall|i: int|
                0 <= i < a0.nodes@.len() ==> pending((#[trigger] arena.nodes@[i]).flags) == (
                pending(a0.nodes@[i].flags) && !buffer.targets@.take(r as int).contains(
                    Target::Node(i as u32),
                )),
            forall|i: int|
                0 <= i < a0.nodes@.len() && !buffer.targets@.take(r as int).contains(
                    Target::Node(i as u32),
                ) ==> #[trigger] arena.nodes@[i] == a0.nodes@[i],
            slots@.len() == s0.len(),
            forall|j: int|
                0 <= j < s0.len() ==> slot_answered(s0[j], #[trigger] slots@[j])
                    && slots@[j].root.pending == (s0[j].root.pending && !answered_before(
                    *buffer,
                    r as int,
                    j,
                )),
            forall|q: int|
                0 <= q < r && #[trigger] buffer.targets@[q] is Node ==> node_answer::<V>(
                    *buffer,
                    q,
                    a0,
                    readings@,
                    *arena,
                ),
            forall|j: int|
                0 <= j < s0.len() && !answered_before(*buffer, r as int, j)
                    ==> #[trigger] slots@[j] == s0[j],
            rngs.len() == r + 1,
            rngs[0] == *old(rng),
            rngs[r as int] == *rng,
            forall|q: int|
                0 <= q < r ==> #[trigger] row_primed::<V>(
                    *buffer,
                    s0,
                    readings@,
                    *params,
                    slots@,
                    rngs,
                    q,
                ),
            forall|n: u32| #[trigger]
                buffer.targets@.take(r as int).contains(Target::Node(n)) ==> rows@.contains_key(n),
            forall|n: u32| #[trigger]
                rows@.contains_key(n) ==> rows@[n] < buffer.targets@.len()
                    && buffer.targets@[rows@[n] as int] == Target::Node(n),
        decreases buffer.targets@.len() - r,
    {
        let ghost a1 = *arena;
        let ghost s1 = slots@;
        let ghost t0 = buffer.targets@.take(r as int);
        let ghost t1 = buffer.targets@.take(r as int + 1);
        let ghost here = buffer.targets@[r as int];
        proof {
            lemma_take_push(buffer.targets@, r as int);
            lemma_answered(a0, a1);
        }
        match buffer.targets[r] {
            Target::Node(n) => {
                assert(a0.is_live(n as int));
                answer_node::<V>(arena, n, &readings[r]);
                rows.insert(n, r);
                proof {
                    assert forall|i: int| 0 <= i < a0.nodes@.len() implies node_answered(
                        #[trigger] a0.nodes@[i],
                        arena.nodes@[i],
                    ) by {
                        assert(node_answered(a0.nodes@[i], a1.nodes@[i]));
                        assert(node_answered(a1.nodes@[i], arena.nodes@[i]));
                    }
                    assert forall|i: int| 0 <= i < a0.nodes@.len() implies pending(
                        (#[trigger] arena.nodes@[i]).flags,
                    ) == (pending(a0.nodes@[i].flags) && !t1.contains(Target::Node(i as u32))) by {
                        assert(pending(a1.nodes@[i].flags) == (pending(a0.nodes@[i].flags)
                            && !t0.contains(Target::Node(i as u32))));
                        if i != n {
                            assert(arena.nodes@[i] == a1.nodes@[i]);
                        }
                    }
                    lemma_answers_on(*buffer, r as int);
                    assert forall|q: int|
                        0 <= q < r + 1 && #[trigger] buffer.targets@[q] is Node implies node_answer::<V>(
                        *buffer,
                        q,
                        a0,
                        readings@,
                        *arena,
                    ) by {
                        if q < r {
                            assert(buffer.targets@[r as int] != buffer.targets@[q]);
                            let m = buffer.targets@[q]->Node_0;
                            assert(node_answer::<V>(*buffer, q, a0, readings@, a1));
                            assert(a0.is_live(m as int));
                            assert(arena.nodes@[m as int] == a1.nodes@[m as int]);
                        } else {
                            if t0.contains(here) {
                                let x = t0.index_of(here);
                                assert(buffer.targets@[x] == here);
                            }
                            assert(a1.nodes@[n as int] == a0.nodes@[n as int]);
                        }
                    }
                    let past = rngs;
                    rngs = rngs.push(*rng);
                    assert forall|q: int| 0 <= q < r + 1 implies #[trigger] row_primed::<V>(
                        *buffer,
                        s0,
                        readings@,
                        *params,
                        slots@,
                        rngs,
                        q,
                    ) by {
                        if q < r {
                            lemma_row_same::<V>(
                                *buffer,
                                s0,
                                readings@,
                                *params,
                                s1,
                                slots@,
                                past,
                                rngs,
                                q,
                            );
                        }
                    }
                }
            },
            Target::Root(k) => {
                proof {
                    lemma_members_once(*buffer, s0.len() as int, r as int);
                }
                answer_group::<V>(slots, &buffer.groups[k], &readings[r], params, rng);
                proof {
                    lemma_answers_on(*buffer, r as int);
                    assert forall|j: int| 0 <= j < s0.len() implies slot_answered(
                        s0[j],
                        #[trigger] slots@[j],
                    ) && slots@[j].root.pending == (s0[j].root.pending && !answered_before(
                        *buffer,
                        r as int + 1,
                        j,
                    )) by {
                        assert(slot_answered(s0[j], s1[j]));
                        assert(slot_answered(s1[j], slots@[j]));
                        assert(answered_before(*buffer, r as int + 1, j) <==> answered_before(
                            *buffer,
                            r as int,
                            j,
                        ) || root_row_of(buffer.targets@[r as int], *buffer, j));
                    }
                    assert forall|j: int|
                        0 <= j < s0.len() && !answered_before(
                            *buffer,
                            r as int + 1,
                            j,
                        ) implies #[trigger] slots@[j] == s0[j] by {
                        assert(s1[j] == s0[j]);
                    }
                    let past = rngs;
                    rngs = rngs.push(*rng);
                    let members = buffer.groups@[k as int]@;
                    let inner = choose|inner: Seq<Rng>| #[trigger]
                        group_primed::<V>(
                            s1,
                            members,
                            readings@[r as int],
                            *params,
                            slots@,
                            inner,
                        ) && inner[0] == past[r as int] && inner.last() == *rng;
                    assert forall|m: int| 0 <= m < members.len() implies s0[(
                    #[trigger] members[m]) as int] == s1[members[m] as int] by {
                        let j = members[m] as int;
                        assert(members.contains(j as u16));
                        assert(root_row_of(buffer.targets@[r as int], *buffer, j));
                        assert(game_once(*buffer, r as int, j));
                        assert(!answered_before(*buffer, r as int, j)) by {
                            if answered_before(*buffer, r as int, j) {
                                let x = choose|x: int|
                                    0 <= x < r && root_row_of(
                                        #[trigger] buffer.targets@[x],
                                        *buffer,
                                        j,
                                    );
                                assert(!root_row_of(buffer.targets@[x], *buffer, j));
                            }
                        }
                    }
                    lemma_group_same::<V>(
                        s1,
                        slots@,
                        s0,
                        slots@,
                        members,
                        readings@[r as int],
                        *params,
                        inner,
                    );
                    assert forall|q: int| 0 <= q < r + 1 implies #[trigger] row_primed::<V>(
                        *buffer,
                        s0,
                        readings@,
                        *params,
                        slots@,
                        rngs,
                        q,
                    ) by {
                        if q < r {
                            assert(row_primed::<V>(
                                *buffer,
                                s0,
                                readings@,
                                *params,
                                s1,
                                past,
                                q,
                            ));
                            if let Target::Root(k2) = buffer.targets@[q] {
                                let others = buffer.groups@[k2 as int]@;
                                assert forall|m: int| 0 <= m < others.len() implies slots@[(
                                #[trigger] others[m]) as int] == s1[others[m] as int] by {
                                    let j = others[m] as int;
                                    assert(others.contains(j as u16));
                                    assert(root_row_of(buffer.targets@[q], *buffer, j));
                                    assert(game_once(*buffer, q, j));
                                    assert(!root_row_of(buffer.targets@[r as int], *buffer, j));
                                    assert(!members.contains(j as u16));
                                }
                            }
                            lemma_row_same::<V>(
                                *buffer,
                                s0,
                                readings@,
                                *params,
                                s1,
                                slots@,
                                past,
                                rngs,
                                q,
                            );
                        }
                    }
                    assert forall|q: int|
                        0 <= q < r + 1 && #[trigger] buffer.targets@[q] is Node implies node_answer::<V>(
                        *buffer,
                        q,
                        a0,
                        readings@,
                        *arena,
                    ) by {
                        assert(q != r);
                    }
                }
            },
        }
        r = r + 1;
    }
    assert(buffer.targets@.take(buffer.targets@.len() as int) =~= buffer.targets@);
    assert(rows_primed::<V>(*buffer, s0, readings@, *params, slots@, rngs));
    rows
}

/// The members of a row's group are in it once each.
proof fn lemma_members_once(b: Buffer, n: int, r: int)
    requires
        0 <= r < b.targets@.len(),
        b.targets@[r] is Root,
        n <= 65536,
        rows_once(b, n),
        forall|m: int|
            0 <= m < b.groups@[b.targets@[r]->Root_0 as int]@.len() ==> (
            #[trigger] b.groups@[b.targets@[r]->Root_0 as int]@[m]) < n,
    ensures
        forall|m: int|
            0 <= m < b.groups@[b.targets@[r]->Root_0 as int]@.len() ==> once(
                b.groups@[b.targets@[r]->Root_0 as int]@,
                m,
            ),
{
    let members = b.groups@[b.targets@[r]->Root_0 as int]@;
    assert forall|m: int| 0 <= m < members.len() implies once(members, m) by {
        let j = members[m] as int;
        assert(members.contains(j as u16));
        assert(root_row_of(b.targets@[r], b, j));
        assert(game_once(b, r, j));
        let x = choose|x: int|
            0 <= x < members.len() && #[trigger] members[x] == j && once(members, x);
        if x != m {
            assert(members[m] != members[x]);
        }
    }
}

/// One more row.
proof fn lemma_take_push(t: Seq<Target>, r: int)
    requires
        0 <= r < t.len(),
    ensures
        forall|x: Target| #[trigger]
            t.take(r + 1).contains(x) <==> t.take(r).contains(x) || x == t[r],
{
    let a = t.take(r);
    let b = t.take(r + 1);
    assert forall|x: Target| #[trigger] b.contains(x) <==> a.contains(x) || x == t[r] by {
        if a.contains(x) {
            let q = a.index_of(x);
            assert(b[q] == x);
        }
        if x == t[r] {
            assert(b[r] == x);
        }
        if b.contains(x) && x != t[r] {
            let q = b.index_of(x);
            assert(a[q] == x);
        }
    }
}

/// One more row, for the games.
proof fn lemma_answers_on(b: Buffer, r: int)
    requires
        0 <= r < b.targets@.len(),
    ensures
        forall|j: int| #[trigger]
            answered_before(b, r + 1, j) <==> answered_before(b, r, j) || root_row_of(
                b.targets@[r],
                b,
                j,
            ),
{
    assert forall|j: int| #[trigger] answered_before(b, r + 1, j) <==> answered_before(b, r, j)
        || root_row_of(b.targets@[r], b, j) by {
        if answered_before(b, r, j) {
            let q = choose|q: int| 0 <= q < r && root_row_of(#[trigger] b.targets@[q], b, j);
            assert(0 <= q < r + 1 && root_row_of(b.targets@[q], b, j));
        }
    }
}

/// The nodes of a slot's path are there.
pub open spec fn path_live<S, P>(s: Slot<S, P>, a: Arena<S>) -> bool {
    forall|k: int|
        0 <= k < s.path.steps@.len() ==> {
            let n = (#[trigger] s.path.steps@[k]).node;
            n == ROOT || a.is_live(n as int)
        }
}

/// A slot whose simulation may have been backed up.
pub open spec fn slot_backed<S, P>(before: Slot<S, P>, after: Slot<S, P>) -> bool {
    &&& root_same_but_stats(before.root, after.root)
    &&& after.waiting_on is None
    &&& after.path.steps@.len() == 0
    &&& after.sim_count == before.sim_count + (if before.waiting_on is Some {
        1int
    } else {
        0
    })
    &&& after.occupied == before.occupied
    &&& after.game_over == before.game_over
    &&& after.descents == before.descents
    &&& after.last_depth == before.last_depth
}

/// What the model says of the node that game waits on, backed up along its path; a game that
/// does not wait is left alone.
pub open spec fn waiter_backed<V: Variant>(
    before: Slot<V::Stats, V::Prob>,
    a: Arena<V::Stats>,
    readings: Seq<V::Reading>,
    rows: Map<u32, usize>,
    params: V::Params,
    after: Slot<V::Stats, V::Prob>,
    b: Arena<V::Stats>,
) -> bool {
    match before.waiting_on {
        Some(n) => exists|value: V::Value| #[trigger]
            call_ensures(V::value, (&readings[rows[n] as int],), value) && backs_up::<V>(
                before.root,
                a,
                before.path.steps@,
                value,
                params,
                stats_of(before.root, a),
                stats_of(after.root, b),
            ),
        None => after == before && b == a,
    }
}

/// The games backed up one after the other, by way of `arenas`.
pub open spec fn waiters_backed<V: Variant>(
    before: Seq<Slot<V::Stats, V::Prob>>,
    readings: Seq<V::Reading>,
    rows: Map<u32, usize>,
    params: V::Params,
    after: Seq<Slot<V::Stats, V::Prob>>,
    arenas: Seq<Arena<V::Stats>>,
) -> bool {
    &&& arenas.len() == before.len() + 1
    &&& forall|j: int|
        0 <= j < before.len() ==> #[trigger] waiter_backed_at::<V>(
            before,
            readings,
            rows,
            params,
            after,
            arenas,
            j,
        )
}

/// Game `j` backed up between `arenas[j]` and `arenas[j + 1]`.
pub open spec fn waiter_backed_at<V: Variant>(
    before: Seq<Slot<V::Stats, V::Prob>>,
    readings: Seq<V::Reading>,
    rows: Map<u32, usize>,
    params: V::Params,
    after: Seq<Slot<V::Stats, V::Prob>>,
    arenas: Seq<Arena<V::Stats>>,
    j: int,
) -> bool {
    waiter_backed::<V>(before[j], arenas[j], readings, rows, params, after[j], arenas[j + 1])
}

/// Back up every game that waited, with what the model says of the node it waited on.
pub(crate) fn back_up_waiters<V: Variant>(
    slots: &mut Vec<Slot<V::Stats, V::Prob>>,
    arena: &mut Arena<V::Stats>,
    readings: &Vec<V::Reading>,
    rows: &HashMap<u32, usize>,
    params: &V::Params,
)
    requires
        arena_ok(*old(arena)),
        forall|j: int|
            0 <= j < old(slots)@.len() ==> {
                let s = #[trigger] old(slots)@[j];
                &&& root_ok(s.root)
                &&& path_live(s, *old(arena))
                &&& s.waiting_on is None ==> s.path.steps@.len() == 0
                &&& s.waiting_on matches Some(n) ==> rows@.contains_key(n) && rows@[n]
                    < readings@.len() && s.sim_count < u32::MAX
            },
    ensures
        arena_ok(*final(arena)),
        arena_same_but_stats(*old(arena), *final(arena)),
        final(slots)@.len() == old(slots)@.len(),
        forall|j: int|
            0 <= j < old(slots)@.len() ==> slot_backed(old(slots)@[j], #[trigger] final(slots)@[j]),
        exists|arenas: Seq<Arena<V::Stats>>| #[trigger]
            waiters_backed::<V>(
                old(slots)@,
                readings@,
                rows@,
                *params,
                final(slots)@,
                arenas,
            ) && arenas[0] == *old(arena) && arenas.last() == *final(arena),
{
    broadcast use vstd::std_specs::hash::group_hash_axioms;

    let ghost a0 = *arena;
    let ghost s0 = slots@;
    let ghost mut arenas: Seq<Arena<V::Stats>> = seq![a0];
    let mut i: usize = 0;
    while i < slots.len()
        invariant
            i <= slots@.len(),
            arenas.len() == i + 1,
            arenas[0] == a0,
            arenas[i as int] == *arena,
            forall|j: int|
                0 <= j < i ==> #[trigger] waiter_backed_at::<V>(
                    s0,
                    readings@,
                    rows@,
                    *params,
                    slots@,
                    arenas,
                    j,
                ),
            s0 == old(slots)@,
            a0 == *old(arena),
            slots@.len() == s0.len(),
            arena_ok(a0),
            arena_ok(*arena),
            arena_same_but_stats(a0, *arena),
            forall|j: int|
                0 <= j < s0.len() ==> {
                    let s = #[trigger] s0[j];
                    &&& root_ok(s.root)
                    &&& path_live(s, a0)
                    &&& s.waiting_on is None ==> s.path.steps@.len() == 0
                    &&& s.waiting_on matches Some(n) ==> rows@.contains_key(n) && rows@[n]
                        < readings@.len() && s.sim_count < u32::MAX
                },
            forall|j: int| 0 <= j < i ==> slot_backed(s0[j], #[trigger] slots@[j]),
            forall|j: int| i <= j < s0.len() ==> #[trigger] slots@[j] == s0[j],
        decreases slots@.len() - i,
    {
        let ghost here = slots@;
        let ghost a1 = *arena;
        assert(slots@[i as int] == s0[i as int]);
        if let Some(node) = slots[i].waiting_on {
            if let Some(row) = rows.get(&node) {
                assert(path_live(s0[i as int], *arena)) by {
                    assert forall|k: int|
                        0 <= k < s0[i as int].path.steps@.len() implies {
                        let n = (#[trigger] s0[i as int].path.steps@[k]).node;
                        n == ROOT || arena.is_live(n as int)
                    } by {
                        let n = s0[i as int].path.steps@[k].node;
                        assert(n == ROOT || a0.is_live(n as int));
                    }
                }
                let value = V::value(&readings[*row]);
                back_up::<V>(&mut slots[i], arena, value, params);
                proof {
                    assert forall|j: int| 0 <= j < a0.nodes@.len() implies same_but_stats(
                        #[trigger] a0.nodes@[j],
                        arena.nodes@[j],
                    ) by {
                        assert(same_but_stats(a0.nodes@[j], a1.nodes@[j]));
                        assert(same_but_stats(a1.nodes@[j], arena.nodes@[j]));
                    }
                }
            }
        }
        proof {
            assert forall|j: int| 0 <= j < i + 1 implies slot_backed(
                s0[j],
                #[trigger] slots@[j],
            ) by {
                if j < i {
                    assert(slots@[j] == here[j]);
                }
            }
            assert forall|j: int| i + 1 <= j < s0.len() implies #[trigger] slots@[j] == s0[j] by {
                assert(here[j] == s0[j]);
            }
            let before = arenas;
            arenas = arenas.push(*arena);
            assert forall|j: int| 0 <= j < i + 1 implies #[trigger] waiter_backed_at::<V>(
                s0,
                readings@,
                rows@,
                *params,
                slots@,
                arenas,
                j,
            ) by {
                if j < i {
                    assert(waiter_backed_at::<V>(
                        s0,
                        readings@,
                        rows@,
                        *params,
                        here,
                        before,
                        j,
                    ));
                    assert(slots@[j] == here[j]);
                }
            }
        }
        i = i + 1;
    }
    assert(waiters_backed::<V>(s0, readings@, rows@, *params, slots@, arenas));
}

} // verus!
