//! How long nodes live, counted in the sweeps they survive.
use vstd::prelude::*;

use crate::mcts::arena::Arena;
use crate::mcts::slot::Slot;
use crate::mcts::sweep::{swept, swept_at};
use crate::sums::{lemma_sum_le, sum_to, unit};

verus! {

/// Is there a node of this age in slot `i`?
pub open spec fn of_age<S>(a: Arena<S>, age: int, i: int) -> bool {
    a.is_live(i) && a.nodes@[i].sweep_age == age
}

/// How many nodes of an age there are in the first `n` slots.
pub open spec fn age_count<S>(a: Arena<S>, age: int, n: nat) -> int {
    sum_to(|i: int| unit(of_age(a, age, i)), n)
}

/// How many nodes there are of each age below `buckets`.
pub fn age_histogram<S>(arena: &Arena<S>, buckets: usize) -> (counts: Vec<usize>)
    requires
        arena.wf(),
        forall|i: int| #[trigger] arena.is_live(i) ==> arena.nodes@[i].id_count > 0,
    ensures
        counts@.len() == buckets,
        forall|age: int|
            0 <= age < buckets ==> #[trigger] counts@[age] == age_count(
                *arena,
                age,
                arena.nodes@.len(),
            ),
{
    let mut counts: Vec<usize> = Vec::new();
    let mut k: usize = 0;
    while k < buckets
        invariant
            k <= buckets,
            counts@.len() == k,
            forall|age: int| 0 <= age < k ==> #[trigger] counts@[age] == 0,
        decreases buckets - k,
    {
        counts.push(0);
        k = k + 1;
    }
    let mut i: usize = 0;
    while i < arena.nodes.len()
        invariant
            i <= arena.nodes@.len(),
            arena.wf(),
            forall|j: int| #[trigger] arena.is_live(j) ==> arena.nodes@[j].id_count > 0,
            counts@.len() == buckets,
            forall|age: int|
                0 <= age < buckets ==> #[trigger] counts@[age] == age_count(*arena, age, i as nat)
                    && counts@[age] <= i,
        decreases arena.nodes@.len() - i,
    {
        let ghost before = counts@;
        let age: u32 = arena.nodes[i].sweep_age;
        assert(arena.is_live(i as int) <==> arena.nodes@[i as int].id_count > 0) by {
            if !arena.is_live(i as int) {
                assert(arena.nodes@[i as int].id_count == 0);
            }
        }
        if arena.nodes[i].id_count > 0 && (age as usize) < buckets {
            let at: usize = age as usize;
            assert(counts@[at as int] <= i);
            let v: usize = counts[at] + 1;
            counts.set(at, v);
        }
        assert forall|a: int| 0 <= a < buckets implies #[trigger] counts@[a] == age_count(
            *arena,
            a,
            i as nat + 1,
        ) && counts@[a] <= i + 1 by {
            let f = |j: int| unit(of_age(*arena, a, j));
            assert(before[a] == age_count(*arena, a, i as nat));
            assert(age_count(*arena, a, i as nat + 1) == age_count(*arena, a, i as nat) + f(
                i as int,
            ));
        }
        i = i + 1;
    }
    counts
}

/// How many nodes of each age a sweep removed, from how many there were of each age before it
/// and after it: those of an age that did not come to be of the next. `None` where there are
/// more survivors than nodes.
pub fn deaths(before: &Vec<usize>, survivors: &Vec<usize>) -> (r: Option<Vec<usize>>)
    requires
        survivors@.len() == before@.len() + 1,
    ensures
        r is Some <==> forall|age: int|
            0 <= age < before@.len() ==> survivors@[age + 1] <= #[trigger] before@[age],
        r matches Some(dead) ==> dead@.len() == before@.len() && forall|age: int|
            0 <= age < before@.len() ==> #[trigger] dead@[age] == before@[age] - survivors@[age
                + 1],
{
    let mut dead: Vec<usize> = Vec::new();
    let mut age: usize = 0;
    while age < before.len()
        invariant
            age <= before@.len(),
            survivors@.len() == before@.len() + 1,
            dead@.len() == age,
            forall|a: int|
                0 <= a < age ==> survivors@[a + 1] <= #[trigger] before@[a] && dead@[a]
                    == before@[a] - survivors@[a + 1],
        decreases before@.len() - age,
    {
        let size: usize = survivors.len();
        assert(age + 1 < size);
        if survivors[age + 1] > before[age] {
            assert(survivors@[age + 1] > before@[age as int]);
            return None;
        }
        dead.push(before[age] - survivors[age + 1]);
        age = age + 1;
    }
    Some(dead)
}

/// Lifetimes add up: after a sweep there are no more nodes of an age than there were of the
/// age before, so the difference counts the nodes of that age that were removed.
pub proof fn lemma_survivors<S, P>(
    slots: Seq<Slot<S, P>>,
    stepping: Seq<bool>,
    finished: Seq<bool>,
    before: Arena<S>,
    after: Arena<S>,
    age: int,
)
    requires
        swept(slots, stepping, finished, before, after),
        0 <= age,
        age + 1 < u32::MAX,
    ensures
        age_count(after, age + 1, after.nodes@.len()) <= age_count(
            before,
            age,
            before.nodes@.len(),
        ),
        age_count(after, 0, after.nodes@.len()) == 0,
{
    let n = before.nodes@.len();
    let f = |i: int| unit(of_age(after, age + 1, i));
    let g = |i: int| unit(of_age(before, age, i));
    assert forall|i: int| 0 <= i < n implies #[trigger] f(i) <= g(i) by {
        assert(swept_at(slots, stepping, finished, before, after, i));
    }
    lemma_sum_le(f, g, n);
    let z = |i: int| unit(of_age(after, 0, i));
    let none = |i: int| 0int;
    assert forall|i: int| 0 <= i < n implies #[trigger] z(i) <= none(i) by {
        assert(swept_at(slots, stepping, finished, before, after, i));
    }
    lemma_sum_le(z, none, n);
    lemma_zero(none, n);
    crate::sums::lemma_sum_nonneg(z, n);
}

proof fn lemma_zero(f: spec_fn(int) -> int, n: nat)
    requires
        forall|i: int| 0 <= i < n ==> #[trigger] f(i) == 0,
    ensures
        sum_to(f, n) == 0,
    decreases n,
{
    if n > 0 {
        lemma_zero(f, (n - 1) as nat);
        assert(f(n - 1) == 0);
    }
}

} // verus!
