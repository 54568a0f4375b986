//! Collecting the connected components of a player's marks.
use vstd::prelude::*;

use crate::board::{mark, nb, step, HW};
use crate::levels::lemma_pigeon;
use crate::repair::closed_list;
use crate::scratch::{Buffer, Scratch};
use crate::sums::{lemma_sum_change, lemma_sum_eq, sum_to, unit};

verus! {

/// A mark of `p` next to a member is a member.
pub open spec fn closed_set(cells: Seq<i8>, p: i8, k: Set<int>) -> bool {
    forall|x: int, d: int|
        0 <= d < 4 && 0 <= x < HW && k.contains(x) && mark(cells, p, #[trigger] nb(x, d))
            ==> k.contains(nb(x, d))
}

/// `out` lists each of its cells once, all of them marks of `p`, and the scratch memory has
/// visited exactly those.
pub open spec fn collected(cells: Seq<i8>, p: i8, visited: Set<int>, out: Seq<u16>) -> bool {
    &&& out.no_duplicates()
    &&& forall|j: int| 0 <= j < out.len() ==> mark(cells, p, (#[trigger] out[j]) as int)
    &&& forall|x: int| 0 <= x < HW ==> (#[trigger] visited.contains(x) <==> out.contains(x as u16))
}

/// The cells of `out` are all in `k`.
pub open spec fn within(out: Seq<u16>, k: Set<int>) -> bool {
    forall|j: int| 0 <= j < out.len() ==> k.contains((#[trigger] out[j]) as int)
}

/// Every listed cell not on the stack has its neighbours listed; the current cell's first
/// `d` are.
spec fn walking(cells: Seq<i8>, p: i8, out: Seq<u16>, stack: Seq<u16>, x: int, d: int) -> bool {
    &&& forall|j: int| 0 <= j < stack.len() ==> out.contains(#[trigger] stack[j])
    &&& forall|y: int, e: int|
        0 <= e < 4 && mark(cells, p, y) && out.contains(y as u16) && mark(
            cells,
            p,
            #[trigger] nb(y, e),
        ) && !stack.contains(y as u16) && (y != x || e < d) ==> out.contains(nb(y, e) as u16)
}

/// The component of a mark: the cells that every set of marks closed under stepping from mark
/// to mark has, if it has `i`.
pub open spec fn component(cells: Seq<i8>, p: i8, i: int) -> Set<int> {
    Set::new(
        |x: int|
            0 <= x < HW && forall|k: Set<int>| #[trigger]
                closed_set(cells, p, k) && k.contains(i) ==> k.contains(x),
    )
}

/// A component is closed, and holds the cell it is the component of.
pub proof fn lemma_component(cells: Seq<i8>, p: i8, i: int)
    requires
        0 <= i < HW,
    ensures
        closed_set(cells, p, component(cells, p, i)),
        component(cells, p, i).contains(i),
{
    let c = component(cells, p, i);
    assert forall|x: int, d: int|
        0 <= d < 4 && 0 <= x < HW && c.contains(x) && mark(cells, p, #[trigger] nb(x, d)) implies c.contains(
        nb(x, d),
    ) by {
        assert forall|k: Set<int>| #[trigger]
            closed_set(cells, p, k) && k.contains(i) implies k.contains(nb(x, d)) by {
            assert(k.contains(x));
        }
    }
}

/// What a walk from `seed` adds is the component of `seed`.
pub proof fn lemma_walk_adds(cells: Seq<i8>, p: i8, seed: int, before: Seq<u16>, after: Seq<u16>)
    requires
        cells.len() == HW,
        mark(cells, p, seed),
        closed_list(cells, p, before),
        closed_list(cells, p, after),
        forall|j: int| 0 <= j < before.len() ==> mark(cells, p, (#[trigger] before[j]) as int),
        forall|j: int| 0 <= j < after.len() ==> mark(cells, p, (#[trigger] after[j]) as int),
        forall|c: u16| #[trigger] before.contains(c) ==> after.contains(c),
        after.contains(seed as u16),
        forall|k: Set<int>| #[trigger]
            closed_set(cells, p, k) && within(before, k) && k.contains(seed) ==> within(after, k),
    ensures
        forall|x: int|
            0 <= x < HW ==> (#[trigger] after.contains(x as u16) <==> before.contains(x as u16)
                || component(cells, p, seed).contains(x)),
{
    let c = component(cells, p, seed);
    lemma_component(cells, p, seed);
    let whole = Set::new(|x: int| 0 <= x < HW && after.contains(x as u16));
    assert forall|x: int, d: int|
        0 <= d < 4 && 0 <= x < HW && whole.contains(x) && mark(
            cells,
            p,
            #[trigger] nb(x, d),
        ) implies whole.contains(nb(x, d)) by {
        let j = after.index_of(x as u16);
        assert(mark(cells, p, after[j] as int));
    }
    assert(closed_set(cells, p, whole));
    let both = Set::new(|x: int| 0 <= x < HW && (before.contains(x as u16) || c.contains(x)));
    assert forall|x: int, d: int|
        0 <= d < 4 && 0 <= x < HW && both.contains(x) && mark(
            cells,
            p,
            #[trigger] nb(x, d),
        ) implies both.contains(nb(x, d)) by {
        if before.contains(x as u16) {
            let j = before.index_of(x as u16);
            assert(mark(cells, p, before[j] as int));
        }
    }
    assert(closed_set(cells, p, both));
    assert(within(before, both)) by {
        assert forall|j: int| 0 <= j < before.len() implies both.contains(
            (#[trigger] before[j]) as int,
        ) by {
            assert(mark(cells, p, before[j] as int));
            assert(before.contains(before[j]));
        }
    }
    assert(within(after, both));
    assert forall|x: int| 0 <= x < HW implies (#[trigger] after.contains(x as u16)
        <==> before.contains(x as u16) || c.contains(x)) by {
        if after.contains(x as u16) {
            let j = after.index_of(x as u16);
            assert(both.contains(after[j] as int));
        }
        if c.contains(x) {
            assert(whole.contains(x));
        }
    }
}

/// How many cells of the board are in the set.
pub open spec fn cells_in(k: Set<int>) -> int {
    sum_to(|x: int| unit(k.contains(x)), HW as nat)
}

/// A list without repetitions is as long as the cells in it are many.
pub proof fn lemma_cells_in(out: Seq<u16>, k: Set<int>)
    requires
        out.no_duplicates(),
        forall|j: int| 0 <= j < out.len() ==> (#[trigger] out[j]) < HW,
        forall|x: int| 0 <= x < HW ==> (#[trigger] k.contains(x) <==> out.contains(x as u16)),
    ensures
        out.len() == cells_in(k),
    decreases out.len(),
{
    let f = |x: int| unit(k.contains(x));
    if out.len() == 0 {
        let z = |x: int| 0int;
        lemma_sum_eq(f, z, HW as nat);
        lemma_sum_zero(HW as nat);
    } else {
        let last = out.last();
        let rest = out.drop_last();
        let m = k.remove(last as int);
        let g = |x: int| unit(m.contains(x));
        assert(out[out.len() - 1] == last);
        assert forall|x: int| 0 <= x < HW implies (#[trigger] m.contains(x) <==> rest.contains(
            x as u16,
        )) by {
            if rest.contains(x as u16) {
                let j = rest.index_of(x as u16);
                assert(out[j] == x as u16);
                assert(out.contains(x as u16));
                assert(k.contains(x));
                assert(x != last);
            }
            if m.contains(x) {
                assert(k.contains(x));
                let j = out.index_of(x as u16);
                assert(out[j] == x as u16);
                assert(j != out.len() - 1);
                assert(rest[j] == x as u16);
            }
        }
        assert forall|j: int| 0 <= j < rest.len() implies (#[trigger] rest[j]) < HW by {
            assert(rest[j] == out[j]);
        }
        lemma_cells_in(rest, m);
        assert(k.contains(last as int)) by {
            assert(out.contains(last));
        }
        lemma_sum_change(g, f, HW as nat, last as int);
    }
}

/// How many of the first `n` entries of a list are in the set.
pub open spec fn listed_in(list: Seq<u16>, k: Set<int>, n: nat) -> int
    decreases n,
{
    if n == 0 {
        0
    } else {
        listed_in(list, k, (n - 1) as nat) + unit(k.contains(list[n - 1] as int))
    }
}

/// In a list without repetitions each cell counts once.
pub proof fn lemma_listed_in(list: Seq<u16>, k: Set<int>, n: nat)
    requires
        n <= list.len(),
        list.no_duplicates(),
        forall|j: int| 0 <= j < list.len() ==> (#[trigger] list[j]) < HW,
    ensures
        listed_in(list, k, n) == cells_in(
            Set::new(|x: int| k.contains(x) && list.take(n as int).contains(x as u16) && 0 <= x < HW),
        ),
    decreases n,
{
    let m = Set::new(
        |x: int| k.contains(x) && list.take(n as int).contains(x as u16) && 0 <= x < HW,
    );
    let f = |x: int| unit(m.contains(x));
    if n == 0 {
        let z = |x: int| 0int;
        assert forall|x: int| 0 <= x < HW implies #[trigger] f(x) == z(x) by {
            assert(!list.take(0).contains(x as u16));
        }
        lemma_sum_eq(f, z, HW as nat);
        lemma_sum_zero(HW as nat);
    } else {
        lemma_listed_in(list, k, (n - 1) as nat);
        let m0 = Set::new(
            |x: int| k.contains(x) && list.take(n - 1).contains(x as u16) && 0 <= x < HW,
        );
        let g = |x: int| unit(m0.contains(x));
        let last = list[n - 1];
        assert(list.take(n as int)[n - 1] == last);
        assert forall|x: int| 0 <= x < HW && x != last implies #[trigger] g(x) == f(x) by {
            if list.take(n as int).contains(x as u16) {
                let j = list.take(n as int).index_of(x as u16);
                assert(list[j] == x as u16);
                assert(list.take(n - 1)[j] == x as u16);
            }
            if list.take(n - 1).contains(x as u16) {
                let j = list.take(n - 1).index_of(x as u16);
                assert(list.take(n as int)[j] == x as u16);
            }
        }
        assert(!m0.contains(last as int)) by {
            if list.take(n - 1).contains(last) {
                let j = list.take(n - 1).index_of(last);
                assert(list[j] == last);
            }
        }
        assert(m.contains(last as int) == k.contains(last as int)) by {
            assert(list.take(n as int).contains(last));
        }
        lemma_sum_change(g, f, HW as nat, last as int);
    }
}

proof fn lemma_sum_zero(n: nat)
    ensures
        sum_to(|x: int| 0int, n) == 0,
    decreases n,
{
    if n > 0 {
        lemma_sum_zero((n - 1) as nat);
        lemma_sum_eq(|x: int| 0int, |x: int| 0int, (n - 1) as nat);
    }
}

pub proof fn lemma_list_len(out: Seq<u16>)
    requires
        out.no_duplicates(),
        forall|j: int| 0 <= j < out.len() ==> (#[trigger] out[j]) < HW,
    ensures
        out.len() <= HW,
{
    let t = Seq::new(out.len(), |j: int| out[j] as int);
    assert forall|a: int, b: int| 0 <= a < t.len() && 0 <= b < t.len() && a != b implies t[a]
        != t[b] by {
        assert(out[a] != out[b]);
    }
    assert forall|j: int| 0 <= j < t.len() implies 0 <= #[trigger] t[j] < HW by {
        assert(out[j] < HW);
    }
    lemma_pigeon(t, HW as nat);
}

/// Appending a fresh cell keeps the list in step with the visited set.
proof fn lemma_append(cells: Seq<i8>, p: i8, visited: Set<int>, out: Seq<u16>, n: int)
    requires
        collected(cells, p, visited, out),
        mark(cells, p, n),
        !visited.contains(n),
    ensures
        collected(cells, p, visited.insert(n), out.push(n as u16)),
        out.push(n as u16).contains(n as u16),
        forall|c: u16| #[trigger] out.contains(c) ==> out.push(n as u16).contains(c),
{
    let out2 = out.push(n as u16);
    assert(out2[out.len() as int] == n as u16);
    assert forall|c: u16| #[trigger] out.contains(c) implies out2.contains(c) by {
        let j = out.index_of(c);
        assert(out2[j] == c);
    }
    assert forall|x: int| 0 <= x < HW implies (#[trigger] visited.insert(n).contains(x)
        <==> out2.contains(x as u16)) by {
        if x != n && out2.contains(x as u16) {
            let j = out2.index_of(x as u16);
            assert(out2[j] == x as u16);
            assert(out[j] == x as u16);
        }
        if visited.contains(x) {
            assert(out.contains(x as u16));
        }
    }
    assert forall|a: int, b: int| 0 <= a < out2.len() && 0 <= b < out2.len() && a != b implies out2[a]
        != out2[b] by {
        if a == out.len() {
            assert(out[b] == out2[b]);
            assert(out.contains(out[b]));
            assert(visited.contains(out[b] as int));
        } else if b == out.len() {
            assert(out[a] == out2[a]);
            assert(out.contains(out[a]));
            assert(visited.contains(out[a] as int));
        }
    }
}

/// Collect every cell reachable from `seed` through `p`'s marks. Appends to `out` and honours
/// the current walk, so several seeds union into one buffer cleanly.
///
/// What `out` gains is the component of `seed`: it is closed under stepping from mark to
/// mark, and no smaller closed set holds the seed.
pub(crate) fn walk_component(
    cells: &[i8],
    seed: usize,
    p: i8,
    s: &mut Scratch,
    out: &mut Vec<u16>,
)
    requires
        cells@.len() == HW,
        seed < HW,
        old(s).inv(),
        collected(cells@, p, old(s).visited(), old(out)@),
        closed_list(cells@, p, old(out)@),
    ensures
        final(s).inv(),
        final(s).queue() == old(s).queue(),
        final(s).same_settings(old(s)),
        final(s).counters() == (if mark(cells@, p, seed as int) && !old(s).visited().contains(
            seed as int,
        ) {
            old(s).counters().walked(1, final(out)@.len() - old(out)@.len())
        } else {
            old(s).counters()
        }),
        final(out)@.len() >= old(out)@.len(),
        !(mark(cells@, p, seed as int) && !old(s).visited().contains(seed as int)) ==> final(out)@
            == old(out)@,
        collected(cells@, p, final(s).visited(), final(out)@),
        closed_list(cells@, p, final(out)@),
        forall|c: u16| #[trigger] old(out)@.contains(c) ==> final(out)@.contains(c),
        mark(cells@, p, seed as int) ==> final(out)@.contains(seed as u16),
        forall|k: Set<int>| #[trigger]
            closed_set(cells@, p, k) && within(old(out)@, k) && (mark(cells@, p, seed as int)
                ==> k.contains(seed as int)) ==> within(final(out)@, k),
{
    if cells[seed] != p {
        return ;
    }
    let ghost v0 = s.visited();
    if !s.visit(seed) {
        assert(s.visited() =~= v0);
        return ;
    }
    let len: usize = out.len();
    let mut stack = s.lend(Buffer::Stack);
    stack.push(seed as u16);
    proof {
        lemma_append(cells@, p, v0, out@, seed as int);
        lemma_list_len(out@);
    }
    out.push(seed as u16);
    proof {
        assert(stack@[0] == seed as u16);
        assert forall|y: int, e: int|
            0 <= e < 4 && mark(cells@, p, y) && out@.contains(y as u16) && mark(
                cells@,
                p,
                #[trigger] nb(y, e),
            ) && !stack@.contains(y as u16) implies out@.contains(nb(y, e) as u16) by {
            let j = out@.index_of(y as u16);
            assert(out@[j] == y as u16);
            assert(old(out)@[j] == y as u16);
            assert(old(out)@.contains(nb(y, e) as u16));
        }
    }
    while stack.len() > 0
        invariant
            cells@.len() == HW,
            seed < HW,
            mark(cells@, p, seed as int),
            s.inv(),
            s.queue() == old(s).queue(),
            s.same_account(old(s)),
            out@.len() >= len,
            collected(cells@, p, s.visited(), out@),
            walking(cells@, p, out@, stack@, -1, 0),
            forall|c: u16| #[trigger] old(out)@.contains(c) ==> out@.contains(c),
            out@.contains(seed as u16),
            forall|k: Set<int>| #[trigger]
                closed_set(cells@, p, k) && within(old(out)@, k) && k.contains(seed as int)
                    ==> within(out@, k),
        decreases HW - out@.len(), stack@.len(),
    {
        proof {
            assert forall|j: int| 0 <= j < out@.len() implies (#[trigger] out@[j]) < HW by {
                assert(mark(cells@, p, out@[j] as int));
            }
            lemma_list_len(out@);
        }
        let ghost st0 = stack@;
        let ghost len0 = out@.len();
        let top = stack.pop();
        let x: usize = match top {
            Some(c) => c as usize,
            None => 0,
        };
        proof {
            assert(st0[st0.len() - 1] == x as u16);
            assert(out@.contains(x as u16));
            let j = out@.index_of(x as u16);
            assert(mark(cells@, p, out@[j] as int));
            assert forall|j: int| 0 <= j < stack@.len() implies out@.contains(
                #[trigger] stack@[j],
            ) by {
                assert(stack@[j] == st0[j]);
            }
            assert forall|y: int, e: int|
                0 <= e < 4 && mark(cells@, p, y) && out@.contains(y as u16) && mark(
                    cells@,
                    p,
                    #[trigger] nb(y, e),
                ) && !stack@.contains(y as u16) && (y != x || e < 0) implies out@.contains(
                nb(y, e) as u16,
            ) by {
                if st0.contains(y as u16) {
                    let h = st0.index_of(y as u16);
                    assert(st0[h] == y as u16);
                    assert(stack@[h] == y as u16);
                }
            }
        }
        let mut d: usize = 0;
        while d < 4
            invariant
                d <= 4,
                cells@.len() == HW,
                mark(cells@, p, x as int),
                seed < HW,
                s.inv(),
                s.queue() == old(s).queue(),
                s.same_account(old(s)),
                out@.len() >= len,
                collected(cells@, p, s.visited(), out@),
                walking(cells@, p, out@, stack@, x as int, d as int),
                forall|c: u16| #[trigger] old(out)@.contains(c) ==> out@.contains(c),
                out@.contains(seed as u16),
                out@.contains(x as u16),
                forall|k: Set<int>| #[trigger]
                    closed_set(cells@, p, k) && within(old(out)@, k) && k.contains(seed as int)
                        ==> within(out@, k),
                out@.len() > len0 || (out@.len() == len0 && stack@.len() < st0.len()),
            decreases 4 - d,
        {
            let ghost out0 = out@;
            let ghost st1 = stack@;
            let ghost vis = s.visited();
            let ghost mut grew: bool = false;
            if let Some(n) = step(x, d) {
                if cells[n] == p {
                    if s.visit(n) {
                        stack.push(n as u16);
                        proof {
                            grew = true;
                            lemma_append(cells@, p, vis, out@, n as int);
                        }
                        out.push(n as u16);
                    } else {
                        assert(s.visited() =~= vis);
                    }
                }
            }
            proof {
                let n = nb(x as int, d as int);
                assert(mark(cells@, p, n) ==> out@.contains(n as u16));
                if grew {
                    assert(stack@[st1.len() as int] == n as u16);
                    assert forall|j: int| 0 <= j < stack@.len() implies out@.contains(
                        #[trigger] stack@[j],
                    ) by {
                        if j < st1.len() {
                            assert(stack@[j] == st1[j]);
                            assert(out0.contains(st1[j]));
                        }
                    }
                    assert forall|k: Set<int>| #[trigger]
                        closed_set(cells@, p, k) && within(old(out)@, k) && k.contains(
                            seed as int,
                        ) implies within(out@, k) by {
                        assert(within(out0, k));
                        let jx = out0.index_of(x as u16);
                        assert(k.contains(out0[jx] as int));
                        assert forall|j: int| 0 <= j < out@.len() implies k.contains(
                            (#[trigger] out@[j]) as int,
                        ) by {
                            if j < out0.len() {
                                assert(out@[j] == out0[j]);
                            }
                        }
                    }
                }
                assert forall|y: int, e: int|
                    0 <= e < 4 && mark(cells@, p, y) && out@.contains(y as u16) && mark(
                        cells@,
                        p,
                        #[trigger] nb(y, e),
                    ) && !stack@.contains(y as u16) && (y != x || e < d + 1) implies out@.contains(
                    nb(y, e) as u16,
                ) by {
                    if st1.contains(y as u16) {
                        let h = st1.index_of(y as u16);
                        assert(stack@[h] == y as u16);
                    }
                    if !out0.contains(y as u16) {
                        assert(grew);
                        let h = out@.index_of(y as u16);
                        assert(out@[h] == y as u16);
                        if h < out0.len() {
                            assert(out0[h] == y as u16);
                        }
                        assert(stack@.contains(y as u16));
                    }
                    if y == x && e == d {
                    } else {
                        assert(out0.contains(nb(y, e) as u16));
                    }
                }
            }
            d = d + 1;
        }
        proof {
            assert forall|j: int| 0 <= j < out@.len() implies (#[trigger] out@[j]) < HW by {
                assert(mark(cells@, p, out@[j] as int));
            }
            lemma_list_len(out@);
        }
    }
    s.give_back(Buffer::Stack, stack);
    s.count_walk(out.len() - len);
    proof {
        assert forall|j: int| 0 <= j < out@.len() implies (#[trigger] out@[j]) < HW by {
            assert(mark(cells@, p, out@[j] as int));
        }
    }
}

} // verus!
