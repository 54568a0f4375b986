//! Keeping the levels of a board exact as marks come and go.
use vstd::prelude::*;

use crate::board::{
    border, is_player, mark, nb, on_border, step, HW, INF, MAX_LEVEL, PLAYER_0_MARK, PLAYER_1_MARK,
};
use crate::levels::{
    capped, exact_for, grounded, is_level, lemma_below_cap, lemma_local_exact, levels_exact,
    relaxed, rests, supported,
};
use crate::scratch::{levels_kept, Buffer, Scratch, Stats};
use crate::sums::{lemma_sum_change, lemma_sum_nonneg, lemma_sum_upper, sum_to, unit};
use crate::walk::{cells_in, lemma_cells_in, lemma_listed_in, listed_in};

verus! {

// ------------------------------------------------------------------- termination measures

/// The sum of all levels.
spec fn level_sum(level: Seq<u8>) -> int {
    sum_to(|i: int| level[i] as int, HW as nat)
}

proof fn lemma_level_sum_set(level: Seq<u8>, i: int, l: u8)
    requires
        level.len() == HW,
        0 <= i < HW,
    ensures
        level_sum(level.update(i, l)) == level_sum(level) - level[i] + l,
{
    let f = |j: int| level[j] as int;
    let g = |j: int| level.update(i, l)[j] as int;
    lemma_sum_change(f, g, HW as nat, i);
}

proof fn lemma_level_sum_bounds(level: Seq<u8>)
    requires
        level.len() == HW,
    ensures
        0 <= level_sum(level) <= 255 * HW,
{
    lemma_sum_nonneg(|i: int| level[i] as int, HW as nat);
    lemma_level_sum_upper(level, HW as nat);
}

proof fn lemma_level_sum_upper(level: Seq<u8>, n: nat)
    ensures
        sum_to(|i: int| level[i] as int, n) <= 255 * n,
    decreases n,
{
    if n > 0 {
        lemma_level_sum_upper(level, (n - 1) as nat);
    }
}

/// The entries waiting, each weighted by how far its level is below the cap.
spec fn queue_weight(q: Seq<Seq<u16>>) -> int {
    sum_to(|b: int| (levels_kept() - b) * q[b].len(), levels_kept() as nat)
}

proof fn lemma_queue_weight_set(q: Seq<Seq<u16>>, b: int, s: Seq<u16>)
    requires
        q.len() == levels_kept(),
        0 <= b < levels_kept(),
    ensures
        queue_weight(q.update(b, s)) == queue_weight(q) + (levels_kept() - b) * (s.len()
            - q[b].len()),
{
    let f = |c: int| (levels_kept() - c) * q[c].len();
    let g = |c: int| (levels_kept() - c) * q.update(b, s)[c].len();
    lemma_sum_change(f, g, levels_kept() as nat, b);
    let k = levels_kept() - b;
    let a = s.len() as int;
    let o = q[b].len() as int;
    assert(k * (a - o) == k * a - k * o) by (nonlinear_arith);
}

proof fn lemma_queue_weight_nonneg(q: Seq<Seq<u16>>)
    requires
        q.len() == levels_kept(),
    ensures
        queue_weight(q) >= 0,
{
    let f = |b: int| (levels_kept() - b) * q[b].len();
    assert forall|b: int| 0 <= b < levels_kept() implies #[trigger] f(b) >= 0 by {
        let k = levels_kept() - b;
        let n = q[b].len() as int;
        assert(k * n >= 0) by (nonlinear_arith)
            requires
                k >= 0,
                n >= 0,
        ;
    }
    lemma_sum_nonneg(f, levels_kept() as nat);
}

// -------------------------------------------------------------------- pushing levels down

/// Every cell waiting holds a mark of `p`.
spec fn entries_ok(cells: Seq<i8>, p: i8, q: Seq<Seq<u16>>) -> bool {
    forall|b: int, j: int|
        0 <= b < levels_kept() && 0 <= j < q[b].len() ==> mark(
            cells,
            p,
            (#[trigger] q[b][j]) as int,
        )
}

/// Is `x` waiting at the level it holds?
spec fn waiting(level: Seq<u8>, q: Seq<Seq<u16>>, x: int) -> bool {
    level[x] <= MAX_LEVEL && q[level[x] as int].contains(x as u16)
}

/// What holds while improvements are being pushed outward: the levels rest on real routes,
/// and whoever has not yet offered its level to its neighbours is waiting to do so. `skip` is
/// the cell whose turn it is.
spec fn settling(
    cells: Seq<i8>,
    level: Seq<u8>,
    p: i8,
    q: Seq<Seq<u16>>,
    cur: int,
    skip: int,
) -> bool {
    &&& q.len() == levels_kept()
    &&& entries_ok(cells, p, q)
    &&& forall|b: int| 0 <= b < cur && b < levels_kept() ==> (#[trigger] q[b]).len() == 0
    &&& grounded(cells, level, p)
    &&& capped(cells, level, p)
    &&& forall|y: int| #[trigger] mark(cells, p, y) ==> supported(cells, level, p, y)
    &&& forall|y: int| #[trigger]
        mark(cells, p, y) && y != skip ==> relaxed(cells, level, p, y) || waiting(level, q, y)
}

/// Lowering a neighbour of `x` to one above `x`, and queueing it, keeps [`settling`].
proof fn lemma_lower(
    cells: Seq<i8>,
    level: Seq<u8>,
    p: i8,
    q: Seq<Seq<u16>>,
    cur: int,
    x: int,
    d: int,
    nl: u8,
)
    requires
        settling(cells, level, p, q, cur, x),
        mark(cells, p, x),
        0 <= d < 4,
        mark(cells, p, nb(x, d)),
        level[x] + 1 == nl,
        cur <= nl <= MAX_LEVEL,
        level[nb(x, d)] > nl,
    ensures
        settling(
            cells,
            level.update(nb(x, d), nl),
            p,
            q.update(nl as int, q[nl as int].push(nb(x, d) as u16)),
            cur,
            x,
        ),
{
    broadcast use crate::board::lemma_nb;

    let n = nb(x, d);
    let l2 = level.update(n, nl);
    let q2 = q.update(nl as int, q[nl as int].push(n as u16));
    crate::board::lemma_nb_back(x, d);
    assert forall|b: int, j: int| 0 <= b < levels_kept() && 0 <= j < q2[b].len() implies mark(
        cells,
        p,
        (#[trigger] q2[b][j]) as int,
    ) by {
        if b == nl && j == q[nl as int].len() {
        } else {
            assert(q2[b][j] == q[b][j]);
        }
    }
    assert forall|y: int| #[trigger] mark(cells, p, y) implies supported(cells, l2, p, y) by {
        assert(supported(cells, level, p, y));
        if y == n {
            assert(mark(cells, p, nb(n, 3 - d)));
        } else if level[y] != INF && !border(y) {
            let e = choose|e: int|
                0 <= e < 4 && mark(cells, p, #[trigger] nb(y, e)) && level[nb(y, e)] < level[y];
            assert(mark(cells, p, nb(y, e)) && l2[nb(y, e)] < l2[y]);
        }
    }
    assert forall|y: int| #[trigger] mark(cells, p, y) && y != x implies relaxed(cells, l2, p, y)
        || waiting(l2, q2, y) by {
        if y == n {
            let s = q2[nl as int];
            assert(s[s.len() - 1] == n as u16);
        } else if waiting(level, q, y) {
            let s = q[level[y] as int];
            let j = s.index_of(y as u16);
            assert(q2[l2[y] as int][j] == y as u16);
        } else {
            assert(relaxed(cells, level, p, y));
            assert forall|e: int|
                0 <= e < 4 && mark(cells, p, #[trigger] nb(y, e)) && l2[y] != INF implies l2[nb(
                y,
                e,
            )] <= l2[y] + 1 by {}
        }
    }
}

/// How many cells have another level than before.
pub open spec fn changed_levels(before: Seq<u8>, after: Seq<u8>) -> int {
    sum_to(|x: int| unit(after[x] != before[x]), HW as nat)
}

/// How many entries the queue holds.
spec fn entries(q: Seq<Seq<u16>>) -> int {
    sum_to(|b: int| q[b].len() as int, levels_kept() as nat)
}

proof fn lemma_entries_set(q: Seq<Seq<u16>>, b: int, s: Seq<u16>)
    requires
        q.len() == levels_kept(),
        0 <= b < levels_kept(),
    ensures
        entries(q.update(b, s)) == entries(q) - q[b].len() + s.len(),
{
    let f = |c: int| q[c].len() as int;
    let g = |c: int| q.update(b, s)[c].len() as int;
    lemma_sum_change(f, g, levels_kept() as nat, b);
}

proof fn lemma_entries_none(q: Seq<Seq<u16>>, n: nat)
    requires
        forall|b: int| 0 <= b < n ==> (#[trigger] q[b]).len() == 0,
    ensures
        sum_to(|b: int| q[b].len() as int, n) == 0,
    decreases n,
{
    if n > 0 {
        lemma_entries_none(q, (n - 1) as nat);
    }
}

/// A level that changes for the first time is one more that has changed.
proof fn lemma_first_change(before: Seq<u8>, now: Seq<u8>, n: int, l: u8)
    requires
        before.len() == HW,
        now.len() == HW,
        0 <= n < HW,
        now[n] == before[n],
        l != before[n],
    ensures
        changed_levels(before, now.update(n, l)) == changed_levels(before, now) + 1,
{
    let f = |x: int| unit(now[x] != before[x]);
    let g = |x: int| unit(now.update(n, l)[x] != before[x]);
    lemma_sum_change(f, g, HW as nat, n);
}

proof fn lemma_none_changed(l: Seq<u8>)
    ensures
        changed_levels(l, l) == 0,
{
    lemma_sum_upper(|x: int| unit(l[x] != l[x]), HW as nat, 0);
    lemma_sum_nonneg(|x: int| unit(l[x] != l[x]), HW as nat);
}

/// Every cell whose level has changed is at most one level above the queue's.
spec fn near(before: Seq<u8>, now: Seq<u8>, cur: int) -> bool {
    forall|x: int| 0 <= x < HW && #[trigger] now[x] != before[x] ==> now[x] <= cur + 1
}

/// Offer `x`'s level, plus one, to its neighbours.
#[verifier::spinoff_prover]
fn relax_from(
    cells: &[i8],
    level: &mut [u8],
    x: usize,
    p: i8,
    s: &mut Scratch,
    Ghost(l0): Ghost<Seq<u8>>,
)
    requires
        old(s).inv(),
        l0.len() == HW,
        near(l0, old(level)@, old(s).cursor()),
        old(level)@[x as int] == old(s).cursor(),
        mark(cells@, p, x as int),
        settling(cells@, old(level)@, p, old(s).queue(), old(s).cursor(), x as int),
        old(level)@[x as int] < MAX_LEVEL,
    ensures
        final(s).inv(),
        final(s).same_account(old(s)),
        final(s).cursor() == old(s).cursor(),
        near(l0, final(level)@, final(s).cursor()),
        entries(final(s).queue()) - entries(old(s).queue()) == changed_levels(l0, final(level)@)
            - changed_levels(l0, old(level)@),
        settling(cells@, final(level)@, p, final(s).queue(), final(s).cursor(), -1),
        forall|i: int|
            0 <= i < HW ==> #[trigger] final(level)@[i] <= old(level)@[i] && (mark(cells@, p, i)
                || final(level)@[i] == old(level)@[i]),
        level_sum(final(level)@) < level_sum(old(level)@) || (final(level)@ == old(level)@
            && final(s).queue() == old(s).queue()),
{
    let nl: u8 = level[x] + 1;
    let mut d: usize = 0;
    while d < 4
        invariant
            d <= 4,
            s.inv(),
            s.same_account(old(s)),
            s.cursor() == old(s).cursor(),
            l0.len() == HW,
            nl == s.cursor() + 1,
            near(l0, level@, s.cursor()),
            entries(s.queue()) - entries(old(s).queue()) == changed_levels(l0, level@)
                - changed_levels(l0, old(level)@),
            mark(cells@, p, x as int),
            old(level)@.len() == HW,
            level@[x as int] + 1 == nl,
            s.cursor() <= nl <= MAX_LEVEL,
            settling(cells@, level@, p, s.queue(), s.cursor(), x as int),
            forall|e: int|
                0 <= e < d && mark(cells@, p, #[trigger] nb(x as int, e)) ==> level@[nb(
                    x as int,
                    e,
                )] <= nl,
            forall|i: int|
                0 <= i < HW ==> #[trigger] level@[i] <= old(level)@[i] && (mark(cells@, p, i)
                    || level@[i] == old(level)@[i]),
            level_sum(level@) < level_sum(old(level)@) || (level@ == old(level)@ && s.queue()
                == old(s).queue()),
        decreases 4 - d,
    {
        if let Some(n) = step(x, d) {
            if cells[n] == p && level[n] > nl {
                proof {
                    lemma_lower(
                        cells@,
                        level@,
                        p,
                        s.queue(),
                        s.cursor(),
                        x as int,
                        d as int,
                        nl,
                    );
                    lemma_level_sum_set(level@, n as int, nl);
                    assert(level@[n as int] == l0[n as int]);
                    lemma_first_change(l0, level@, n as int, nl);
                    lemma_entries_set(
                        s.queue(),
                        nl as int,
                        s.queue()[nl as int].push(n as u16),
                    );
                }
                level[n] = nl;
                s.push(n, nl);
            }
        }
        d = d + 1;
    }
    assert(relaxed(cells@, level@, p, x as int));
}

/// While improvements are pushed outward, nothing waits at the cap.
proof fn lemma_cap_never_waits(cells: Seq<i8>, level: Seq<u8>, p: i8, q: Seq<Seq<u16>>, x: int)
    requires
        settling(cells, level, p, q, MAX_LEVEL as int, x),
        mark(cells, p, x),
        level[x] <= MAX_LEVEL,
    ensures
        level[x] < MAX_LEVEL,
{
    broadcast use crate::board::lemma_nb;

    assert forall|y: int| #[trigger]
        mark(cells, p, y) && level[y] <= level[x] implies rests(cells, level, p, y) by {
        assert(supported(cells, level, p, y));
        if !border(y) {
            let e = choose|e: int|
                0 <= e < 4 && mark(cells, p, #[trigger] nb(y, e)) && level[nb(y, e)] < level[y];
            let z = nb(y, e);
            assert(q[level[z] as int].len() == 0);
            assert(relaxed(cells, level, p, z));
            crate::board::lemma_nb_back(y, e);
            assert(nb(z, 3 - e) == y);
            assert(level[z] + 1 == level[y]);
        }
    }
    lemma_below_cap(cells, level, p, x);
}

/// Push improvements outward until nothing waits; levels only ever fall here.
/// Returns how many entries were popped: those that waited, and one for each cell whose level
/// fell.
fn drain(cells: &[i8], level: &mut [u8], p: i8, s: &mut Scratch) -> (pops: usize)
    requires
        is_player(p),
        old(s).inv(),
        entries(old(s).queue()) <= HW,
        settling(cells@, old(level)@, p, old(s).queue(), old(s).cursor(), -1),
    ensures
        final(s).wf(),
        final(s).same_account(old(s)),
        pops == entries(old(s).queue()) + changed_levels(old(level)@, final(level)@),
        final(level)@.len() == HW,
        exact_for(cells@, final(level)@, p),
        forall|i: int|
            0 <= i < HW ==> #[trigger] final(level)@[i] <= old(level)@[i] && (mark(cells@, p, i)
                || final(level)@[i] == old(level)@[i]),
{
    let mut pops: usize = 0;
    proof {
        lemma_none_changed(level@);
    }
    loop
        invariant_except_break
            near(old(level)@, level@, s.cursor()),
        invariant
            is_player(p),
            s.inv(),
            s.same_account(old(s)),
            old(level)@.len() == HW,
            pops + entries(s.queue()) == entries(old(s).queue()) + changed_levels(
                old(level)@,
                level@,
            ),
            entries(old(s).queue()) <= HW,
            settling(cells@, level@, p, s.queue(), s.cursor(), -1),
            forall|i: int|
                0 <= i < HW ==> #[trigger] level@[i] <= old(level)@[i] && (mark(cells@, p, i)
                    || level@[i] == old(level)@[i]),
        ensures
            s.queue_empty(),
        decreases level_sum(level@), queue_weight(s.queue()),
    {
        let ghost q0 = s.queue();
        let ghost l0 = level@;
        proof {
            lemma_level_sum_bounds(level@);
            lemma_queue_weight_nonneg(s.queue());
        }
        let next = s.pop();
        match next {
            None => {
                break ;
            },
            Some((x, bucket)) => {
                proof {
                    let b = bucket as int;
                    lemma_queue_weight_set(q0, b, q0[b].drop_last());
                    let k = levels_kept() - b;
                    assert(k * (-1) == -k) by (nonlinear_arith);
                    lemma_queue_weight_nonneg(s.queue());
                    assert(q0[b][q0[b].len() - 1] == x as u16);
                    assert(mark(cells@, p, x as int));
                    lemma_popped(cells@, level@, p, q0, s.queue(), b, x as int);
                    lemma_entries_set(q0, b, q0[b].drop_last());
                    lemma_entries_bound(s.queue());
                    lemma_changed_bound(old(level)@, level@);
                }
                pops = pops + 1;
                if level[x] != bucket {
                    // stale entry: x was lowered again after this push
                    continue ;
                }
                if level[x] >= MAX_LEVEL {
                    proof {
                        lemma_cap_never_waits(cells@, level@, p, s.queue(), x as int);
                    }
                    continue ;
                }
                relax_from(cells, level, x, p, s, Ghost(old(level)@));
                proof {
                    lemma_level_sum_bounds(level@);
                }
            },
        }
    }
    proof {
        assert forall|y: int| #[trigger] mark(cells@, p, y) implies relaxed(
            cells@,
            level@,
            p,
            y,
        ) by {
            assert(capped(cells@, level@, p));
            if level@[y] != INF {
                assert(s.queue()[level@[y] as int].len() == 0);
            }
        }
        lemma_local_exact(cells@, level@, p);
        lemma_entries_none(s.queue(), levels_kept() as nat);
    }
    pops
}

proof fn lemma_entries_bound(q: Seq<Seq<u16>>)
    ensures
        entries(q) >= 0,
{
    lemma_sum_nonneg(|b: int| q[b].len() as int, levels_kept() as nat);
}

proof fn lemma_changed_bound(before: Seq<u8>, after: Seq<u8>)
    ensures
        0 <= changed_levels(before, after) <= HW,
{
    let f = |x: int| unit(after[x] != before[x]);
    lemma_sum_nonneg(f, HW as nat);
    lemma_sum_upper(f, HW as nat, 1);
}

/// Taking the last entry of the lowest bucket leaves everyone but that cell accounted for;
/// where the entry was stale, that cell too.
proof fn lemma_popped(
    cells: Seq<i8>,
    level: Seq<u8>,
    p: i8,
    q0: Seq<Seq<u16>>,
    q1: Seq<Seq<u16>>,
    b: int,
    x: int,
)
    requires
        0 <= b < levels_kept(),
        exists|cur: int| cur <= b && #[trigger] settling(cells, level, p, q0, cur, -1),
        forall|c: int| 0 <= c < b ==> (#[trigger] q0[c]).len() == 0,
        q0[b].len() > 0,
        x == q0[b].last(),
        q1 == q0.update(b, q0[b].drop_last()),
    ensures
        settling(cells, level, p, q1, b, if level[x] == b {
            x
        } else {
            -1
        }),
{
    let skip = if level[x] == b {
        x
    } else {
        -1
    };
    assert forall|c: int, j: int| 0 <= c < levels_kept() && 0 <= j < q1[c].len() implies mark(
        cells,
        p,
        (#[trigger] q1[c][j]) as int,
    ) by {
        assert(q1[c][j] == q0[c][j]);
    }
    assert forall|y: int| #[trigger] mark(cells, p, y) && y != skip implies relaxed(
        cells,
        level,
        p,
        y,
    ) || waiting(level, q1, y) by {
        if waiting(level, q0, y) {
            let s = q0[level[y] as int];
            let j = s.index_of(y as u16);
            assert(s[j] == y as u16);
            if level[y] == b {
                assert(y != x);
                assert(j < s.len() - 1);
                assert(q1[level[y] as int][j] == y as u16);
            }
        }
    }
}

/// Push improvements outward after an insertion; levels only ever fall here.
pub(crate) fn relax_down(cells: &[i8], level: &mut [u8], seed: usize, p: i8, s: &mut Scratch)
    requires
        is_player(p),
        old(s).wf(),
        mark(cells@, p, seed as int),
        old(level)@[seed as int] <= MAX_LEVEL,
        grounded(cells@, old(level)@, p),
        capped(cells@, old(level)@, p),
        forall|y: int| #[trigger] mark(cells@, p, y) ==> supported(cells@, old(level)@, p, y),
        forall|y: int| #[trigger]
            mark(cells@, p, y) && y != seed ==> relaxed(cells@, old(level)@, p, y),
    ensures
        final(s).wf(),
        final(s).same_settings(old(s)),
        final(s).counters() == old(s).counters().relaxed(
            1 + changed_levels(old(level)@, final(level)@),
        ),
        final(level)@.len() == HW,
        exact_for(cells@, final(level)@, p),
        forall|i: int|
            0 <= i < HW ==> #[trigger] final(level)@[i] <= old(level)@[i] && (mark(cells@, p, i)
                || final(level)@[i] == old(level)@[i]),
{
    s.queue_reset();
    let l: u8 = level[seed];
    proof {
        s.lemma_queue_len();
        lemma_entries_none(s.queue(), levels_kept() as nat);
        lemma_entries_set(s.queue(), l as int, s.queue()[l as int].push(seed as u16));
    }
    s.push(seed, l);
    proof {
        let q = s.queue();
        assert(q[l as int][0] == seed as u16);
        assert(entries_ok(cells@, p, q)) by {
            assert forall|b: int, j: int| 0 <= b < levels_kept() && 0 <= j < q[b].len() implies mark(
                cells@,
                p,
                (#[trigger] q[b][j]) as int,
            ) by {}
        }
    }
    let pops: usize = drain(cells, level, p, s);
    s.count_relax(pops);
}

/// One player's levels from scratch: border cells first, then outward.
fn rebuild_player(cells: &[i8], level: &mut [u8], p: i8, s: &mut Scratch)
    requires
        is_player(p),
        cells@.len() == HW,
        old(level)@.len() == HW,
        old(s).wf(),
        forall|i: int| #[trigger] mark(cells@, p, i) ==> old(level)@[i] == INF,
    ensures
        final(s).wf(),
        final(s).same_account(old(s)),
        final(level)@.len() == HW,
        exact_for(cells@, final(level)@, p),
        forall|i: int|
            0 <= i < HW && !mark(cells@, p, i) ==> #[trigger] final(level)@[i] == old(level)@[i],
{
    s.queue_reset();
    proof {
        s.lemma_queue_len();
        lemma_entries_none(s.queue(), levels_kept() as nat);
    }
    let mut i: usize = 0;
    while i < HW
        invariant
            i <= HW,
            cells@.len() == HW,
            level@.len() == HW,
            s.inv(),
            s.same_account(old(s)),
            s.cursor() == 0,
            s.queue().len() == levels_kept(),
            entries(s.queue()) <= i,
            entries_ok(cells@, p, s.queue()),
            forall|b: int| 0 < b < levels_kept() ==> (#[trigger] s.queue()[b]).len() == 0,
            forall|j: int| #[trigger]
                mark(cells@, p, j) ==> level@[j] == (if j < i && border(j) {
                    0u8
                } else {
                    INF
                }),
            forall|j: int|
                #![trigger s.queue()[0].contains(j as u16)]
                mark(cells@, p, j) && j < i && border(j) ==> s.queue()[0].contains(j as u16),
            forall|j: int|
                0 <= j < HW && !mark(cells@, p, j) ==> #[trigger] level@[j] == old(level)@[j],
        decreases HW - i,
    {
        if cells[i] == p && on_border(i) {
            let ghost q0 = s.queue();
            level[i] = 0;
            s.push(i, 0);
            proof {
                let q1 = s.queue();
                lemma_entries_set(q0, 0, q0[0].push(i as u16));
                assert forall|b: int, j: int|
                    0 <= b < levels_kept() && 0 <= j < q1[b].len() implies mark(
                    cells@,
                    p,
                    (#[trigger] q1[b][j]) as int,
                ) by {
                    if b == 0 && j == q0[0].len() {
                    } else {
                        assert(q1[b][j] == q0[b][j]);
                    }
                }
                assert(q1[0][q1[0].len() - 1] == i as u16);
                assert forall|j: int|
                    #![trigger q1[0].contains(j as u16)]
                    mark(cells@, p, j) && j < i + 1 && border(j) implies q1[0].contains(
                    j as u16,
                ) by {
                    if j < i {
                        assert(q0[0].contains(j as u16));
                        let k = q0[0].index_of(j as u16);
                        assert(q1[0][k] == j as u16);
                    }
                }
            }
        }
        i = i + 1;
    }
    proof {
        assert forall|y: int| #[trigger] mark(cells@, p, y) implies supported(
            cells@,
            level@,
            p,
            y,
        ) && (relaxed(cells@, level@, p, y) || waiting(level@, s.queue(), y)) by {
            if border(y) {
                assert(s.queue()[0].contains(y as u16));
            }
        }
    }
    let _pops: usize = drain(cells, level, p, s);
}

/// Rebuild every level from scratch. The only pass over the whole board; used when adopting
/// one.
pub fn rebuild_levels(cells: &[i8], level: &mut [u8], s: &mut Scratch)
    requires
        cells@.len() == HW,
        old(level)@.len() == HW,
        old(s).wf(),
    ensures
        levels_exact(cells@, final(level)@),
        final(s).wf(),
        final(s).same_account(old(s)),
{
    let mut i: usize = 0;
    while i < HW
        invariant
            i <= HW,
            level@.len() == HW,
            forall|j: int| 0 <= j < i ==> #[trigger] level@[j] == INF,
        decreases HW - i,
    {
        level[i] = INF;
        i = i + 1;
    }
    rebuild_player(cells, level, PLAYER_0_MARK, s);
    let ghost l1 = level@;
    rebuild_player(cells, level, PLAYER_1_MARK, s);
    proof {
        assert forall|i: int| 0 <= i < HW implies is_level(cells@, i, #[trigger] level@[i]) by {
            if mark(cells@, PLAYER_1_MARK, i) {
            } else {
                assert(level@[i] == l1[i]);
                if mark(cells@, PLAYER_0_MARK, i) {
                }
            }
        }
    }
}

// ------------------------------------------------------------------ rebuilding a component

/// `comp` lists, besides cells that no longer hold a mark, whole components of `p`'s marks:
/// a mark next to a listed mark is listed.
pub open spec fn closed_list(cells: Seq<i8>, p: i8, comp: Seq<u16>) -> bool {
    &&& forall|j: int| 0 <= j < comp.len() ==> (#[trigger] comp[j]) < HW
    &&& forall|x: int, d: int|
        0 <= d < 4 && mark(cells, p, x) && comp.contains(x as u16) && mark(
            cells,
            p,
            #[trigger] nb(x, d),
        ) ==> comp.contains(nb(x, d) as u16)
}

/// The marks of a list.
pub open spec fn marks_of(cells: Seq<i8>, p: i8, comp: Seq<u16>) -> Set<int> {
    Set::new(|x: int| mark(cells, p, x) && comp.contains(x as u16))
}

/// The cells of a set that are alive.
pub open spec fn alive_of(level: Seq<u8>, k: Set<int>) -> Set<int> {
    Set::new(|x: int| k.contains(x) && level[x] != INF)
}

/// The highest level of an alive cell of the set among the first `n` of the board, or 0.
pub open spec fn highest_level(level: Seq<u8>, k: Set<int>, n: nat) -> int
    decreases n,
{
    if n == 0 {
        0
    } else {
        let h = highest_level(level, k, (n - 1) as nat);
        if k.contains(n - 1) && level[n - 1] != INF && level[n - 1] > h {
            level[n - 1] as int
        } else {
            h
        }
    }
}

/// A bound that is reached is the highest.
proof fn lemma_highest(level: Seq<u8>, k: Set<int>, n: nat, h: int)
    requires
        h >= 0,
        forall|x: int| 0 <= x < n && #[trigger] k.contains(x) && level[x] != INF ==> level[x] <= h,
    ensures
        highest_level(level, k, n) <= h,
        forall|x: int|
            0 <= x < n && #[trigger] k.contains(x) && level[x] != INF ==> level[x]
                <= highest_level(level, k, n),
        highest_level(level, k, n) >= 0,
    decreases n,
{
    if n > 0 {
        lemma_highest(level, k, (n - 1) as nat, h);
    }
}

/// What holds while a component's levels are re-derived: cells come off the line in
/// nondecreasing order of level, and never more than one level apart. `skip` is the cell
/// whose turn it is, at level `top - 1`.
spec fn spreading(
    cells: Seq<i8>,
    level: Seq<u8>,
    p: i8,
    comp: Seq<u16>,
    q: Seq<u16>,
    head: int,
    skip: int,
    low: int,
    top: int,
) -> bool {
    &&& 0 <= head <= q.len()
    &&& q.no_duplicates()
    &&& closed_list(cells, p, comp)
    &&& grounded(cells, level, p)
    &&& forall|y: int| #[trigger] mark(cells, p, y) ==> rests(cells, level, p, y)
    &&& forall|j: int|
        0 <= j < q.len() ==> mark(cells, p, (#[trigger] q[j]) as int) && comp.contains(q[j])
            && level[q[j] as int] <= top
    &&& forall|j: int| head <= j < q.len() ==> level[(#[trigger] q[j]) as int] >= low
    &&& forall|a: int, b: int|
        0 <= a <= b < q.len() ==> level[(#[trigger] q[a]) as int] <= level[(
        #[trigger] q[b]) as int]
    &&& forall|y: int| #[trigger]
        mark(cells, p, y) && comp.contains(y as u16) && level[y] != INF ==> q.contains(y as u16)
    &&& forall|y: int| #[trigger]
        mark(cells, p, y) && y != skip ==> relaxed(cells, level, p, y) || exists|j: int|
            head <= j < q.len() && #[trigger] q[j] == y as u16
}

/// Reaching a blank neighbour of `x` keeps [`spreading`].
proof fn lemma_spread(
    cells: Seq<i8>,
    level: Seq<u8>,
    p: i8,
    comp: Seq<u16>,
    q: Seq<u16>,
    head: int,
    x: int,
    d: int,
    nl: u8,
)
    requires
        spreading(cells, level, p, comp, q, head, x, nl - 1, nl as int),
        mark(cells, p, x),
        comp.contains(x as u16),
        0 <= d < 4,
        mark(cells, p, nb(x, d)),
        level[x] + 1 == nl,
        nl < INF,
        level[nb(x, d)] > nl,
    ensures
        spreading(
            cells,
            level.update(nb(x, d), nl),
            p,
            comp,
            q.push(nb(x, d) as u16),
            head,
            x,
            nl - 1,
            nl as int,
        ),
        level[nb(x, d)] == INF,
{
    broadcast use crate::board::lemma_nb;

    let n = nb(x, d);
    let l2 = level.update(n, nl);
    let q2 = q.push(n as u16);
    crate::board::lemma_nb_back(x, d);
    assert(comp.contains(n as u16));
    if level[n] != INF {
        let j = q.index_of(n as u16);
        assert(q[j] == n as u16);
        assert(level[q[j] as int] <= nl);
    }
    assert(level[n] == INF);
    assert(q2.no_duplicates()) by {
        assert forall|a: int, b: int| 0 <= a < q2.len() && 0 <= b < q2.len() && a != b implies q2[a]
            != q2[b] by {
            if a < q.len() {
                assert(q2[a] == q[a]);
                assert(level[q[a] as int] <= nl);
            }
            if b < q.len() {
                assert(q2[b] == q[b]);
                assert(level[q[b] as int] <= nl);
            }
        }
    }
    assert(!border(n));
    assert forall|y: int| #[trigger] mark(cells, p, y) implies rests(cells, l2, p, y) by {
        assert(rests(cells, level, p, y));
        if y == n {
            assert(mark(cells, p, nb(n, 3 - d)));
        } else if level[y] != INF && !border(y) {
            let e = choose|e: int|
                0 <= e < 4 && mark(cells, p, #[trigger] nb(y, e)) && level[nb(y, e)] + 1
                    == level[y];
            assert(mark(cells, p, nb(y, e)) && l2[nb(y, e)] + 1 == l2[y]);
        }
    }
    assert forall|j: int| 0 <= j < q2.len() implies mark(cells, p, (#[trigger] q2[j]) as int)
        && comp.contains(q2[j]) && l2[q2[j] as int] <= nl by {
        if j < q.len() {
            assert(q2[j] == q[j]);
        }
    }
    assert forall|j: int| head <= j < q2.len() implies l2[(#[trigger] q2[j]) as int] >= nl - 1 by {
        if j < q.len() {
            assert(q2[j] == q[j]);
        }
    }
    assert forall|a: int, b: int| 0 <= a <= b < q2.len() implies l2[(#[trigger] q2[a]) as int]
        <= l2[(#[trigger] q2[b]) as int] by {
        if b < q.len() {
            assert(q2[a] == q[a]);
            assert(q2[b] == q[b]);
        } else {
            assert(l2[q2[a] as int] <= nl);
        }
    }
    assert forall|y: int| #[trigger]
        mark(cells, p, y) && comp.contains(y as u16) && l2[y] != INF implies q2.contains(
        y as u16,
    ) by {
        if y == n {
            assert(q2[q2.len() - 1] == n as u16);
        } else {
            let j = q.index_of(y as u16);
            assert(q2[j] == y as u16);
        }
    }
    assert forall|y: int| #[trigger] mark(cells, p, y) && y != x implies relaxed(cells, l2, p, y)
        || exists|j: int| head <= j < q2.len() && #[trigger] q2[j] == y as u16 by {
        if y == n {
            assert(q2[q2.len() - 1] == y as u16);
        } else if relaxed(cells, level, p, y) {
            assert forall|e: int|
                0 <= e < 4 && mark(cells, p, #[trigger] nb(y, e)) && l2[y] != INF implies l2[nb(
                y,
                e,
            )] <= l2[y] + 1 by {}
        } else {
            let j = choose|j: int| head <= j < q.len() && #[trigger] q[j] == y as u16;
            assert(q2[j] == y as u16);
        }
    }
}

/// Give every blank neighbour of `x` a level one above `x`'s, and append it to the line.
#[verifier::spinoff_prover]
fn spread_from(
    cells: &[i8],
    level: &mut [u8],
    x: usize,
    p: i8,
    q: &mut Vec<u16>,
    Ghost(comp): Ghost<Seq<u16>>,
    Ghost(head): Ghost<int>,
)
    requires
        mark(cells@, p, x as int),
        comp.contains(x as u16),
        old(level)@[x as int] < MAX_LEVEL,
        spreading(
            cells@,
            old(level)@,
            p,
            comp,
            old(q)@,
            head,
            x as int,
            old(level)@[x as int] as int,
            old(level)@[x as int] + 1,
        ),
    ensures
        spreading(
            cells@,
            final(level)@,
            p,
            comp,
            final(q)@,
            head,
            -1,
            old(level)@[x as int] as int,
            old(level)@[x as int] + 1,
        ),
        forall|i: int|
            0 <= i < HW && !(mark(cells@, p, i) && comp.contains(i as u16))
                ==> #[trigger] final(level)@[i] == old(level)@[i],
        level_sum(final(level)@) < level_sum(old(level)@) || (final(level)@ == old(level)@
            && final(q)@ == old(q)@),
{
    let nl: u8 = level[x] + 1;
    let mut d: usize = 0;
    while d < 4
        invariant
            d <= 4,
            mark(cells@, p, x as int),
            comp.contains(x as u16),
            old(level)@.len() == HW,
            old(level)@[x as int] + 1 == nl,
            level@[x as int] + 1 == nl,
            nl <= MAX_LEVEL,
            spreading(cells@, level@, p, comp, q@, head, x as int, nl - 1, nl as int),
            forall|e: int|
                0 <= e < d && mark(cells@, p, #[trigger] nb(x as int, e)) ==> level@[nb(
                    x as int,
                    e,
                )] <= nl,
            forall|i: int|
                0 <= i < HW && !(mark(cells@, p, i) && comp.contains(i as u16))
                    ==> #[trigger] level@[i] == old(level)@[i],
            level_sum(level@) < level_sum(old(level)@) || (level@ == old(level)@ && q@ == old(q)@),
        decreases 4 - d,
    {
        if let Some(n) = step(x, d) {
            if cells[n] == p && level[n] > nl {
                proof {
                    lemma_spread(cells@, level@, p, comp, q@, head, x as int, d as int, nl);
                    lemma_level_sum_set(level@, n as int, nl);
                }
                level[n] = nl;
                q.push(n as u16);
            }
        }
        d = d + 1;
    }
    assert(relaxed(cells@, level@, p, x as int));
}

/// Re-derive one whole component's levels: blank it, seed from its border cells, and spread
/// outward.
///
/// `comp` is the component the deleted cell belonged to, collected before the deletion. Every
/// level that can change is inside it, and nothing outside can rescue anything inside it, so
/// this is complete, not a local patch. O(|comp|).
pub(crate) fn rebuild_component_levels(
    cells: &[i8],
    level: &mut [u8],
    comp: &Vec<u16>,
    p: i8,
    s: &mut Scratch,
)
    requires
        is_player(p),
        cells@.len() == HW,
        old(level)@.len() == HW,
        old(s).inv(),
        closed_list(cells@, p, comp@),
        comp@.no_duplicates(),
        forall|y: int| #[trigger]
            mark(cells@, p, y) && !comp@.contains(y as u16) ==> is_level(
                cells@,
                y,
                old(level)@[y],
            ),
    ensures
        final(s).counters() == old(s).counters().rebuilt(
            cells_in(marks_of(cells@, p, comp@)),
            cells_in(alive_of(final(level)@, marks_of(cells@, p, comp@))),
            highest_level(final(level)@, marks_of(cells@, p, comp@), HW as nat),
        ),
        exact_for(cells@, final(level)@, p),
        final(level)@.len() == HW,
        forall|i: int|
            0 <= i < HW && !(mark(cells@, p, i) && comp@.contains(i as u16))
                ==> #[trigger] final(level)@[i] == old(level)@[i],
        final(s).inv(),
        final(s).queue() == old(s).queue(),
        final(s).same_settings(old(s)),
{
    let mut q = s.lend(Buffer::Queue);
    let ghost marks = marks_of(cells@, p, comp@);

    // blank the component
    let mut blanked: usize = 0;
    let mut k: usize = 0;
    while k < comp.len()
        invariant
            k <= comp@.len(),
            marks == marks_of(cells@, p, comp@),
            blanked == listed_in(comp@, marks, k as nat),
            blanked <= k,
            cells@.len() == HW,
            level@.len() == HW,
            forall|j: int| 0 <= j < comp@.len() ==> (#[trigger] comp@[j]) < HW,
            forall|j: int|
                0 <= j < k && mark(cells@, p, (#[trigger] comp@[j]) as int)
                    ==> level@[comp@[j] as int] == (if border(comp@[j] as int) {
                    0u8
                } else {
                    INF
                }),
            forall|i: int|
                0 <= i < HW && !(mark(cells@, p, i) && comp@.contains(i as u16))
                    ==> #[trigger] level@[i] == old(level)@[i],
        decreases comp@.len() - k,
    {
        let i: usize = comp[k] as usize;
        assert(comp@.contains(comp@[k as int]));
        if cells[i] == p {
            blanked = blanked + 1;
            level[i] = if on_border(i) {
                0
            } else {
                INF
            };
        }
        k = k + 1;
    }
    let ghost blank = level@;
    assert forall|y: int| #[trigger] mark(cells@, p, y) && comp@.contains(y as u16) implies blank[y]
        == (if border(y) {
        0u8
    } else {
        INF
    }) by {
        let j = comp@.index_of(y as u16);
        assert(comp@[j] == y as u16);
    }
    // seeding is a second pass: the first is still blanking cells a border cell found early
    // would have been compared against
    k = 0;
    while k < comp.len()
        invariant
            k <= comp@.len(),
            cells@.len() == HW,
            level@.len() == HW,
            level@ == blank,
            comp@.no_duplicates(),
            q@.no_duplicates(),
            forall|j: int| 0 <= j < q@.len() ==> comp@.take(k as int).contains(#[trigger] q@[j]),
            forall|j: int| 0 <= j < comp@.len() ==> (#[trigger] comp@[j]) < HW,
            forall|j: int|
                0 <= j < q@.len() ==> mark(cells@, p, (#[trigger] q@[j]) as int)
                    && comp@.contains(q@[j]) && blank[q@[j] as int] == 0,
            forall|j: int|
                0 <= j < k && mark(cells@, p, (#[trigger] comp@[j]) as int)
                    && blank[comp@[j] as int] == 0 ==> q@.contains(comp@[j]),
        decreases comp@.len() - k,
    {
        let i: usize = comp[k] as usize;
        if cells[i] == p && level[i] == 0 {
            let ghost q0 = q@;
            q.push(comp[k]);
            proof {
                assert(!q0.contains(comp@[k as int])) by {
                    if q0.contains(comp@[k as int]) {
                        let h = q0.index_of(comp@[k as int]);
                        assert(comp@.take(k as int).contains(q0[h]));
                        let g = comp@.take(k as int).index_of(q0[h]);
                        assert(comp@[g] == comp@[k as int]);
                    }
                }
                assert(q@.no_duplicates()) by {
                    assert forall|a: int, b: int|
                        0 <= a < q@.len() && 0 <= b < q@.len() && a != b implies q@[a] != q@[b] by {
                        if a < q0.len() {
                            assert(q@[a] == q0[a]);
                            assert(q0.contains(q0[a]));
                        }
                        if b < q0.len() {
                            assert(q@[b] == q0[b]);
                            assert(q0.contains(q0[b]));
                        }
                    }
                }
                assert forall|j: int|
                    0 <= j < k + 1 && mark(cells@, p, (#[trigger] comp@[j]) as int)
                        && blank[comp@[j] as int] == 0 implies q@.contains(comp@[j]) by {
                    if j == k {
                        assert(q@[q@.len() - 1] == comp@[j]);
                    } else {
                        assert(q0.contains(comp@[j]));
                        let h = q0.index_of(comp@[j]);
                        assert(q@[h] == comp@[j]);
                    }
                }
            }
        }
        proof {
            let t0 = comp@.take(k as int);
            let t1 = comp@.take(k + 1);
            assert(t1[k as int] == comp@[k as int]);
            assert(t1.contains(comp@[k as int]));
            assert forall|j: int| 0 <= j < q@.len() implies t1.contains(#[trigger] q@[j]) by {
                if t0.contains(q@[j]) {
                    let h = t0.index_of(q@[j]);
                    assert(t1[h] == q@[j]);
                }
            }
        }
        k = k + 1;
    }
    proof {
        lemma_blanked(cells@, old(level)@, blank, p, comp@, q@);
    }
    // a plain line suffices: every step costs one, so cells come off in nondecreasing level
    // order, and no cell is ever queued twice
    let mut head: usize = 0;
    let ghost mut low: int = 0;
    while head < q.len()
        invariant
            cells@.len() == HW,
            level@.len() == HW,
            s.inv(),
            s.queue() == old(s).queue(),
            s.same_account(old(s)),
            low <= MAX_LEVEL,
            spreading(cells@, level@, p, comp@, q@, head as int, -1, low, low + 1),
            forall|i: int|
                0 <= i < HW && !(mark(cells@, p, i) && comp@.contains(i as u16))
                    ==> #[trigger] level@[i] == old(level)@[i],
        decreases level_sum(level@), q@.len() - head,
    {
        let x: usize = q[head] as usize;
        let ghost l0 = level@[x as int] as int;
        proof {
            lemma_level_sum_bounds(level@);
            assert(mark(cells@, p, q@[head as int] as int));
            lemma_below_cap(cells@, level@, p, x as int);
            assert forall|y: int| #[trigger] mark(cells@, p, y) && y != x implies relaxed(
                cells@,
                level@,
                p,
                y,
            ) || exists|j: int| head + 1 <= j < q@.len() && #[trigger] q@[j] == y as u16 by {
                if !relaxed(cells@, level@, p, y) {
                    let j = choose|j: int| head <= j < q@.len() && #[trigger] q@[j] == y as u16;
                    assert(q@[j] == y as u16);
                    assert(j != head);
                }
            }
            assert(spreading(
                cells@,
                level@,
                p,
                comp@,
                q@,
                head + 1,
                x as int,
                l0,
                l0 + 1,
            ));
        }
        head = head + 1;
        spread_from(cells, level, x, p, &mut q, Ghost(comp@), Ghost(head as int));
        proof {
            low = l0;
            lemma_level_sum_bounds(level@);
        }
    }
    let pops: usize = q.len();
    let highest: u8 = if pops > 0 {
        assert(mark(cells@, p, q@[pops - 1] as int));
        level[q[pops - 1] as usize]
    } else {
        0
    };
    proof {
        lemma_listed_in(comp@, marks, comp@.len());
        lemma_reached(cells@, level@, p, comp@, q@, low + 1, highest as int);
        assert(comp@.take(comp@.len() as int) =~= comp@);
        assert(Set::new(
            |x: int| marks.contains(x) && comp@.take(comp@.len() as int).contains(x as u16) && 0
                <= x < HW,
        ) =~= marks);
    }
    s.give_back(Buffer::Queue, q);
    s.count_rebuild(blanked, pops, highest);
    proof {
        assert forall|y: int| #[trigger] mark(cells@, p, y) implies (level@[y] == INF || level@[y]
            <= MAX_LEVEL) && supported(cells@, level@, p, y) by {
            assert(rests(cells@, level@, p, y));
            if level@[y] != INF {
                lemma_below_cap(cells@, level@, p, y);
            }
        }
        lemma_local_exact(cells@, level@, p);
    }
}

/// Once nothing is left in line, the line lists the alive cells, the highest one last.
proof fn lemma_reached(
    cells: Seq<i8>,
    level: Seq<u8>,
    p: i8,
    comp: Seq<u16>,
    q: Seq<u16>,
    top: int,
    highest: int,
)
    requires
        top < INF,
        q.no_duplicates(),
        forall|j: int|
            0 <= j < q.len() ==> mark(cells, p, (#[trigger] q[j]) as int) && comp.contains(q[j])
                && level[q[j] as int] <= top,
        forall|a: int, b: int|
            0 <= a <= b < q.len() ==> level[(#[trigger] q[a]) as int] <= level[(
            #[trigger] q[b]) as int],
        forall|y: int| #[trigger]
            mark(cells, p, y) && comp.contains(y as u16) && level[y] != INF ==> q.contains(
                y as u16,
            ),
        highest == (if q.len() > 0 {
            level[q.last() as int] as int
        } else {
            0
        }),
    ensures
        q.len() == cells_in(alive_of(level, marks_of(cells, p, comp))),
        highest == highest_level(level, marks_of(cells, p, comp), HW as nat),
{
    let marks = marks_of(cells, p, comp);
    let alive = alive_of(level, marks);
    assert forall|x: int| 0 <= x < HW implies (#[trigger] alive.contains(x) <==> q.contains(
        x as u16,
    )) by {
        if q.contains(x as u16) {
            let j = q.index_of(x as u16);
            assert(q[j] == x as u16);
        }
        if alive.contains(x) {
            assert(mark(cells, p, x));
        }
    }
    assert forall|j: int| 0 <= j < q.len() implies (#[trigger] q[j]) < HW by {
        assert(mark(cells, p, q[j] as int));
    }
    lemma_cells_in(q, alive);
    assert forall|x: int| 0 <= x < HW && #[trigger] marks.contains(x) && level[x] != INF implies level[x]
        <= highest by {
        assert(mark(cells, p, x));
        assert(alive.contains(x));
        let j = q.index_of(x as u16);
        assert(q[j] == x as u16);
        assert(level[q[j] as int] <= level[q[q.len() - 1] as int]);
    }
    lemma_highest(level, marks, HW as nat, highest);
    if q.len() > 0 {
        let x = q[q.len() - 1] as int;
        assert(mark(cells, p, x));
        assert(marks.contains(x));
    }
}

/// A blanked component, its border cells in line, is where spreading starts.
proof fn lemma_blanked(
    cells: Seq<i8>,
    before: Seq<u8>,
    blank: Seq<u8>,
    p: i8,
    comp: Seq<u16>,
    q: Seq<u16>,
)
    requires
        is_player(p),
        q.no_duplicates(),
        cells.len() == HW,
        before.len() == HW,
        blank.len() == HW,
        closed_list(cells, p, comp),
        forall|y: int| #[trigger]
            mark(cells, p, y) && !comp.contains(y as u16) ==> is_level(cells, y, before[y]),
        forall|i: int|
            0 <= i < HW && !(mark(cells, p, i) && comp.contains(i as u16))
                ==> #[trigger] blank[i] == before[i],
        forall|y: int| #[trigger]
            mark(cells, p, y) && comp.contains(y as u16) ==> blank[y] == (if border(y) {
                0u8
            } else {
                INF
            }),
        forall|j: int|
            0 <= j < q.len() ==> mark(cells, p, (#[trigger] q[j]) as int) && comp.contains(q[j])
                && blank[q[j] as int] == 0,
        forall|j: int|
            0 <= j < comp.len() && mark(cells, p, (#[trigger] comp[j]) as int)
                && blank[comp[j] as int] == 0 ==> q.contains(comp[j]),
    ensures
        spreading(cells, blank, p, comp, q, 0, -1, 0, 1),
{
    broadcast use crate::board::lemma_nb;

    assert forall|y: int| #[trigger] mark(cells, p, y) implies (border(y) ==> blank[y] == 0)
        && rests(cells, blank, p, y) by {
        if !comp.contains(y as u16) {
            lemma_outside(cells, before, blank, p, comp, y);
        }
    }
    assert forall|y: int| #[trigger]
        mark(cells, p, y) && comp.contains(y as u16) && blank[y] != INF implies q.contains(
        y as u16,
    ) by {
        let j = comp.index_of(y as u16);
        assert(comp[j] == y as u16);
    }
    assert forall|y: int| #[trigger] mark(cells, p, y) implies relaxed(cells, blank, p, y)
        || exists|j: int| 0 <= j < q.len() && #[trigger] q[j] == y as u16 by {
        if comp.contains(y as u16) {
            if blank[y] != INF {
                assert(q.contains(y as u16));
            }
        } else {
            lemma_outside(cells, before, blank, p, comp, y);
        }
    }
}

/// Outside a closed list the exact levels are locally consistent among themselves.
proof fn lemma_outside(
    cells: Seq<i8>,
    before: Seq<u8>,
    blank: Seq<u8>,
    p: i8,
    comp: Seq<u16>,
    x: int,
)
    requires
        is_player(p),
        cells.len() == HW,
        before.len() == HW,
        blank.len() == HW,
        closed_list(cells, p, comp),
        forall|y: int| #[trigger]
            mark(cells, p, y) && !comp.contains(y as u16) ==> is_level(cells, y, before[y]),
        forall|i: int|
            0 <= i < HW && !(mark(cells, p, i) && comp.contains(i as u16))
                ==> #[trigger] blank[i] == before[i],
        mark(cells, p, x),
        !comp.contains(x as u16),
    ensures
        border(x) ==> blank[x] == 0,
        rests(cells, blank, p, x),
        relaxed(cells, blank, p, x),
{
    broadcast use crate::board::lemma_nb;

    assert(blank[x] == before[x]);
    assert(is_level(cells, x, before[x]));
    assert forall|d: int| 0 <= d < 4 && mark(cells, p, #[trigger] nb(x, d)) implies !comp.contains(
        nb(x, d) as u16,
    ) && blank[nb(x, d)] == before[nb(x, d)] && is_level(cells, nb(x, d), before[nb(x, d)]) by {
        crate::board::lemma_nb_back(x, d);
        assert(mark(cells, p, nb(nb(x, d), 3 - d)));
    }
    crate::levels::lemma_exact_near(cells, before, p, x);
    if before[x] != INF && !border(x) {
        let e = choose|e: int|
            0 <= e < 4 && mark(cells, p, #[trigger] nb(x, e)) && before[nb(x, e)] + 1
                == before[x];
        assert(mark(cells, p, nb(x, e)) && blank[nb(x, e)] + 1 == blank[x]);
    }
}

// ---------------------------------------------------------------------- walking levels up

/// The lowest level among the first `k` neighbours of `i` that hold a mark of `p`.
pub open spec fn best_neighbour(cells: Seq<i8>, level: Seq<u8>, p: i8, i: int, k: nat) -> u8
    decreases k,
{
    if k == 0 {
        INF
    } else {
        let best = best_neighbour(cells, level, p, i, (k - 1) as nat);
        let n = nb(i, k - 1);
        if mark(cells, p, n) && level[n] < best {
            level[n]
        } else {
            best
        }
    }
}

/// The level `i` should have as a mark of `p`, read off the levels of its neighbours: 0 on
/// the border, else one above the lowest of them, and [`INF`] past the cap.
pub open spec fn derived_level(cells: Seq<i8>, level: Seq<u8>, p: i8, i: int) -> u8 {
    let best = best_neighbour(cells, level, p, i, 4);
    if border(i) {
        0
    } else if best >= MAX_LEVEL {
        INF
    } else {
        (best + 1) as u8
    }
}

pub proof fn lemma_best_neighbour(cells: Seq<i8>, level: Seq<u8>, p: i8, i: int, k: nat)
    requires
        k <= 4,
    ensures
        forall|d: int|
            0 <= d < k && mark(cells, p, #[trigger] nb(i, d)) ==> best_neighbour(
                cells,
                level,
                p,
                i,
                k,
            ) <= level[nb(i, d)],
        best_neighbour(cells, level, p, i, k) == INF || exists|d: int|
            0 <= d < k && mark(cells, p, #[trigger] nb(i, d)) && level[nb(i, d)]
                == best_neighbour(cells, level, p, i, k),
    decreases k,
{
    if k > 0 {
        lemma_best_neighbour(cells, level, p, i, (k - 1) as nat);
        let n = nb(i, k - 1);
        let best = best_neighbour(cells, level, p, i, (k - 1) as nat);
        if mark(cells, p, n) && level[n] < best {
            assert(mark(cells, p, nb(i, k - 1)));
        } else if best != INF {
            let d = choose|d: int|
                0 <= d < k - 1 && mark(cells, p, #[trigger] nb(i, d)) && level[nb(i, d)] == best;
            assert(mark(cells, p, nb(i, d)));
        }
    }
}

/// What `i`'s level should be. `i` itself is not consulted, so this is equally valid for a
/// cell about to become a mark and for one that already is.
pub(crate) fn computed_level(cells: &[i8], level: &[u8], i: usize, p: i8) -> (l: u8)
    requires
        cells@.len() == HW,
        level@.len() == HW,
        i < HW,
    ensures
        l == derived_level(cells@, level@, p, i as int),
        l == INF || l <= MAX_LEVEL,
        border(i as int) ==> l == 0,
        forall|d: int|
            0 <= d < 4 && mark(cells@, p, #[trigger] nb(i as int, d)) && level@[nb(i as int, d)]
                < MAX_LEVEL ==> l <= level@[nb(i as int, d)] + 1,
        l == INF || border(i as int) || exists|d: int|
            0 <= d < 4 && mark(cells@, p, #[trigger] nb(i as int, d)) && level@[nb(i as int, d)]
                + 1 == l,
{
    proof {
        lemma_best_neighbour(cells@, level@, p, i as int, 4);
    }
    if on_border(i) {
        return 0;
    }
    let mut best: u8 = INF;
    let mut d: usize = 0;
    while d < 4
        invariant
            d <= 4,
            i < HW,
            cells@.len() == HW,
            level@.len() == HW,
            best == best_neighbour(cells@, level@, p, i as int, d as nat),
        decreases 4 - d,
    {
        if let Some(n) = step(i, d) {
            if cells[n] == p && level[n] < best {
                best = level[n];
            }
        }
        d = d + 1;
    }
    if best >= MAX_LEVEL {
        // no real path can be this long, so there is no path at all
        INF
    } else {
        best + 1
    }
}

/// No mark next to `x` is more than one level above it, below the cap.
spec fn relaxed_below_cap(cells: Seq<i8>, level: Seq<u8>, p: i8, x: int) -> bool {
    level[x] < MAX_LEVEL ==> relaxed(cells, level, p, x)
}

/// Is `x` waiting at a level not above its own?
spec fn waiting_low(level: Seq<u8>, q: Seq<Seq<u16>>, x: int) -> bool {
    exists|b: int| 0 <= b <= level[x] && b < levels_kept() && (#[trigger] q[b]).contains(x as u16)
}

/// What holds while levels are walked up: none is too high, and whoever has lost what it
/// rested on is waiting to be re-derived. `skip` is the cell whose turn it is.
spec fn rising(
    cells: Seq<i8>,
    level: Seq<u8>,
    p: i8,
    q: Seq<Seq<u16>>,
    cur: int,
    skip: int,
) -> bool {
    &&& q.len() == levels_kept()
    &&& forall|b: int| 0 <= b < cur && b < levels_kept() ==> (#[trigger] q[b]).len() == 0
    &&& forall|b: int, j: int|
        0 <= b < levels_kept() && 0 <= j < q[b].len() ==> mark(
            cells,
            p,
            (#[trigger] q[b][j]) as int,
        ) && b <= level[q[b][j] as int]
    &&& grounded(cells, level, p)
    &&& capped(cells, level, p)
    &&& forall|y: int| #[trigger] mark(cells, p, y) ==> relaxed_below_cap(cells, level, p, y)
    &&& forall|y: int| #[trigger]
        mark(cells, p, y) && y != skip ==> supported(cells, level, p, y) || waiting_low(
            level,
            q,
            y,
        )
}

/// Queueing a mark at its own level, or one not above it, keeps [`rising`].
proof fn lemma_rising_push(
    cells: Seq<i8>,
    level: Seq<u8>,
    p: i8,
    q: Seq<Seq<u16>>,
    cur: int,
    skip: int,
    n: int,
    b: int,
)
    requires
        rising(cells, level, p, q, cur, skip),
        mark(cells, p, n),
        0 <= b <= level[n],
        cur <= b < levels_kept(),
    ensures
        rising(
            cells,
            level,
            p,
            q.update(b, q[b].push(n as u16)),
            cur,
            if skip == n {
                -1
            } else {
                skip
            },
        ),
{
    let q2 = q.update(b, q[b].push(n as u16));
    assert forall|c: int, j: int| 0 <= c < levels_kept() && 0 <= j < q2[c].len() implies mark(
        cells,
        p,
        (#[trigger] q2[c][j]) as int,
    ) && c <= level[q2[c][j] as int] by {
        if c == b && j == q[b].len() {
        } else {
            assert(q2[c][j] == q[c][j]);
        }
    }
    assert(q2[b][q2[b].len() - 1] == n as u16);
    assert(q2[b].contains(n as u16));
    assert forall|y: int| #[trigger]
        mark(cells, p, y) && (y != skip || y == n) && !supported(
            cells,
            level,
            p,
            y,
        ) implies waiting_low(level, q2, y) by {
        if y != n {
            let c = choose|c: int|
                0 <= c <= level[y] && c < levels_kept() && (#[trigger] q[c]).contains(y as u16);
            let j = q[c].index_of(y as u16);
            assert(q2[c][j] == y as u16);
            assert(q2[c].contains(y as u16));
        }
    }
}

/// Taking an entry out of the queue leaves everyone but that cell accounted for.
proof fn lemma_rising_pop(
    cells: Seq<i8>,
    level: Seq<u8>,
    p: i8,
    q0: Seq<Seq<u16>>,
    q1: Seq<Seq<u16>>,
    cur: int,
    b: int,
    n: int,
)
    requires
        rising(cells, level, p, q0, cur, -1),
        cur <= b,
        0 <= b < levels_kept(),
        forall|c: int| cur <= c < b ==> (#[trigger] q0[c]).len() == 0,
        q0[b].len() > 0,
        n == q0[b].last(),
        q1 == q0.update(b, q0[b].drop_last()),
    ensures
        rising(cells, level, p, q1, b, n),
        mark(cells, p, n),
        b <= level[n],
{
    assert(q0[b][q0[b].len() - 1] == n as u16);
    assert forall|c: int, j: int| 0 <= c < levels_kept() && 0 <= j < q1[c].len() implies mark(
        cells,
        p,
        (#[trigger] q1[c][j]) as int,
    ) && c <= level[q1[c][j] as int] by {
        assert(q1[c][j] == q0[c][j]);
    }
    assert forall|y: int| #[trigger]
        mark(cells, p, y) && y != n && !supported(cells, level, p, y) implies waiting_low(
        level,
        q1,
        y,
    ) by {
        let c = choose|c: int|
            0 <= c <= level[y] && c < levels_kept() && (#[trigger] q0[c]).contains(y as u16);
        let j = q0[c].index_of(y as u16);
        assert(q0[c][j] == y as u16);
        if c == b {
            assert(j < q0[b].len() - 1);
        }
        assert(q1[c][j] == y as u16);
        assert(q1[c].contains(y as u16));
    }
}

/// Is `m` accounted for, once `n` has risen from level `cur`: supported, waiting, or one of
/// the neighbours from direction `from` on that rested on `n`?
spec fn dependants_left(
    cells: Seq<i8>,
    level: Seq<u8>,
    p: i8,
    q: Seq<Seq<u16>>,
    n: int,
    cur: int,
    from: int,
    m: int,
) -> bool {
    ||| supported(cells, level, p, m)
    ||| waiting_low(level, q, m)
    ||| exists|d: int| from <= d < 4 && m == #[trigger] nb(n, d) && level[m] == cur + 1
}

/// [`rising`], but for the neighbours of `n` from direction `from` on.
spec fn rising_but(
    cells: Seq<i8>,
    level: Seq<u8>,
    p: i8,
    q: Seq<Seq<u16>>,
    cur: int,
    n: int,
    from: int,
) -> bool {
    &&& q.len() == levels_kept()
    &&& forall|b: int| 0 <= b < cur && b < levels_kept() ==> (#[trigger] q[b]).len() == 0
    &&& forall|b: int, j: int|
        0 <= b < levels_kept() && 0 <= j < q[b].len() ==> mark(
            cells,
            p,
            (#[trigger] q[b][j]) as int,
        ) && b <= level[q[b][j] as int]
    &&& grounded(cells, level, p)
    &&& capped(cells, level, p)
    &&& forall|y: int| #[trigger] mark(cells, p, y) ==> relaxed_below_cap(cells, level, p, y)
    &&& forall|y: int| #[trigger]
        mark(cells, p, y) ==> dependants_left(cells, level, p, q, n, cur, from, y)
}

/// Raising `n` to the level its neighbours give it leaves only those that rested on it to be
/// accounted for.
proof fn lemma_raise(
    cells: Seq<i8>,
    level: Seq<u8>,
    p: i8,
    q: Seq<Seq<u16>>,
    cur: int,
    n: int,
    l: u8,
)
    requires
        rising(cells, level, p, q, cur, n),
        mark(cells, p, n),
        level[n] == cur,
        cur < l,
        l == INF || l <= MAX_LEVEL,
        !border(n),
        forall|d: int|
            0 <= d < 4 && mark(cells, p, #[trigger] nb(n, d)) && level[nb(n, d)] < MAX_LEVEL ==> l
                <= level[nb(n, d)] + 1,
        l == INF || exists|d: int|
            0 <= d < 4 && mark(cells, p, #[trigger] nb(n, d)) && level[nb(n, d)] + 1 == l,
    ensures
        rising_but(cells, level.update(n, l), p, q, cur, n, 0),
{
    broadcast use crate::board::lemma_nb;

    let l2 = level.update(n, l);
    assert forall|b: int, j: int| 0 <= b < levels_kept() && 0 <= j < q[b].len() implies mark(
        cells,
        p,
        (#[trigger] q[b][j]) as int,
    ) && b <= l2[q[b][j] as int] by {}
    assert forall|y: int| #[trigger] mark(cells, p, y) implies relaxed_below_cap(
        cells,
        l2,
        p,
        y,
    ) by {
        assert(relaxed_below_cap(cells, level, p, y));
        if l2[y] < MAX_LEVEL {
            assert forall|d: int| 0 <= d < 4 && mark(cells, p, #[trigger] nb(y, d)) implies l2[nb(
                y,
                d,
            )] <= l2[y] + 1 by {
                if nb(y, d) == n {
                    crate::board::lemma_nb_back(y, d);
                    assert(nb(n, 3 - d) == y);
                }
            }
        }
    }
    assert forall|y: int| #[trigger] mark(cells, p, y) implies dependants_left(
        cells,
        l2,
        p,
        q,
        n,
        cur,
        0,
        y,
    ) by {
        if y == n {
            if l != INF {
                let d = choose|d: int|
                    0 <= d < 4 && mark(cells, p, #[trigger] nb(n, d)) && level[nb(n, d)] + 1 == l;
                assert(mark(cells, p, nb(n, d)) && l2[nb(n, d)] < l2[n]);
            }
        } else if supported(cells, level, p, y) {
            if level[y] != INF && !border(y) {
                let e = choose|e: int|
                    0 <= e < 4 && mark(cells, p, #[trigger] nb(y, e)) && level[nb(y, e)]
                        < level[y];
                if nb(y, e) != n {
                    assert(mark(cells, p, nb(y, e)) && l2[nb(y, e)] < l2[y]);
                } else {
                    crate::board::lemma_nb_back(y, e);
                    assert(nb(n, 3 - e) == y);
                    assert(relaxed_below_cap(cells, level, p, n));
                    assert(mark(cells, p, nb(n, 3 - e)));
                    assert(level[y] == cur + 1);
                }
            }
        } else {
            let b = choose|b: int|
                0 <= b <= level[y] && b < levels_kept() && (#[trigger] q[b]).contains(y as u16);
            assert(q[b].contains(y as u16));
        }
    }
}

/// The state of an upward repair: the levels, the cells that wait at each level, and the
/// counters.
#[verifier::ext_equal]
pub struct Repair {
    pub level: Seq<u8>,
    pub queue: Seq<Seq<u16>>,
    pub stats: Stats,
}

/// The lowest level, from `b` on, at which a cell waits.
pub open spec fn lowest(q: Seq<Seq<u16>>, b: int) -> int
    decreases levels_kept() - b,
{
    if b >= levels_kept() || q[b].len() > 0 {
        b
    } else {
        lowest(q, b + 1)
    }
}

/// The queue with those of the first `k` neighbours of `n` that are marks at level `l`.
pub open spec fn requeued(
    cells: Seq<i8>,
    level: Seq<u8>,
    p: i8,
    n: int,
    l: u8,
    q: Seq<Seq<u16>>,
    k: nat,
) -> Seq<Seq<u16>>
    decreases k,
{
    if k == 0 {
        q
    } else {
        let r = requeued(cells, level, p, n, l, q, (k - 1) as nat);
        let m = nb(n, k - 1);
        if mark(cells, p, m) && level[m] == l {
            r.update(l as int, r[l as int].push(m as u16))
        } else {
            r
        }
    }
}

/// The queue with the first `k` of the seeds, each at its level.
pub open spec fn seeds_queued(
    level: Seq<u8>,
    seeds: Seq<u16>,
    q: Seq<Seq<u16>>,
    k: nat,
) -> Seq<Seq<u16>>
    decreases k,
{
    if k == 0 {
        q
    } else {
        let r = seeds_queued(level, seeds, q, (k - 1) as nat);
        let l = level[seeds[k - 1] as int] as int;
        r.update(l, r[l].push(seeds[k - 1]))
    }
}

/// No cell waits.
pub open spec fn none_wait() -> Seq<Seq<u16>> {
    Seq::new(levels_kept() as nat, |b: int| Seq::<u16>::empty())
}

/// One step of an upward repair: the last cell that came to the lowest level at which any
/// waits is taken. If it is at that level and its neighbours no longer give it that, it is
/// raised, and those that rested on it are put in line.
pub open spec fn repair_step(cells: Seq<i8>, p: i8, r: Repair) -> Repair {
    let b = lowest(r.queue, 0);
    if b >= levels_kept() {
        r
    } else {
        let n = r.queue[b].last() as int;
        let q = r.queue.update(b, r.queue[b].drop_last());
        let cur = r.level[n];
        let l = derived_level(cells, r.level, p, n);
        let taken = Repair { level: r.level, queue: q, stats: r.stats.popped() };
        if cur == INF {
            taken
        } else if cur != b {
            Repair { queue: q.update(cur as int, q[cur as int].push(n as u16)), ..taken }
        } else if l <= cur {
            taken
        } else {
            let level = r.level.update(n, l);
            Repair {
                level,
                queue: requeued(cells, level, p, n, (cur + 1) as u8, q, 4),
                stats: taken.stats.raised(
                    l,
                    best_neighbour(cells, r.level, p, n, 4) != INF,
                ),
            }
        }
    }
}

/// So many steps of an upward repair.
pub open spec fn repair_steps(cells: Seq<i8>, p: i8, r: Repair, k: nat) -> Repair
    decreases k,
{
    if k == 0 {
        r
    } else {
        repair_step(cells, p, repair_steps(cells, p, r, (k - 1) as nat))
    }
}

/// Nothing waits any more.
pub open spec fn repair_done(r: Repair) -> bool {
    lowest(r.queue, 0) >= levels_kept()
}

/// An upward repair, once nothing waits any more.
pub open spec fn repair_end(cells: Seq<i8>, p: i8, r: Repair) -> Repair {
    repair_steps(
        cells,
        p,
        r,
        choose|k: nat| repair_done(#[trigger] repair_steps(cells, p, r, k)),
    )
}

/// An upward repair that starts from these seeds.
pub open spec fn repair_begin(level: Seq<u8>, seeds: Seq<u16>, st: Stats) -> Repair {
    Repair {
        level,
        queue: seeds_queued(level, seeds, none_wait(), seeds.len()),
        stats: st.repairing(),
    }
}

/// A repair that is done stays as it is.
proof fn lemma_stays_done(cells: Seq<i8>, p: i8, r: Repair, k: nat, m: nat)
    requires
        repair_done(repair_steps(cells, p, r, k)),
        k <= m,
    ensures
        repair_steps(cells, p, r, m) == repair_steps(cells, p, r, k),
    decreases m - k,
{
    if k < m {
        lemma_stays_done(cells, p, r, k, (m - 1) as nat);
    }
}

/// The end of a repair is where it is done.
proof fn lemma_repair_end(cells: Seq<i8>, p: i8, r: Repair, k: nat)
    requires
        repair_done(repair_steps(cells, p, r, k)),
    ensures
        repair_end(cells, p, r) == repair_steps(cells, p, r, k),
{
    let m = choose|m: nat| repair_done(#[trigger] repair_steps(cells, p, r, m));
    if k <= m {
        lemma_stays_done(cells, p, r, k, m);
    } else {
        lemma_stays_done(cells, p, r, m, k);
    }
}

/// A level below which none waits, and at which one does, is the lowest.
proof fn lemma_lowest(q: Seq<Seq<u16>>, from: int, b: int)
    requires
        0 <= from <= b <= levels_kept(),
        forall|c: int| from <= c < b ==> (#[trigger] q[c]).len() == 0,
        b < levels_kept() ==> q[b].len() > 0,
    ensures
        lowest(q, from) == b,
    decreases b - from,
{
    if from < b {
        lemma_lowest(q, from + 1, b);
    }
}

/// Is a mark of `p` next to `i` alive?
fn alive_near(cells: &[i8], level: &[u8], i: usize, p: i8) -> (r: bool)
    requires
        cells@.len() == HW,
        level@.len() == HW,
        i < HW,
    ensures
        r == (best_neighbour(cells@, level@, p, i as int, 4) != INF),
{
    let mut r: bool = false;
    let mut d: usize = 0;
    while d < 4
        invariant
            d <= 4,
            i < HW,
            cells@.len() == HW,
            level@.len() == HW,
            r == (best_neighbour(cells@, level@, p, i as int, d as nat) != INF),
        decreases 4 - d,
    {
        if let Some(n) = step(i, d) {
            if cells[n] == p && level[n] != INF {
                r = true;
            }
        }
        d = d + 1;
    }
    r
}

/// Repair levels upward after a removal: levels only ever rise here.
///
/// `seeds` are the cells that might have been routing through the deleted cell. Each is
/// re-derived from its surviving neighbours; if it comes out unchanged it had another route
/// and nothing behind it can be affected, so the walk stops there.
#[verifier::spinoff_prover]
pub(crate) fn repair_up(cells: &[i8], level: &mut [u8], seeds: &Vec<u16>, p: i8, s: &mut Scratch)
    requires
        is_player(p),
        old(s).wf(),
        grounded(cells@, old(level)@, p),
        capped(cells@, old(level)@, p),
        forall|y: int| #[trigger] mark(cells@, p, y) ==> relaxed(cells@, old(level)@, p, y),
        forall|y: int| #[trigger]
            mark(cells@, p, y) ==> supported(cells@, old(level)@, p, y) || seeds@.contains(
                y as u16,
            ),
        forall|j: int|
            0 <= j < seeds@.len() ==> mark(cells@, p, (#[trigger] seeds@[j]) as int)
                && old(level)@[seeds@[j] as int] != INF,
    ensures
        final(s).wf(),
        final(s).same_settings(old(s)),
        final(s).counters() == repair_end(
            cells@,
            p,
            repair_begin(old(level)@, seeds@, old(s).counters()),
        ).stats,
        final(level)@.len() == HW,
        exact_for(cells@, final(level)@, p),
        forall|i: int|
            0 <= i < HW && !mark(cells@, p, i) ==> #[trigger] final(level)@[i] == old(level)@[i],
{
    let ghost begin = repair_begin(old(level)@, seeds@, old(s).counters());
    s.queue_reset();
    s.count_repair();
    proof {
        s.lemma_queue_len();
        assert forall|b: int| 0 <= b < levels_kept() implies #[trigger] s.queue()[b] == Seq::<
            u16,
        >::empty() by {
            assert(old(s).queue()[b].len() == 0);
            assert(s.queue()[b] =~= Seq::<u16>::empty());
        }
        assert(s.queue() =~= none_wait());
    }
    let mut k: usize = 0;
    while k < seeds.len()
        invariant
            k <= seeds@.len(),
            level@ == old(level)@,
            s.inv(),
            s.same_settings(old(s)),
            s.counters() == old(s).counters().repairing(),
            s.queue() == seeds_queued(level@, seeds@, none_wait(), k as nat),
            s.cursor() == 0,
            grounded(cells@, level@, p),
            capped(cells@, level@, p),
            s.queue().len() == levels_kept(),
            forall|b: int, j: int|
                0 <= b < levels_kept() && 0 <= j < s.queue()[b].len() ==> mark(
                    cells@,
                    p,
                    (#[trigger] s.queue()[b][j]) as int,
                ) && b <= level@[s.queue()[b][j] as int],
            forall|j: int|
                0 <= j < seeds@.len() ==> mark(cells@, p, (#[trigger] seeds@[j]) as int)
                    && level@[seeds@[j] as int] != INF,
            forall|j: int|
                0 <= j < k ==> waiting_low(level@, s.queue(), (#[trigger] seeds@[j]) as int),
        decreases seeds@.len() - k,
    {
        let n: usize = seeds[k] as usize;
        assert(mark(cells@, p, seeds@[k as int] as int));
        let l: u8 = level[n];
        let ghost q = s.queue();
        s.push(n, l);
        proof {
            let q2 = s.queue();
            assert forall|c: int, j: int|
                0 <= c < levels_kept() && 0 <= j < q2[c].len() implies mark(
                cells@,
                p,
                (#[trigger] q2[c][j]) as int,
            ) && c <= level@[q2[c][j] as int] by {
                if c == l && j == q[l as int].len() {
                } else {
                    assert(q2[c][j] == q[c][j]);
                }
            }
            assert forall|j: int| 0 <= j < k + 1 implies waiting_low(
                level@,
                q2,
                (#[trigger] seeds@[j]) as int,
            ) by {
                let y = seeds@[j] as int;
                if j == k {
                    assert(q2[l as int][q2[l as int].len() - 1] == n as u16);
                    assert(q2[l as int].contains(y as u16));
                } else {
                    assert(waiting_low(level@, q, y));
                    let c = choose|c: int|
                        0 <= c <= level@[y] && c < levels_kept() && (#[trigger] q[c]).contains(
                            y as u16,
                        );
                    let h = q[c].index_of(y as u16);
                    assert(q2[c][h] == y as u16);
                    assert(q2[c].contains(y as u16));
                }
            }
        }
        k = k + 1;
    }
    proof {
        assert forall|y: int| #[trigger] mark(cells@, p, y) implies supported(cells@, level@, p, y)
            || waiting_low(level@, s.queue(), y) by {
            if seeds@.contains(y as u16) {
                let j = seeds@.index_of(y as u16);
                assert(waiting_low(level@, s.queue(), seeds@[j] as int));
            }
        }
    }
    let ghost mut steps: nat = 0;
    loop
        invariant
            is_player(p),
            s.inv(),
            s.same_settings(old(s)),
            repair_steps(cells@, p, begin, steps) == (Repair {
                level: level@,
                queue: s.queue(),
                stats: s.counters(),
            }),
            old(level)@.len() == HW,
            rising(cells@, level@, p, s.queue(), s.cursor(), -1),
            forall|i: int|
                0 <= i < HW && !mark(cells@, p, i) ==> #[trigger] level@[i] == old(level)@[i],
        ensures
            s.queue_empty(),
        decreases 255 * HW - level_sum(level@), queue_weight(s.queue()),
    {
        let ghost q0 = s.queue();
        let ghost c0 = s.cursor();
        let ghost now = repair_steps(cells@, p, begin, steps);
        proof {
            lemma_level_sum_bounds(level@);
            lemma_queue_weight_nonneg(s.queue());
        }
        let next = s.pop();
        match next {
            None => {
                break ;
            },
            Some((n, bucket)) => {
                s.count_pop();
                let ghost b = bucket as int;
                let ghost q1 = s.queue();
                proof {
                    lemma_lowest(q0, 0, b);
                    assert(repair_steps(cells@, p, begin, steps + 1) == repair_step(
                        cells@,
                        p,
                        now,
                    ));
                    steps = steps + 1;
                    lemma_queue_weight_set(q0, b, q0[b].drop_last());
                    let k = levels_kept() - b;
                    assert(k * (-1) == -k) by (nonlinear_arith);
                    lemma_queue_weight_nonneg(s.queue());
                    assert(q0[b][q0[b].len() - 1] == n as u16);
                    lemma_rising_pop(cells@, level@, p, q0, q1, c0, b, n as int);
                }
                let cur: u8 = level[n];
                if cur == INF {
                    // already dead; levels only rise, so it stays dead
                    continue ;
                }
                if cur != bucket {
                    // level rose after this entry was queued; handle it at its real level
                    proof {
                        lemma_rising_push(
                            cells@,
                            level@,
                            p,
                            q1,
                            b,
                            n as int,
                            n as int,
                            cur as int,
                        );
                        assert(capped(cells@, level@, p));
                        lemma_queue_weight_set(q1, cur as int, q1[cur as int].push(n as u16));
                        let k = levels_kept() - cur;
                        assert(k * 1 == k) by (nonlinear_arith);
                    }
                    s.push(n, cur);
                    continue ;
                }
                let cand: u8 = computed_level(cells, level, n, p);
                if cand <= cur {
                    // n had another provider all along
                    proof {
                        if !border(n as int) {
                            let d = choose|d: int|
                                0 <= d < 4 && mark(cells@, p, #[trigger] nb(n as int, d))
                                    && level@[nb(n as int, d)] + 1 == cand;
                            assert(mark(cells@, p, nb(n as int, d)));
                        }
                        assert(supported(cells@, level@, p, n as int));
                    }
                    continue ;
                }
                proof {
                    lemma_raise(cells@, level@, p, q1, b, n as int, cand);
                    lemma_level_sum_set(level@, n as int, cand);
                }
                let alive: bool = cand == INF && alive_near(cells, level, n, p);
                s.count_raise(cand, alive);
                level[n] = cand;
                proof {
                    lemma_level_sum_bounds(level@);
                }
                // dependants are defined by the level n used to hold: that is what they
                // pointed at
                requeue_dependants(cells, level, n, p, cur, s);
            },
        }
    }
    proof {
        lemma_risen(cells@, level@, p, s.queue());
        lemma_lowest(s.queue(), 0, levels_kept());
        lemma_repair_end(cells@, p, begin, steps);
    }
}

/// Queue every neighbour of `n` that is one level above `cur`.
fn requeue_dependants(cells: &[i8], level: &[u8], n: usize, p: i8, cur: u8, s: &mut Scratch)
    requires
        old(s).inv(),
        n < HW,
        cur <= MAX_LEVEL,
        old(s).cursor() <= cur,
        rising_but(cells@, level@, p, old(s).queue(), old(s).cursor(), n as int, 0),
        old(s).cursor() == cur,
    ensures
        final(s).inv(),
        final(s).same_account(old(s)),
        final(s).queue() == requeued(
            cells@,
            level@,
            p,
            n as int,
            (cur + 1) as u8,
            old(s).queue(),
            4,
        ),
        rising(cells@, level@, p, final(s).queue(), final(s).cursor(), -1),
{
    let target: u8 = cur + 1;
    let mut d: usize = 0;
    while d < 4
        invariant
            d <= 4,
            n < HW,
            s.inv(),
            s.same_account(old(s)),
            s.cursor() == cur,
            target == cur + 1,
            cur <= MAX_LEVEL,
            s.queue() == requeued(cells@, level@, p, n as int, target, old(s).queue(), d as nat),
            rising_but(cells@, level@, p, s.queue(), cur as int, n as int, d as int),
        decreases 4 - d,
    {
        let ghost q = s.queue();
        let ghost mut hit: bool = false;
        if let Some(m) = step(n, d) {
            if cells[m] == p && level[m] == target {
                proof {
                    hit = true;
                    assert(mark(cells@, p, m as int));
                }
                s.push(m, target);
            }
        }
        proof {
            let q2 = s.queue();
            let t = target as int;
            if hit {
                let m = nb(n as int, d as int);
                assert(q2[t][q2[t].len() - 1] == m as u16);
                assert(q2[t].contains(m as u16));
            }
            assert forall|c: int, j: int|
                0 <= c < levels_kept() && 0 <= j < q2[c].len() implies mark(
                cells@,
                p,
                (#[trigger] q2[c][j]) as int,
            ) && c <= level@[q2[c][j] as int] by {
                if hit && c == t && j == q[t].len() {
                } else {
                    assert(q2[c][j] == q[c][j]);
                }
            }
            assert forall|y: int| #[trigger] mark(cells@, p, y) implies dependants_left(
                cells@,
                level@,
                p,
                q2,
                n as int,
                cur as int,
                d + 1,
                y,
            ) by {
                assert(dependants_left(
                    cells@,
                    level@,
                    p,
                    q,
                    n as int,
                    cur as int,
                    d as int,
                    y,
                ));
                if supported(cells@, level@, p, y) {
                } else if waiting_low(level@, q, y) {
                    let c = choose|c: int|
                        0 <= c <= level@[y] && c < levels_kept() && (#[trigger] q[c]).contains(
                            y as u16,
                        );
                    let h = q[c].index_of(y as u16);
                    assert(q2[c][h] == y as u16);
                    assert(q2[c].contains(y as u16));
                } else {
                    let e = choose|e: int|
                        d <= e < 4 && y == #[trigger] nb(n as int, e) && level@[y] == cur + 1;
                    if e == d {
                        assert(hit);
                    }
                }
            }
        }
        d = d + 1;
    }
    proof {
        assert forall|y: int| #[trigger] mark(cells@, p, y) implies supported(cells@, level@, p, y)
            || waiting_low(level@, s.queue(), y) by {
            assert(dependants_left(
                cells@,
                level@,
                p,
                s.queue(),
                n as int,
                cur as int,
                4,
                y,
            ));
        }
    }
}

/// Once nothing waits, the levels are exact.
proof fn lemma_risen(cells: Seq<i8>, level: Seq<u8>, p: i8, q: Seq<Seq<u16>>)
    requires
        is_player(p),
        exists|cur: int| #[trigger] rising(cells, level, p, q, cur, -1),
        forall|b: int| 0 <= b < levels_kept() ==> (#[trigger] q[b]).len() == 0,
    ensures
        exact_for(cells, level, p),
{
    broadcast use crate::board::lemma_nb;

    assert forall|y: int| #[trigger] mark(cells, p, y) implies supported(cells, level, p, y)
        && rests(cells, level, p, y) by {
        if waiting_low(level, q, y) {
            let b = choose|b: int|
                0 <= b <= level[y] && b < levels_kept() && (#[trigger] q[b]).contains(y as u16);
            assert(q[b].len() == 0);
        }
        if level[y] != INF && !border(y) {
            let e = choose|e: int|
                0 <= e < 4 && mark(cells, p, #[trigger] nb(y, e)) && level[nb(y, e)] < level[y];
            let z = nb(y, e);
            crate::board::lemma_nb_back(y, e);
            assert(mark(cells, p, nb(z, 3 - e)));
            assert(mark(cells, p, z));
            assert(relaxed_below_cap(cells, level, p, z));
            assert(mark(cells, p, nb(y, e)) && level[nb(y, e)] + 1 == level[y]);
        }
    }
    assert forall|y: int| #[trigger] mark(cells, p, y) implies relaxed(cells, level, p, y) by {
        if level[y] != INF {
            lemma_below_cap(cells, level, p, y);
            assert(relaxed_below_cap(cells, level, p, y));
        }
    }
    lemma_local_exact(cells, level, p);
}

} // verus!
