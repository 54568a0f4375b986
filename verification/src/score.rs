//! Scoring: a diagonal run of two or more marks scores its length if it reaches the border.
use vstd::prelude::*;

use crate::board::{is_player, mark, mark_at, nb, row, step, HW, INF};
use crate::levels::{exact_for, is_level, lemma_exact_local, live, relaxed};
use crate::sums::{
    lemma_sum_change, lemma_sum_eq, lemma_sum_nonneg, lemma_sum_shift, lemma_sum_sub,
    lemma_sum_three, lemma_sum_upper, sum_to,
};

verus! {

/// The two diagonal families that score, by their forward direction: anti-diagonals hold
/// `r + c` constant, main diagonals hold `c - r` constant.
pub const ANTI: usize = 2;

pub const MAIN: usize = 3;

/// No board scores more than this.
pub const MAX_SCORE: i32 = 3200;

/// Is `v` the forward direction of one of the two families?
pub open spec fn family(v: int) -> bool {
    v == ANTI || v == MAIN
}

/// The number of marks of `p` in a row from `i` on, in direction `v`.
pub open spec fn run_from(cells: Seq<i8>, p: i8, i: int, v: int) -> nat
    decreases HW - i,
{
    if !mark(cells, p, i) || !family(v) {
        0
    } else if nb(i, v) < 0 {
        1
    } else {
        proof {
            crate::board::lemma_nb(i, v);
            crate::board::lemma_nb_index(i, v);
        }
        1 + run_from(cells, p, nb(i, v), v)
    }
}

/// What the run of family `v` that begins at `i` scores: its length, if `i` begins one, it is
/// at least two long, and it is alive.
pub open spec fn family_points(cells: Seq<i8>, p: i8, i: int, v: int, alive: bool) -> int {
    if mark(cells, p, i) && !mark(cells, p, nb(i, 3 - v)) && alive && run_from(cells, p, i, v)
        >= 2 {
        run_from(cells, p, i, v) as int
    } else {
        0
    }
}

/// What the runs that begin at `i` score, in both families.
pub open spec fn run_points(cells: Seq<i8>, p: i8, i: int, alive: bool) -> int {
    family_points(cells, p, i, ANTI as int, alive) + family_points(cells, p, i, MAIN as int, alive)
}

/// The score of player `p`: the sum of the lengths of the diagonal runs of two or more marks
/// that have a route to the border. A mark in a run of both families counts twice.
pub open spec fn score_of(cells: Seq<i8>, p: i8) -> int {
    sum_to(|i: int| run_points(cells, p, i, live(cells, p, i)), HW as nat)
}

/// The same, reading off the levels which marks are alive.
pub open spec fn score_by_level(cells: Seq<i8>, level: Seq<u8>, p: i8) -> int {
    sum_to(|i: int| run_points(cells, p, i, level[i] != INF), HW as nat)
}

/// A run fits on the board.
pub proof fn lemma_run_bound(cells: Seq<i8>, p: i8, i: int, v: int)
    ensures
        run_from(cells, p, i, v) <= 10,
        mark(cells, p, i) ==> run_from(cells, p, i, v) <= 10 - row(i),
    decreases HW - i,
{
    reveal(nb);
    if mark(cells, p, i) && family(v) && nb(i, v) >= 0 {
        crate::board::lemma_nb(i, v);
        crate::board::lemma_nb_index(i, v);
        lemma_run_bound(cells, p, nb(i, v), v);
    }
}

/// Whatever starts at one cell scores at most 20.
pub proof fn lemma_run_points_bound(cells: Seq<i8>, p: i8, i: int, alive: bool)
    ensures
        0 <= run_points(cells, p, i, alive) <= 20,
{
    lemma_run_bound(cells, p, i, ANTI as int);
    lemma_run_bound(cells, p, i, MAIN as int);
}

/// Scores are bounded.
pub proof fn lemma_score_bound(cells: Seq<i8>, p: i8)
    ensures
        0 <= score_of(cells, p) <= MAX_SCORE,
{
    let f = |i: int| run_points(cells, p, i, live(cells, p, i));
    assert forall|i: int| 0 <= i < HW implies 0 <= #[trigger] f(i) <= 20 by {
        lemma_run_points_bound(cells, p, i, live(cells, p, i));
    }
    lemma_sum_nonneg(f, HW as nat);
    lemma_sum_upper(f, HW as nat, 20);
}

/// With exact levels, the score can be read off them.
pub proof fn lemma_score_by_level(cells: Seq<i8>, level: Seq<u8>, p: i8)
    requires
        is_player(p),
        exact_for(cells, level, p),
    ensures
        score_by_level(cells, level, p) == score_of(cells, p),
        forall|i: int| #[trigger] mark(cells, p, i) ==> (level[i] != INF <==> live(cells, p, i)),
{
    assert forall|i: int| #[trigger] mark(cells, p, i) implies (level[i] != INF <==> live(
        cells,
        p,
        i,
    )) by {
        assert(is_level(cells, i, level[i]));
    }
    let f = |i: int| run_points(cells, p, i, level[i] != INF);
    let g = |i: int| run_points(cells, p, i, live(cells, p, i));
    assert forall|i: int| 0 <= i < HW implies #[trigger] f(i) == g(i) by {
        if mark(cells, p, i) {
        }
    }
    lemma_sum_eq(f, g, HW as nat);
}

// --------------------------------------------------------------------------- cell by cell

/// Has `x` an own neighbour in family `v`?
pub open spec fn linked(cells: Seq<i8>, p: i8, x: int, v: int) -> bool {
    mark(cells, p, nb(x, v)) || mark(cells, p, nb(x, 3 - v))
}

/// What `x` itself is worth in family `v`: a point, if it is an alive mark with an own
/// neighbour.
pub open spec fn cell_point(cells: Seq<i8>, level: Seq<u8>, p: i8, x: int, v: int) -> int {
    if mark(cells, p, x) && level[x] != INF && linked(cells, p, x, v) {
        1
    } else {
        0
    }
}

/// The points of all cells in family `v`.
pub open spec fn point_sum(cells: Seq<i8>, level: Seq<u8>, p: i8, v: int) -> int {
    sum_to(|x: int| cell_point(cells, level, p, x, v), HW as nat)
}

/// Neighbouring marks are alive together.
pub open spec fn uniform(cells: Seq<i8>, level: Seq<u8>, p: i8) -> bool {
    forall|x: int, d: int|
        0 <= d < 4 && mark(cells, p, x) && mark(cells, p, #[trigger] nb(x, d)) ==> (level[x] == INF
            <==> level[nb(x, d)] == INF)
}

pub proof fn lemma_uniform(cells: Seq<i8>, level: Seq<u8>, p: i8)
    requires
        is_player(p),
        cells.len() == HW,
        level.len() == HW,
        exact_for(cells, level, p),
    ensures
        uniform(cells, level, p),
{
    broadcast use crate::board::lemma_nb;

    lemma_exact_local(cells, level, p);
    assert forall|x: int, d: int|
        0 <= d < 4 && mark(cells, p, x) && mark(cells, p, #[trigger] nb(x, d)) implies (level[x]
        == INF <==> level[nb(x, d)] == INF) by {
        let y = nb(x, d);
        crate::board::lemma_nb_back(x, d);
        assert(mark(cells, p, nb(y, 3 - d)));
        assert(mark(cells, p, y));
        assert(relaxed(cells, level, p, x));
        assert(relaxed(cells, level, p, y));
    }
}

/// The rest of the run from `x` on, where `x` belongs to an alive run of two or more.
spec fn rest_of_run(cells: Seq<i8>, level: Seq<u8>, p: i8, x: int, v: int) -> int {
    if mark(cells, p, x) && level[x] != INF && linked(cells, p, x, v) {
        run_from(cells, p, x, v) as int
    } else {
        0
    }
}

/// The rest of the run after `x`.
spec fn rest_after(cells: Seq<i8>, level: Seq<u8>, p: i8, x: int, v: int) -> int {
    if mark(cells, p, x) && mark(cells, p, nb(x, v)) {
        rest_of_run(cells, level, p, nb(x, v), v)
    } else {
        0
    }
}

/// The rest of the run from `x` on, where `x` does not begin it.
spec fn rest_inside(cells: Seq<i8>, level: Seq<u8>, p: i8, x: int, v: int) -> int {
    if mark(cells, p, x) && mark(cells, p, nb(x, 3 - v)) {
        rest_of_run(cells, level, p, x, v)
    } else {
        0
    }
}

/// In one family, scoring each run by its length is scoring each of its cells by a point.
proof fn lemma_family_points(cells: Seq<i8>, level: Seq<u8>, p: i8, v: int)
    requires
        family(v),
        uniform(cells, level, p),
    ensures
        sum_to(|i: int| family_points(cells, p, i, v, level[i] != INF), HW as nat) == point_sum(
            cells,
            level,
            p,
            v,
        ),
{
    broadcast use crate::board::lemma_nb;

    let n = HW as nat;
    let r = |x: int| rest_of_run(cells, level, p, x, v);
    let a = |x: int| rest_after(cells, level, p, x, v);
    let b = |x: int| rest_inside(cells, level, p, x, v);
    let pt = |x: int| cell_point(cells, level, p, x, v);
    let fp = |x: int| family_points(cells, p, x, v, level[x] != INF);
    assert forall|x: int| 0 <= x < n implies #[trigger] pt(x) == r(x) - a(x) by {
        if mark(cells, p, x) {
            if nb(x, v) >= 0 {
                assert(run_from(cells, p, x, v) == 1 + run_from(cells, p, nb(x, v), v));
            }
            if mark(cells, p, nb(x, v)) {
                crate::board::lemma_nb_back(x, v);
                assert(mark(cells, p, nb(nb(x, v), 3 - v)));
            }
        }
    }
    lemma_sum_sub(r, a, pt, n);
    assert forall|x: int| 0 <= x < n implies #[trigger] fp(x) == r(x) - b(x) by {
        if mark(cells, p, x) {
            if nb(x, v) >= 0 {
                assert(run_from(cells, p, x, v) == 1 + run_from(cells, p, nb(x, v), v));
            }
            assert(run_from(cells, p, x, v) >= 2 <==> mark(cells, p, nb(x, v)));
        }
    }
    lemma_sum_sub(r, b, fp, n);
    let off: nat = if v == ANTI {
        15
    } else {
        17
    };
    assert forall|x: int| 0 <= x < n - off implies #[trigger] a(x) == b(x + off) by {
        lemma_offset(x, v, off as int);
        if nb(x, v) >= 0 {
            crate::board::lemma_nb_back(x, v);
        }
    }
    assert forall|x: int| n - off <= x < n implies #[trigger] a(x) == 0 by {
        crate::board::lemma_nb_index(x, v);
    }
    assert forall|x: int| 0 <= x < off implies #[trigger] b(x) == 0 by {
        crate::board::lemma_nb_index(x, 3 - v);
    }
    lemma_sum_shift(a, b, n, off);
}

/// A forward step moves a fixed distance in the flat index, or leaves the board; and only
/// such a step arrives there.
proof fn lemma_offset(x: int, v: int, off: int)
    requires
        0 <= x,
        x + off < HW,
        family(v),
        off == if v == ANTI {
            15int
        } else {
            17
        },
    ensures
        nb(x, v) == -1 || nb(x, v) == x + off,
        nb(x + off, 3 - v) == -1 || nb(x + off, 3 - v) == x,
        nb(x, v) == -1 <==> nb(x + off, 3 - v) == -1,
{
    reveal(nb);
}

/// The score is the sum of the points of the cells.
pub proof fn lemma_score_points(cells: Seq<i8>, level: Seq<u8>, p: i8)
    requires
        uniform(cells, level, p),
    ensures
        score_by_level(cells, level, p) == point_sum(cells, level, p, ANTI as int) + point_sum(
            cells,
            level,
            p,
            MAIN as int,
        ),
{
    lemma_family_points(cells, level, p, ANTI as int);
    lemma_family_points(cells, level, p, MAIN as int);
    let f = |i: int| run_points(cells, p, i, level[i] != INF);
    let g = |i: int| family_points(cells, p, i, ANTI as int, level[i] != INF);
    let h = |i: int| family_points(cells, p, i, MAIN as int, level[i] != INF);
    lemma_sum_sub(f, g, h, HW as nat);
}

// ------------------------------------------------------------------------ one cell more

/// How many marks, up to two, follow `i` in direction `d`.
pub open spec fn side(cells: Seq<i8>, p: i8, i: int, d: int) -> int {
    if !mark(cells, p, nb(i, d)) {
        0
    } else if !mark(cells, p, nb(nb(i, d), d)) {
        1
    } else {
        2
    }
}

/// What a mark on `i` adds in family `v`, among alive marks: joining runs of lengths `la` and
/// `lb` gains `1 + (la == 1) + (lb == 1)`.
pub open spec fn family_gain(cells: Seq<i8>, p: i8, i: int, v: int) -> int {
    let la = side(cells, p, i, 3 - v);
    let lb = side(cells, p, i, v);
    if la > 0 || lb > 0 {
        1 + (if la == 1 {
            1int
        } else {
            0
        }) + (if lb == 1 {
            1int
        } else {
            0
        })
    } else {
        0
    }
}

/// The board with `i` and the board without it, alive marks staying alive.
spec fn one_more(
    with: Seq<i8>,
    lw: Seq<u8>,
    without: Seq<i8>,
    lo: Seq<u8>,
    p: i8,
    i: int,
) -> bool {
    &&& mark(with, p, i)
    &&& !mark(without, p, i)
    &&& forall|x: int| x != i ==> #[trigger] mark(with, p, x) == mark(without, p, x)
    &&& forall|x: int| #[trigger]
        mark(without, p, x) ==> (lw[x] == INF <==> lo[x] == INF)
}

proof fn lemma_family_gain(
    with: Seq<i8>,
    lw: Seq<u8>,
    without: Seq<i8>,
    lo: Seq<u8>,
    p: i8,
    i: int,
    v: int,
)
    requires
        family(v),
        one_more(with, lw, without, lo, p, i),
        uniform(with, lw, p),
        lw[i] != INF,
    ensures
        point_sum(with, lw, p, v) == point_sum(without, lo, p, v) + family_gain(without, p, i, v),
        family_gain(with, p, i, v) == family_gain(without, p, i, v),
{
    broadcast use crate::board::lemma_nb;

    let f = |x: int| cell_point(without, lo, p, x, v);
    let g = |x: int| cell_point(with, lw, p, x, v);
    let a = nb(i, 3 - v);
    let b = nb(i, v);
    lemma_triple(i, v);
    assert forall|x: int| 0 <= x < HW && x != i && x != a && x != b implies #[trigger] f(x) == g(
        x,
    ) by {
        lemma_triple_only(i, x, v);
        assert(mark(with, p, x) == mark(without, p, x));
        assert(mark(with, p, nb(x, v)) == mark(without, p, nb(x, v)));
        assert(mark(with, p, nb(x, 3 - v)) == mark(without, p, nb(x, 3 - v)));
    }
    lemma_sum_three(f, g, HW as nat, i, a, b);
    assert(mark(with, p, nb(i, v)) == mark(without, p, nb(i, v)));
    assert(mark(with, p, nb(i, 3 - v)) == mark(without, p, nb(i, 3 - v)));
    if a >= 0 {
        crate::board::lemma_nb_back(i, 3 - v);
        assert(mark(with, p, nb(a, 3 - v)) == mark(without, p, nb(a, 3 - v)));
        assert(mark(with, p, a) == mark(without, p, a));
        assert(nb(a, v) == i);
        assert(mark(with, p, nb(i, 3 - v)) ==> lw[a] != INF);
    }
    if b >= 0 {
        crate::board::lemma_nb_back(i, v);
        assert(mark(with, p, nb(b, v)) == mark(without, p, nb(b, v)));
        assert(mark(with, p, b) == mark(without, p, b));
        assert(nb(b, 3 - v) == i);
        assert(mark(with, p, nb(i, v)) ==> lw[b] != INF);
    }
}

/// The cells around `i` in a family are three different ones.
proof fn lemma_triple(i: int, v: int)
    requires
        0 <= i < HW,
        family(v),
    ensures
        nb(i, v) != i,
        nb(i, 3 - v) != i,
        nb(i, v) != nb(i, 3 - v) || nb(i, v) < 0,
        nb(i, v) < HW,
        nb(i, 3 - v) < HW,
        nb(i, v) >= 0 ==> nb(nb(i, v), v) != i,
        nb(i, 3 - v) >= 0 ==> nb(nb(i, 3 - v), 3 - v) != i,
{
    reveal(nb);
}

/// Only the family neighbours of `i` have `i` as a family neighbour.
proof fn lemma_triple_only(i: int, x: int, v: int)
    requires
        0 <= i < HW,
        0 <= x < HW,
        family(v),
        x != nb(i, v),
        x != nb(i, 3 - v),
    ensures
        nb(x, v) != i,
        nb(x, 3 - v) != i,
{
    reveal(nb);
}

/// A mark joining alive marks, none of whose routes it changes, gains what is local to it.
pub proof fn lemma_gain(
    with: Seq<i8>,
    lw: Seq<u8>,
    without: Seq<i8>,
    lo: Seq<u8>,
    p: i8,
    i: int,
)
    requires
        is_player(p),
        with.len() == HW,
        without.len() == HW,
        lw.len() == HW,
        lo.len() == HW,
        exact_for(with, lw, p),
        exact_for(without, lo, p),
        mark(with, p, i),
        !mark(without, p, i),
        forall|x: int| x != i ==> #[trigger] mark(with, p, x) == mark(without, p, x),
        forall|x: int| #[trigger] mark(without, p, x) ==> (lw[x] == INF <==> lo[x] == INF),
        lw[i] != INF,
    ensures
        score_of(with, p) == score_of(without, p) + family_gain(without, p, i, ANTI as int)
            + family_gain(without, p, i, MAIN as int),
        family_gain(with, p, i, ANTI as int) == family_gain(without, p, i, ANTI as int),
        family_gain(with, p, i, MAIN as int) == family_gain(without, p, i, MAIN as int),
{
    lemma_uniform(with, lw, p);
    lemma_uniform(without, lo, p);
    lemma_score_by_level(with, lw, p);
    lemma_score_by_level(without, lo, p);
    lemma_score_points(with, lw, p);
    lemma_score_points(without, lo, p);
    lemma_family_gain(with, lw, without, lo, p, i, ANTI as int);
    lemma_family_gain(with, lw, without, lo, p, i, MAIN as int);
}

/// A dead mark among dead marks adds nothing.
pub proof fn lemma_no_gain(
    with: Seq<i8>,
    lw: Seq<u8>,
    without: Seq<i8>,
    lo: Seq<u8>,
    p: i8,
    i: int,
)
    requires
        is_player(p),
        with.len() == HW,
        without.len() == HW,
        lw.len() == HW,
        lo.len() == HW,
        exact_for(with, lw, p),
        exact_for(without, lo, p),
        mark(with, p, i),
        !mark(without, p, i),
        forall|x: int| x != i ==> #[trigger] mark(with, p, x) == mark(without, p, x),
        forall|x: int| #[trigger] mark(without, p, x) ==> (lw[x] == INF <==> lo[x] == INF),
        lw[i] == INF,
    ensures
        score_of(with, p) == score_of(without, p),
{
    lemma_uniform(with, lw, p);
    lemma_uniform(without, lo, p);
    lemma_score_by_level(with, lw, p);
    lemma_score_by_level(without, lo, p);
    lemma_score_points(with, lw, p);
    lemma_score_points(without, lo, p);
    lemma_no_family_gain(with, lw, without, lo, p, i, ANTI as int);
    lemma_no_family_gain(with, lw, without, lo, p, i, MAIN as int);
}

proof fn lemma_no_family_gain(
    with: Seq<i8>,
    lw: Seq<u8>,
    without: Seq<i8>,
    lo: Seq<u8>,
    p: i8,
    i: int,
    v: int,
)
    requires
        family(v),
        one_more(with, lw, without, lo, p, i),
        uniform(with, lw, p),
        lw[i] == INF,
    ensures
        point_sum(with, lw, p, v) == point_sum(without, lo, p, v),
{
    broadcast use crate::board::lemma_nb;

    let f = |x: int| cell_point(without, lo, p, x, v);
    let g = |x: int| cell_point(with, lw, p, x, v);
    assert forall|x: int| 0 <= x < HW implies #[trigger] f(x) == g(x) by {
        assert(x != i ==> mark(with, p, x) == mark(without, p, x));
        assert(nb(x, v) != i ==> mark(with, p, nb(x, v)) == mark(without, p, nb(x, v)));
        assert(nb(x, 3 - v) != i ==> mark(with, p, nb(x, 3 - v)) == mark(
            without,
            p,
            nb(x, 3 - v),
        ));
        if x != i && mark(with, p, x) {
            if nb(x, v) == i {
                assert(mark(with, p, nb(x, v)));
                assert(lw[x] == INF);
            }
            if nb(x, 3 - v) == i {
                assert(mark(with, p, nb(x, 3 - v)));
                assert(lw[x] == INF);
            }
        }
    }
    lemma_sum_eq(f, g, HW as nat);
}

// ---------------------------------------------------------------------------- execution

/// Score of the runs of one family that begin at `i`.
fn run_starting_at(cells: &[i8], alive: bool, i: usize, v: usize, p: i8) -> (r: i32)
    requires
        cells@.len() == HW,
        i < HW,
        family(v as int),
        mark(cells@, p, i as int),
    ensures
        r == family_points(cells@, p, i as int, v as int, alive),
        0 <= r <= 10,
{
    proof {
        lemma_run_bound(cells@, p, i as int, v as int);
    }
    if mark_at(cells, i, 3 - v, p) {
        return 0;  // not the first cell of this run
    }
    let mut run_len: i32 = 1;
    let mut cur: usize = i;
    loop
        invariant_except_break
            cells@.len() == HW,
            i <= cur < HW,
            family(v as int),
            mark(cells@, p, cur as int),
            1 <= run_len,
            run_len + run_from(cells@, p, cur as int, v as int) == run_from(
                cells@,
                p,
                i as int,
                v as int,
            ) + 1,
            run_from(cells@, p, i as int, v as int) <= 10,
        ensures
            run_len == run_from(cells@, p, i as int, v as int),
        decreases HW - cur,
    {
        match step(cur, v) {
            Some(n) => {
                proof {
                    crate::board::lemma_nb_index(cur as int, v as int);
                }
                assert(run_from(cells@, p, cur as int, v as int) == 1 + run_from(
                    cells@,
                    p,
                    n as int,
                    v as int,
                ));
                if cells[n] != p {
                    break ;
                }
                run_len = run_len + 1;
                cur = n;
            },
            None => {
                break ;
            },
        }
    }
    if run_len >= 2 && alive {
        run_len
    } else {
        0
    }
}

/// Score of the runs that begin at `i`, in either family. Zero if `i` holds no mark of `p`,
/// if an earlier cell owns the run, if the run is shorter than 2, or if it is unreachable. A
/// cell in a qualifying run of both families counts twice, as intended.
pub(crate) fn runs_starting_at(cells: &[i8], level: &[u8], i: usize, p: i8) -> (r: i32)
    requires
        cells@.len() == HW,
        level@.len() == HW,
        i < HW,
    ensures
        r == run_points(cells@, p, i as int, level@[i as int] != INF),
        0 <= r <= 20,
{
    if cells[i] != p {
        return 0;
    }
    let alive: bool = level[i] != INF;
    run_starting_at(cells, alive, i, ANTI, p) + run_starting_at(cells, alive, i, MAIN, p)
}

/// What the runs that begin at the listed cells score.
pub open spec fn list_points(cells: Seq<i8>, level: Seq<u8>, p: i8, list: Seq<u16>) -> int
    decreases list.len(),
{
    if list.len() == 0 {
        0
    } else {
        let i = list.last() as int;
        list_points(cells, level, p, list.drop_last()) + run_points(cells, p, i, level[i] != INF)
    }
}

/// Total score generated by the given cells, each listed once. Where they are a union of
/// whole components no run is split, since a run never leaves its component.
pub(crate) fn contribution(cells: &[i8], level: &[u8], list: &Vec<u16>, p: i8) -> (r: i32)
    requires
        cells@.len() == HW,
        level@.len() == HW,
        list@.len() <= HW,
        forall|j: int| 0 <= j < list@.len() ==> (#[trigger] list@[j]) < HW,
    ensures
        r == list_points(cells@, level@, p, list@),
        0 <= r <= MAX_SCORE,
{
    let mut total: i32 = 0;
    let mut k: usize = 0;
    while k < list.len()
        invariant
            k <= list@.len() <= HW,
            cells@.len() == HW,
            level@.len() == HW,
            forall|j: int| 0 <= j < list@.len() ==> (#[trigger] list@[j]) < HW,
            total == list_points(cells@, level@, p, list@.take(k as int)),
            0 <= total <= 20 * k,
        decreases list@.len() - k,
    {
        proof {
            let t = list@.take(k + 1);
            assert(t.drop_last() =~= list@.take(k as int));
            assert(t.last() == list@[k as int]);
        }
        let i: usize = list[k] as usize;
        total = total + runs_starting_at(cells, level, i, p);
        k = k + 1;
    }
    assert(list@.take(list@.len() as int) =~= list@);
    total
}

/// The points of the listed cells, as a sum over the board.
pub open spec fn points_in(cells: Seq<i8>, level: Seq<u8>, p: i8, list: Seq<u16>) -> int {
    sum_to(
        |i: int|
            if list.contains(i as u16) {
                run_points(cells, p, i, level[i] != INF)
            } else {
                0
            },
        HW as nat,
    )
}

/// Summing over a list without repetitions is summing over the board, restricted to it.
pub proof fn lemma_list_points(cells: Seq<i8>, level: Seq<u8>, p: i8, list: Seq<u16>)
    requires
        list.no_duplicates(),
        forall|j: int| 0 <= j < list.len() ==> (#[trigger] list[j]) < HW,
    ensures
        list_points(cells, level, p, list) == points_in(cells, level, p, list),
    decreases list.len(),
{
    let g = |i: int|
        if list.contains(i as u16) {
            run_points(cells, p, i, level[i] != INF)
        } else {
            0
        };
    if list.len() == 0 {
        assert forall|i: int| 0 <= i < HW implies #[trigger] g(i) == (|j: int| 0int)(i) by {}
        lemma_sum_eq(g, |j: int| 0int, HW as nat);
        lemma_sum_upper(|j: int| 0int, HW as nat, 0);
        lemma_sum_nonneg(|j: int| 0int, HW as nat);
    } else {
        let rest = list.drop_last();
        let k = list.last() as int;
        assert forall|j: int| 0 <= j < rest.len() implies (#[trigger] rest[j]) < HW by {
            assert(rest[j] == list[j]);
        }
        assert(list[list.len() - 1] < HW);
        lemma_list_points(cells, level, p, rest);
        let f = |i: int|
            if rest.contains(i as u16) {
                run_points(cells, p, i, level[i] != INF)
            } else {
                0
            };
        assert forall|i: int| 0 <= i < HW && i != k implies #[trigger] f(i) == g(i) by {
            if list.contains(i as u16) {
                let j = list.index_of(i as u16);
                assert(list[j] == i as u16);
                assert(rest[j] == i as u16);
            }
            if rest.contains(i as u16) {
                let j = rest.index_of(i as u16);
                assert(list[j] == i as u16);
            }
        }
        assert(list.contains(k as u16));
        if rest.contains(k as u16) {
            let j = rest.index_of(k as u16);
            assert(list[j] == list[list.len() - 1]);
        }
        lemma_sum_change(f, g, HW as nat, k);
    }
}

/// The whole board's score for `p`. Only for adopting a board; otherwise the score is
/// maintained incrementally.
pub(crate) fn score_board(cells: &[i8], level: &[u8], p: i8) -> (r: i32)
    requires
        is_player(p),
        cells@.len() == HW,
        level@.len() == HW,
        exact_for(cells@, level@, p),
    ensures
        r == score_of(cells@, p),
        0 <= r <= MAX_SCORE,
{
    let ghost f = |i: int| run_points(cells@, p, i, level@[i] != INF);
    let mut total: i32 = 0;
    let mut i: usize = 0;
    while i < HW
        invariant
            i <= HW,
            cells@.len() == HW,
            level@.len() == HW,
            f == (|i: int| run_points(cells@, p, i, level@[i] != INF)),
            total == sum_to(f, i as nat),
            0 <= total <= 20 * i,
        decreases HW - i,
    {
        total = total + runs_starting_at(cells, level, i, p);
        i = i + 1;
    }
    proof {
        lemma_score_by_level(cells@, level@, p);
    }
    total
}

fn run_side(cells: &[i8], i: usize, d: usize, p: i8) -> (r: i32)
    requires
        cells@.len() == HW,
        i < HW,
        d < 4,
    ensures
        r == side(cells@, p, i as int, d as int),
{
    match step(i, d) {
        Some(a) => if cells[a] != p {
            0
        } else if mark_at(cells, a, d, p) {
            2
        } else {
            1
        },
        None => 0,
    }
}

fn family_delta(cells: &[i8], i: usize, v: usize, p: i8) -> (r: i32)
    requires
        cells@.len() == HW,
        i < HW,
        family(v as int),
    ensures
        r == family_gain(cells@, p, i as int, v as int),
        0 <= r <= 3,
{
    let la: i32 = run_side(cells, i, 3 - v, p);
    let lb: i32 = run_side(cells, i, v, p);
    if la > 0 || lb > 0 {
        let ga: i32 = if la == 1 {
            1
        } else {
            0
        };
        let gb: i32 = if lb == 1 {
            1
        } else {
            0
        };
        1 + ga + gb
    } else {
        0
    }
}

/// The score change from filling or emptying the single square `i`, given that reachability
/// does not change. A run of length L scores L if L >= 2, so joining runs of length `la` and
/// `lb` gains `1 + (la == 1) + (lb == 1)`.
pub(crate) fn local_delta(cells: &[i8], i: usize, p: i8) -> (r: i32)
    requires
        cells@.len() == HW,
        i < HW,
    ensures
        r == family_gain(cells@, p, i as int, ANTI as int) + family_gain(
            cells@,
            p,
            i as int,
            MAIN as int,
        ),
        0 <= r <= 6,
{
    family_delta(cells, i, ANTI, p) + family_delta(cells, i, MAIN, p)
}

} // verus!
