//! Placing and clearing marks, keeping levels and scores exact.
use vstd::prelude::*;

use crate::board::{
    border, is_player, mark, nb, player_index, player_of, step, HW, INF, MAX_LEVEL,
    PLAYER_0_MARK, PLAYER_1_MARK, REMOVED_SQUARE,
};
use crate::legal::{clear_legal, holds, LEGAL_WORDS};
use crate::levels::{
    capped, exact_for, grounded, is_level, lemma_exact_local, lemma_local_exact, levels_exact, live,
    reaches, relaxed, supported,
};
use crate::repair::{
    changed_levels, closed_list, computed_level, marks_of, rebuild_component_levels, relax_down,
    repair_up,
};
use crate::score::{
    contribution, family_gain, lemma_gain, lemma_list_points, lemma_no_gain, lemma_score_bound,
    lemma_score_by_level, lemma_uniform, list_points, local_delta, points_in, run_from, run_points,
    score_of, uniform, ANTI, MAIN, MAX_SCORE,
};
use crate::scratch::{Buffer, InsertPath, RemovePath, Scratch};
use crate::sums::{lemma_sum_eq, lemma_sum_sub, unit};
use crate::tally::{
    alive_side, blast_stats, components_near, dependants_of, insert_stats, lemma_levels_of,
    move_stats, place_stats, remove_counts, remove_path, remove_stats, touched,
};
use crate::walk::{
    cells_in, closed_set, collected, component, lemma_cells_in, lemma_list_len, lemma_walk_adds,
    walk_component, within,
};

verus! {

// --------------------------------------------------------------- boards with equal marks

/// A route depends on the player's own marks only.
proof fn lemma_reaches_same(a: Seq<i8>, b: Seq<i8>, p: i8, x: int, k: nat)
    requires
        forall|y: int| #[trigger] mark(a, p, y) == mark(b, p, y),
    ensures
        reaches(a, p, x, k) == reaches(b, p, x, k),
    decreases k,
{
    assert(mark(a, p, x) == mark(b, p, x));
    if k > 0 {
        assert forall|d: int| 0 <= d < 4 implies reaches(a, p, #[trigger] nb(x, d), (k - 1) as nat)
            == reaches(b, p, nb(x, d), (k - 1) as nat) by {
            lemma_reaches_same(a, b, p, nb(x, d), (k - 1) as nat);
        }
    }
}

proof fn lemma_run_same(a: Seq<i8>, b: Seq<i8>, p: i8, x: int, v: int)
    requires
        forall|y: int| #[trigger] mark(a, p, y) == mark(b, p, y),
    ensures
        run_from(a, p, x, v) == run_from(b, p, x, v),
    decreases HW - x,
{
    assert(mark(a, p, x) == mark(b, p, x));
    if mark(a, p, x) && crate::score::family(v) && nb(x, v) >= 0 {
        crate::board::lemma_nb(x, v);
        crate::board::lemma_nb_index(x, v);
        lemma_run_same(a, b, p, nb(x, v), v);
    }
}

/// Boards on which a player has the same marks give that player the same levels and the same
/// score.
pub proof fn lemma_same_marks(a: Seq<i8>, b: Seq<i8>, p: i8)
    requires
        is_player(p),
        forall|y: int| #[trigger] mark(a, p, y) == mark(b, p, y),
    ensures
        forall|x: int, l: u8| mark(a, p, x) ==> #[trigger] is_level(a, x, l) == is_level(b, x, l),
        score_of(a, p) == score_of(b, p),
{
    assert forall|x: int, k: nat| #[trigger] reaches(a, p, x, k) == reaches(b, p, x, k) by {
        lemma_reaches_same(a, b, p, x, k);
    }
    assert forall|x: int| #[trigger] live(a, p, x) == live(b, p, x) by {
        if live(a, p, x) {
            let k = choose|k: nat| reaches(a, p, x, k);
            assert(reaches(b, p, x, k));
        }
        if live(b, p, x) {
            let k = choose|k: nat| reaches(b, p, x, k);
            assert(reaches(a, p, x, k));
        }
    }
    assert forall|x: int, l: u8| mark(a, p, x) implies #[trigger] is_level(a, x, l) == is_level(
        b,
        x,
        l,
    ) by {
        assert(mark(b, p, x));
        assert(live(a, p, x) == live(b, p, x));
        assert(reaches(a, p, x, l as nat) == reaches(b, p, x, l as nat));
        if is_level(a, x, l) {
            assert forall|k: nat| k < l && l != INF implies !reaches(b, p, x, k) by {
                assert(reaches(a, p, x, k) == reaches(b, p, x, k));
            }
        }
        if is_level(b, x, l) {
            assert forall|k: nat| k < l && l != INF implies !reaches(a, p, x, k) by {
                assert(reaches(a, p, x, k) == reaches(b, p, x, k));
            }
        }
    }
    let f = |i: int| run_points(a, p, i, live(a, p, i));
    let g = |i: int| run_points(b, p, i, live(b, p, i));
    assert forall|i: int| 0 <= i < HW implies #[trigger] f(i) == g(i) by {
        lemma_run_same(a, b, p, i, ANTI as int);
        lemma_run_same(a, b, p, i, MAIN as int);
        assert(mark(a, p, i) == mark(b, p, i));
        assert(mark(a, p, nb(i, 3 - ANTI)) == mark(b, p, nb(i, 3 - ANTI)));
        assert(mark(a, p, nb(i, 3 - MAIN)) == mark(b, p, nb(i, 3 - MAIN)));
        assert(live(a, p, i) == live(b, p, i));
    }
    lemma_sum_eq(f, g, HW as nat);
}

// --------------------------------------------------- boards that differ inside a component

/// `a` and `b` differ, as far as marks of `p` go, only inside `comp`, which is made of whole
/// components on both.
spec fn differ_inside(a: Seq<i8>, b: Seq<i8>, p: i8, comp: Seq<u16>) -> bool {
    &&& closed_list(a, p, comp)
    &&& closed_list(b, p, comp)
    &&& forall|y: int| 0 <= y < HW && !comp.contains(y as u16) ==> #[trigger] mark(a, p, y) == mark(
        b,
        p,
        y,
    )
}

/// Outside `comp` the two boards agree on what is next to a mark.
proof fn lemma_outside_step(a: Seq<i8>, b: Seq<i8>, p: i8, comp: Seq<u16>, x: int, d: int)
    requires
        differ_inside(a, b, p, comp),
        0 <= x < HW,
        !comp.contains(x as u16),
        mark(a, p, x),
        0 <= d < 4,
    ensures
        mark(a, p, nb(x, d)) == mark(b, p, nb(x, d)),
        mark(a, p, nb(x, d)) ==> !comp.contains(nb(x, d) as u16),
{
    broadcast use crate::board::lemma_nb;

    let y = nb(x, d);
    assert(mark(a, p, x) == mark(b, p, x));
    if y >= 0 {
        crate::board::lemma_nb_back(x, d);
        assert(nb(y, 3 - d) == x);
        if mark(a, p, y) && comp.contains(y as u16) {
            assert(mark(a, p, nb(y, 3 - d)));
        }
        if mark(b, p, y) && comp.contains(y as u16) {
            assert(mark(b, p, nb(y, 3 - d)));
        }
        if !comp.contains(y as u16) {
            assert(mark(a, p, y) == mark(b, p, y));
        }
    }
}

proof fn lemma_differ_sym(a: Seq<i8>, b: Seq<i8>, p: i8, comp: Seq<u16>)
    requires
        differ_inside(a, b, p, comp),
    ensures
        differ_inside(b, a, p, comp),
{
    assert forall|y: int| 0 <= y < HW && !comp.contains(y as u16) implies #[trigger] mark(b, p, y)
        == mark(a, p, y) by {
        assert(mark(a, p, y) == mark(b, p, y));
    }
}

proof fn lemma_outside_reaches(a: Seq<i8>, b: Seq<i8>, p: i8, comp: Seq<u16>, x: int, k: nat)
    requires
        differ_inside(a, b, p, comp),
        0 <= x < HW,
        !comp.contains(x as u16),
        reaches(a, p, x, k),
    ensures
        reaches(b, p, x, k),
    decreases k,
{
    assert(mark(a, p, x) == mark(b, p, x));
    if !border(x) {
        let d = choose|d: int|
            0 <= d < 4 && reaches(a, p, #[trigger] nb(x, d), (k - 1) as nat);
        lemma_outside_step(a, b, p, comp, x, d);
        lemma_outside_reaches(a, b, p, comp, nb(x, d), (k - 1) as nat);
    }
}

proof fn lemma_outside_run(a: Seq<i8>, b: Seq<i8>, p: i8, comp: Seq<u16>, x: int, v: int)
    requires
        differ_inside(a, b, p, comp),
        0 <= x < HW,
        !comp.contains(x as u16),
    ensures
        run_from(a, p, x, v) == run_from(b, p, x, v),
    decreases HW - x,
{
    assert(mark(a, p, x) == mark(b, p, x));
    if mark(a, p, x) && crate::score::family(v) && nb(x, v) >= 0 {
        crate::board::lemma_nb(x, v);
        crate::board::lemma_nb_index(x, v);
        lemma_outside_step(a, b, p, comp, x, v);
        if mark(a, p, nb(x, v)) {
            lemma_outside_run(a, b, p, comp, nb(x, v), v);
        }
    }
}

/// Outside `comp`, levels and what starts there are the same on both boards.
proof fn lemma_outside_same(a: Seq<i8>, b: Seq<i8>, p: i8, comp: Seq<u16>, x: int)
    requires
        is_player(p),
        differ_inside(a, b, p, comp),
        0 <= x < HW,
        !comp.contains(x as u16),
    ensures
        live(a, p, x) == live(b, p, x),
        run_points(a, p, x, live(a, p, x)) == run_points(b, p, x, live(b, p, x)),
        mark(a, p, x) ==> forall|l: u8| #[trigger] is_level(a, x, l) ==> is_level(b, x, l),
{
    lemma_differ_sym(a, b, p, comp);
    assert(mark(a, p, x) == mark(b, p, x));
    assert forall|k: nat| #[trigger] reaches(a, p, x, k) == reaches(b, p, x, k) by {
        if reaches(a, p, x, k) {
            lemma_outside_reaches(a, b, p, comp, x, k);
        }
        if reaches(b, p, x, k) {
            lemma_outside_reaches(b, a, p, comp, x, k);
        }
    }
    if live(a, p, x) {
        let k = choose|k: nat| reaches(a, p, x, k);
        assert(reaches(b, p, x, k));
    }
    if live(b, p, x) {
        let k = choose|k: nat| reaches(b, p, x, k);
        assert(reaches(a, p, x, k));
    }
    if mark(a, p, x) {
        lemma_outside_run(a, b, p, comp, x, ANTI as int);
        lemma_outside_run(a, b, p, comp, x, MAIN as int);
        lemma_outside_step(a, b, p, comp, x, 3 - ANTI);
        lemma_outside_step(a, b, p, comp, x, 3 - MAIN);
        assert forall|l: u8| #[trigger] is_level(a, x, l) implies is_level(b, x, l) by {
            assert(reaches(a, p, x, l as nat) == reaches(b, p, x, l as nat));
            assert forall|k: nat| k < l && l != INF implies !reaches(b, p, x, k) by {
                assert(reaches(a, p, x, k) == reaches(b, p, x, k));
            }
        }
    }
}

/// The score changes by what the changed components score.
proof fn lemma_measured(
    a: Seq<i8>,
    la: Seq<u8>,
    b: Seq<i8>,
    lb: Seq<u8>,
    p: i8,
    comp: Seq<u16>,
)
    requires
        is_player(p),
        exact_for(a, la, p),
        exact_for(b, lb, p),
        differ_inside(a, b, p, comp),
    ensures
        score_of(b, p) - score_of(a, p) == points_in(b, lb, p, comp) - points_in(a, la, p, comp),
{
    lemma_score_by_level(a, la, p);
    lemma_score_by_level(b, lb, p);
    let fa = |i: int| run_points(a, p, i, la[i] != INF);
    let fb = |i: int| run_points(b, p, i, lb[i] != INF);
    let ga = |i: int|
        if comp.contains(i as u16) {
            run_points(a, p, i, la[i] != INF)
        } else {
            0
        };
    let gb = |i: int|
        if comp.contains(i as u16) {
            run_points(b, p, i, lb[i] != INF)
        } else {
            0
        };
    let ha = |i: int| fa(i) - ga(i);
    let hb = |i: int| fb(i) - gb(i);
    lemma_sum_sub(fa, ga, ha, HW as nat);
    lemma_sum_sub(fb, gb, hb, HW as nat);
    assert forall|i: int| 0 <= i < HW implies #[trigger] ha(i) == hb(i) by {
        if !comp.contains(i as u16) {
            lemma_outside_same(a, b, p, comp, i);
            assert(mark(a, p, i) == mark(b, p, i));
            if mark(a, p, i) {
                assert(la[i] != INF <==> live(a, p, i));
                assert(mark(b, p, i));
                assert(lb[i] != INF <==> live(b, p, i));
            }
        }
    }
    lemma_sum_eq(ha, hb, HW as nat);
}

/// What the listed cells score does not depend on listed cells that score nothing.
proof fn lemma_points_in_same(
    a: Seq<i8>,
    la: Seq<u8>,
    p: i8,
    small: Seq<u16>,
    large: Seq<u16>,
)
    requires
        forall|i: int|
            0 <= i < HW && #[trigger] small.contains(i as u16) ==> large.contains(i as u16),
        forall|i: int|
            0 <= i < HW && #[trigger] large.contains(i as u16) && !small.contains(i as u16)
                ==> run_points(a, p, i, la[i] != INF) == 0,
    ensures
        points_in(a, la, p, small) == points_in(a, la, p, large),
{
    let f = |i: int|
        if small.contains(i as u16) {
            run_points(a, p, i, la[i] != INF)
        } else {
            0
        };
    let g = |i: int|
        if large.contains(i as u16) {
            run_points(a, p, i, la[i] != INF)
        } else {
            0
        };
    assert forall|i: int| 0 <= i < HW implies #[trigger] f(i) == g(i) by {
        if large.contains(i as u16) && !small.contains(i as u16) {
        }
        if small.contains(i as u16) {
            assert(large.contains(i as u16));
        }
    }
    lemma_sum_eq(f, g, HW as nat);
}

// ---------------------------------------------------------------------------- insertion

/// A running score leaves room for whatever the board may come to score.
pub open spec fn has_room(score: int, cells: Seq<i8>, p: i8) -> bool {
    i32::MIN <= score - score_of(cells, p) && score - score_of(cells, p) + MAX_SCORE <= i32::MAX
}

/// Each running score has moved by what the board's score moved.
pub open spec fn scores_moved(
    before: Seq<i32>,
    after: Seq<i32>,
    old_cells: Seq<i8>,
    new_cells: Seq<i8>,
) -> bool {
    &&& after.len() == before.len()
    &&& after[0] - before[0] == score_of(new_cells, PLAYER_0_MARK) - score_of(
        old_cells,
        PLAYER_0_MARK,
    )
    &&& after[1] - before[1] == score_of(new_cells, PLAYER_1_MARK) - score_of(
        old_cells,
        PLAYER_1_MARK,
    )
}

/// With a mark of level `l` on `i`, every level rests on a real route, and only the new mark
/// may have something to offer its neighbours.
spec fn insert_ready(a: Seq<i8>, la: Seq<u8>, p: i8, i: int, l: u8) -> bool {
    let b = a.update(i, p);
    let l1 = la.update(i, l);
    &&& grounded(b, l1, p)
    &&& capped(b, l1, p)
    &&& forall|y: int| #[trigger] mark(b, p, y) ==> supported(b, l1, p, y)
    &&& forall|y: int| #[trigger] mark(b, p, y) && y != i ==> relaxed(b, l1, p, y)
}

/// The levels around the empty square `i`, before a mark of level `l` goes there, are those
/// from which improvements can be pushed outward.
proof fn lemma_insert_ready(a: Seq<i8>, la: Seq<u8>, p: i8, i: int, l: u8)
    requires
        is_player(p),
        a.len() == HW,
        la.len() == HW,
        exact_for(a, la, p),
        0 <= i < HW,
        a[i] != p,
        l == INF || l <= MAX_LEVEL,
        border(i) ==> l == 0,
        forall|d: int|
            0 <= d < 4 && mark(a, p, #[trigger] nb(i, d)) && la[nb(i, d)] < MAX_LEVEL ==> l
                <= la[nb(i, d)] + 1,
        l == INF || border(i) || exists|d: int|
            0 <= d < 4 && mark(a, p, #[trigger] nb(i, d)) && la[nb(i, d)] + 1 == l,
    ensures
        insert_ready(a, la, p, i, l),
{
    broadcast use crate::board::lemma_nb;

    let b = a.update(i, p);
    let l1 = la.update(i, l);
    lemma_exact_local(a, la, p);
    assert forall|y: int| #[trigger] mark(b, p, y) && y != i implies mark(a, p, y) && l1[y]
        == la[y] by {}
    assert forall|y: int| #[trigger] mark(b, p, y) implies supported(b, l1, p, y) by {
        if y == i {
            if l != INF && !border(i) {
                let d = choose|d: int|
                    0 <= d < 4 && mark(a, p, #[trigger] nb(i, d)) && la[nb(i, d)] + 1 == l;
                assert(mark(b, p, nb(i, d)) && l1[nb(i, d)] < l1[i]);
            }
        } else {
            assert(mark(a, p, y));
            assert(supported(a, la, p, y));
            if la[y] != INF && !border(y) {
                let d = choose|d: int|
                    0 <= d < 4 && mark(a, p, #[trigger] nb(y, d)) && la[nb(y, d)] < la[y];
                assert(mark(b, p, nb(y, d)) && l1[nb(y, d)] < l1[y]);
            }
        }
    }
    assert forall|y: int| #[trigger] mark(b, p, y) && y != i implies relaxed(b, l1, p, y) by {
        assert(mark(a, p, y));
        assert(relaxed(a, la, p, y));
        if l1[y] != INF {
            assert forall|d: int| 0 <= d < 4 && mark(b, p, #[trigger] nb(y, d)) implies l1[nb(
                y,
                d,
            )] <= l1[y] + 1 by {
                if nb(y, d) == i {
                    crate::board::lemma_nb_back(y, d);
                    assert(mark(a, p, nb(i, 3 - d)));
                } else {
                    assert(mark(a, p, nb(y, d)));
                }
            }
        }
    }
    assert forall|y: int| #[trigger] mark(b, p, y) && border(y) implies l1[y] == 0 by {
        if y != i {
            assert(mark(a, p, y));
        }
    }
    assert forall|y: int| #[trigger] mark(b, p, y) implies l1[y] == INF || l1[y] <= MAX_LEVEL by {
        if y != i {
            assert(mark(a, p, y));
        }
    }
}

/// A mark that touches no dead one revives none.
proof fn lemma_no_revival(a: Seq<i8>, la: Seq<u8>, p: i8, i: int, x: int, k: nat)
    requires
        is_player(p),
        a.len() == HW,
        la.len() == HW,
        exact_for(a, la, p),
        uniform(a, la, p),
        0 <= i < HW,
        a[i] != p,
        forall|d: int| 0 <= d < 4 && mark(a, p, #[trigger] nb(i, d)) ==> la[nb(i, d)] != INF,
        reaches(a.update(i, p), p, x, k),
        x != i,
    ensures
        la[x] != INF,
    decreases k,
{
    broadcast use crate::board::lemma_nb;

    let b = a.update(i, p);
    assert(mark(a, p, x));
    assert(is_level(a, x, la[x]));
    if border(x) {
        assert(reaches(a, p, x, 0));
    } else {
        let d = choose|d: int|
            0 <= d < 4 && reaches(b, p, #[trigger] nb(x, d), (k - 1) as nat);
        if nb(x, d) == i {
            crate::board::lemma_nb_back(x, d);
            assert(mark(a, p, nb(i, 3 - d)));
        } else {
            lemma_no_revival(a, la, p, i, nb(x, d), (k - 1) as nat);
            assert(mark(a, p, nb(x, d)));
        }
    }
}

/// Levels exact for each player, and none elsewhere, are exact.
proof fn lemma_levels_exact(cells: Seq<i8>, level: Seq<u8>)
    requires
        cells.len() == HW,
        level.len() == HW,
        exact_for(cells, level, PLAYER_0_MARK),
        exact_for(cells, level, PLAYER_1_MARK),
        forall|i: int| 0 <= i < HW && !is_player(cells[i]) ==> #[trigger] level[i] == INF,
    ensures
        levels_exact(cells, level),
{
    assert forall|i: int| 0 <= i < HW implies is_level(cells, i, #[trigger] level[i]) by {
        if mark(cells, PLAYER_0_MARK, i) {
        } else if mark(cells, PLAYER_1_MARK, i) {
        }
    }
}

proof fn lemma_exact_for_of(cells: Seq<i8>, level: Seq<u8>, p: i8)
    requires
        levels_exact(cells, level),
    ensures
        exact_for(cells, level, p),
{
    assert forall|x: int| #[trigger] mark(cells, p, x) implies is_level(cells, x, level[x]) by {}
}

/// The player that is not `p`.
pub open spec fn other(p: i8) -> i8 {
    if p == PLAYER_0_MARK {
        PLAYER_1_MARK
    } else {
        PLAYER_0_MARK
    }
}

/// Where one square changes and the other player has no mark on it before or after, the
/// levels of the other player stay exact, and the score stays the same.
proof fn lemma_bystander(
    a: Seq<i8>,
    la: Seq<u8>,
    b: Seq<i8>,
    lb: Seq<u8>,
    p: i8,
    i: int,
)
    requires
        is_player(p),
        0 <= i < HW,
        levels_exact(a, la),
        b.len() == HW,
        lb.len() == HW,
        exact_for(b, lb, p),
        a[i] != other(p),
        b[i] != other(p),
        b == a.update(i, b[i]),
        is_player(b[i]) || lb[i] == INF,
        forall|x: int| 0 <= x < HW && x != i && a[x] != p ==> #[trigger] lb[x] == la[x],
    ensures
        levels_exact(b, lb),
        score_of(b, other(p)) == score_of(a, other(p)),
{
    let o = other(p);
    assert forall|y: int| #[trigger] mark(a, o, y) == mark(b, o, y) by {}
    lemma_same_marks(a, b, o);
    assert forall|x: int| #[trigger] mark(b, o, x) implies is_level(b, x, lb[x]) by {
        assert(mark(a, o, x));
        assert(is_level(a, x, la[x]));
        assert(lb[x] == la[x]);
    }
    assert forall|x: int| 0 <= x < HW && !is_player(b[x]) implies #[trigger] lb[x] == INF by {
        if x != i {
            assert(is_level(a, x, la[x]));
        }
    }
    lemma_levels_exact(b, lb);
}

/// Is one of the neighbours of `i` a dead mark of `p`?
fn attaches_dead(cells: &[i8], level: &[u8], i: usize, p: i8) -> (r: bool)
    requires
        cells@.len() == HW,
        level@.len() == HW,
        i < HW,
    ensures
        r == exists|d: int|
            0 <= d < 4 && mark(cells@, p, #[trigger] nb(i as int, d)) && level@[nb(i as int, d)]
                == INF,
{
    let mut d: usize = 0;
    while d < 4
        invariant
            d <= 4,
            i < HW,
            cells@.len() == HW,
            level@.len() == HW,
            forall|e: int|
                0 <= e < d && mark(cells@, p, #[trigger] nb(i as int, e)) ==> level@[nb(
                    i as int,
                    e,
                )] != INF,
        decreases 4 - d,
    {
        if let Some(n) = step(i, d) {
            if cells[n] == p && level[n] == INF {
                assert(mark(cells@, p, nb(i as int, d as int)));
                return true;
            }
        }
        d = d + 1;
    }
    false
}

/// The components of the alive marks next to `i`, as one list.
fn walk_alive_neighbours(
    cells: &[i8],
    level: &[u8],
    i: usize,
    p: i8,
    s: &mut Scratch,
    comp: &mut Vec<u16>,
)
    requires
        cells@.len() == HW,
        level@.len() == HW,
        i < HW,
        old(s).wf(),
        old(comp)@.len() == 0,
    ensures
        final(s).wf(),
        final(s).same_settings(old(s)),
        final(s).counters() == old(s).counters().walked(
            components_near(cells@, level@, p, i as int, 4),
            final(comp)@.len() as int,
        ),
        forall|x: int|
            0 <= x < HW ==> (#[trigger] final(comp)@.contains(x as u16) <==> touched(
                cells@,
                level@,
                p,
                i as int,
                4,
            ).contains(x)),
        collected(cells@, p, final(s).visited(), final(comp)@),
        closed_list(cells@, p, final(comp)@),
        forall|d: int|
            0 <= d < 4 && mark(cells@, p, #[trigger] nb(i as int, d)) && level@[nb(i as int, d)]
                != INF ==> final(comp)@.contains(nb(i as int, d) as u16),
        forall|k: Set<int>| #[trigger]
            closed_set(cells@, p, k) && (forall|d: int|
                0 <= d < 4 && mark(cells@, p, #[trigger] nb(i as int, d)) && level@[nb(
                    i as int,
                    d,
                )] != INF ==> k.contains(nb(i as int, d))) ==> within(final(comp)@, k),
{
    s.begin_walk();
    proof {
        assert(s.counters() == old(s).counters().walked(0, 0));
    }
    let mut d: usize = 0;
    while d < 4
        invariant
            d <= 4,
            i < HW,
            cells@.len() == HW,
            level@.len() == HW,
            s.inv(),
            s.queue() == old(s).queue(),
            s.same_settings(old(s)),
            s.counters() == old(s).counters().walked(
                components_near(cells@, level@, p, i as int, d as nat),
                comp@.len() as int,
            ),
            0 <= components_near(cells@, level@, p, i as int, d as nat) <= d,
            forall|x: int|
                0 <= x < HW ==> (#[trigger] comp@.contains(x as u16) <==> touched(
                    cells@,
                    level@,
                    p,
                    i as int,
                    d as int,
                ).contains(x)),
            collected(cells@, p, s.visited(), comp@),
            closed_list(cells@, p, comp@),
            forall|e: int|
                0 <= e < d && mark(cells@, p, #[trigger] nb(i as int, e)) && level@[nb(
                    i as int,
                    e,
                )] != INF ==> comp@.contains(nb(i as int, e) as u16),
            forall|k: Set<int>| #[trigger]
                closed_set(cells@, p, k) && (forall|e: int|
                    0 <= e < 4 && mark(cells@, p, #[trigger] nb(i as int, e)) && level@[nb(
                        i as int,
                        e,
                    )] != INF ==> k.contains(nb(i as int, e))) ==> within(comp@, k),
        decreases 4 - d,
    {
        let ghost c1 = comp@;
        if let Some(n) = step(i, d) {
            // dead components contribute zero by definition, so only the alive ones matter
            if cells[n] == p && level[n] != INF {
                let ghost c0 = comp@;
                let ghost v0 = s.visited();
                walk_component(cells, n, p, s, comp);
                proof {
                    assert(v0.contains(n as int) <==> c0.contains(n as u16));
                    lemma_walk_adds(cells@, p, n as int, c0, comp@);
                    lemma_list_len(c0);
                    lemma_list_len(comp@);
                    assert forall|k: Set<int>| #[trigger]
                        closed_set(cells@, p, k) && (forall|e: int|
                            0 <= e < 4 && mark(cells@, p, #[trigger] nb(i as int, e))
                                && level@[nb(i as int, e)] != INF ==> k.contains(
                                nb(i as int, e),
                            )) implies within(comp@, k) by {
                        assert(within(c0, k));
                        assert(mark(cells@, p, nb(i as int, d as int)));
                        assert(k.contains(n as int));
                    }
                }
            }
        }
        proof {
            lemma_side_walked(cells@, level@, p, i as int, d as int, c1, comp@);
        }
        d = d + 1;
    }
}

/// One direction more.
proof fn lemma_side_walked(
    cells: Seq<i8>,
    level: Seq<u8>,
    p: i8,
    i: int,
    d: int,
    before: Seq<u16>,
    after: Seq<u16>,
)
    requires
        0 <= i < HW,
        0 <= d < 4,
        forall|x: int|
            0 <= x < HW ==> (#[trigger] before.contains(x as u16) <==> touched(
                cells,
                level,
                p,
                i,
                d,
            ).contains(x)),
        if alive_side(cells, level, p, i, d) {
            forall|x: int|
                0 <= x < HW ==> (#[trigger] after.contains(x as u16) <==> before.contains(x as u16)
                    || component(cells, p, nb(i, d)).contains(x))
        } else {
            after == before
        },
    ensures
        forall|x: int|
            0 <= x < HW ==> (#[trigger] after.contains(x as u16) <==> touched(
                cells,
                level,
                p,
                i,
                d + 1,
            ).contains(x)),
        components_near(cells, level, p, i, (d + 1) as nat) == components_near(
            cells,
            level,
            p,
            i,
            d as nat,
        ) + unit(alive_side(cells, level, p, i, d) && !before.contains(nb(i, d) as u16)),
{
    assert forall|x: int| 0 <= x < HW implies (#[trigger] after.contains(x as u16) <==> touched(
        cells,
        level,
        p,
        i,
        d + 1,
    ).contains(x)) by {
        assert(before.contains(x as u16) <==> touched(cells, level, p, i, d).contains(x));
        if touched(cells, level, p, i, d).contains(x) {
            let e = choose|e: int|
                0 <= e < d && #[trigger] alive_side(cells, level, p, i, e) && component(
                    cells,
                    p,
                    nb(i, e),
                ).contains(x);
            assert(alive_side(cells, level, p, i, e));
        }
        if touched(cells, level, p, i, d + 1).contains(x) {
            let e = choose|e: int|
                0 <= e < d + 1 && #[trigger] alive_side(cells, level, p, i, e) && component(
                    cells,
                    p,
                    nb(i, e),
                ).contains(x);
            if e < d {
                assert(touched(cells, level, p, i, d).contains(x));
            }
        }
    }
    if alive_side(cells, level, p, i, d) {
        let n = nb(i, d);
        assert(before.contains(n as u16) <==> touched(cells, level, p, i, d).contains(n));
    }
}

/// The component of the newly placed mark holds, of the marks alive before, only those whose
/// components were walked.
proof fn lemma_only_walked(
    a: Seq<i8>,
    la: Seq<u8>,
    p: i8,
    i: int,
    before: Seq<u16>,
    after: Seq<u16>,
)
    requires
        is_player(p),
        a.len() == HW,
        la.len() == HW,
        uniform(a, la, p),
        0 <= i < HW,
        a[i] != p,
        closed_list(a, p, before),
        closed_list(a.update(i, p), p, after),
        after.contains(i as u16),
        forall|j: int|
            0 <= j < after.len() ==> mark(a.update(i, p), p, (#[trigger] after[j]) as int),
        forall|d: int|
            0 <= d < 4 && mark(a, p, #[trigger] nb(i, d)) && la[nb(i, d)] != INF
                ==> before.contains(nb(i, d) as u16),
        forall|k: Set<int>| #[trigger]
            closed_set(a.update(i, p), p, k) && k.contains(i) ==> within(after, k),
    ensures
        forall|x: int|
            0 <= x < HW && #[trigger] after.contains(x as u16) && x != i && la[x] != INF
                ==> before.contains(x as u16),
{
    broadcast use crate::board::lemma_nb;

    let b = a.update(i, p);
    let k = Set::new(
        |x: int|
            0 <= x < HW && after.contains(x as u16) && (x == i || la[x] == INF || before.contains(
                x as u16,
            )),
    );
    assert forall|x: int, d: int|
        0 <= d < 4 && 0 <= x < HW && k.contains(x) && mark(b, p, #[trigger] nb(x, d)) implies k.contains(
        nb(x, d),
    ) by {
        let y = nb(x, d);
        let j = after.index_of(x as u16);
        assert(mark(b, p, after[j] as int));
        assert(after.contains(y as u16));
        if y != i && la[y] != INF {
            assert(mark(a, p, nb(x, d)));
            if x == i {
                assert(before.contains(y as u16));
            } else {
                assert(mark(a, p, x));
                assert(la[x] != INF);
                assert(before.contains(nb(x, d) as u16));
            }
        }
    }
    assert(closed_set(b, p, k));
    assert(within(after, k));
    assert forall|x: int|
        0 <= x < HW && #[trigger] after.contains(x as u16) && x != i && la[x]
            != INF implies before.contains(x as u16) by {
        let j = after.index_of(x as u16);
        assert(k.contains(after[j] as int));
    }
}

/// The path for a mark dropped into live territory: it touches no dead mark, so no other mark
/// comes alive and the score change is local. Returns that change.
fn insert_live(
    cells: &mut [i8],
    level: &mut [u8],
    i: usize,
    p: i8,
    lvl: u8,
    s: &mut Scratch,
) -> (delta: i32)
    requires
        is_player(p),
        i < HW,
        levels_exact(old(cells)@, old(level)@),
        !is_player(old(cells)@[i as int]),
        lvl <= MAX_LEVEL,
        insert_ready(old(cells)@, old(level)@, p, i as int, lvl),
        forall|d: int|
            0 <= d < 4 && mark(old(cells)@, p, #[trigger] nb(i as int, d)) ==> old(level)@[nb(
                i as int,
                d,
            )] != INF,
        old(s).wf(),
    ensures
        final(cells)@ == old(cells)@.update(i as int, p),
        levels_exact(final(cells)@, final(level)@),
        delta == score_of(final(cells)@, p) - score_of(old(cells)@, p),
        score_of(final(cells)@, other(p)) == score_of(old(cells)@, other(p)),
        final(s).wf(),
        final(s).same_settings(old(s)),
        final(s).counters() == old(s).counters().relaxed(
            1 + changed_levels(old(level)@.update(i as int, lvl), final(level)@),
        ),
{
    let ghost a = cells@;
    let ghost la = level@;
    let ghost b = a.update(i as int, p);
    cells[i] = p;
    level[i] = lvl;
    relax_down(cells, level, i, p, s);
    let delta: i32 = local_delta(cells, i, p);
    proof {
        let lb = level@;
        lemma_exact_for_of(a, la, p);
        lemma_uniform(a, la, p);
        lemma_bystander(a, la, b, lb, p, i as int);
        assert forall|x: int| x != i implies #[trigger] mark(b, p, x) == mark(a, p, x) by {}
        assert forall|x: int| #[trigger] mark(a, p, x) implies (lb[x] == INF <==> la[x]
            == INF) by {
            assert(mark(b, p, x));
            assert(is_level(b, x, lb[x]));
            if lb[x] != INF {
                lemma_no_revival(a, la, p, i as int, x, lb[x] as nat);
            } else {
                assert(lb[x] <= la[x]);
            }
        }
        assert(lb[i as int] <= lvl);
        lemma_gain(b, lb, a, la, p, i as int);
    }
    delta
}

/// The path for a mark that revives a dead blob: measure before, measure after. Returns the
/// difference.
fn insert_reviving(
    cells: &mut [i8],
    level: &mut [u8],
    i: usize,
    p: i8,
    lvl: u8,
    s: &mut Scratch,
) -> (delta: i32)
    requires
        is_player(p),
        i < HW,
        levels_exact(old(cells)@, old(level)@),
        !is_player(old(cells)@[i as int]),
        lvl <= MAX_LEVEL,
        insert_ready(old(cells)@, old(level)@, p, i as int, lvl),
        old(s).wf(),
    ensures
        final(cells)@ == old(cells)@.update(i as int, p),
        levels_exact(final(cells)@, final(level)@),
        delta == score_of(final(cells)@, p) - score_of(old(cells)@, p),
        score_of(final(cells)@, other(p)) == score_of(old(cells)@, other(p)),
        final(s).wf(),
        final(s).same_settings(old(s)),
        final(s).counters() == old(s).counters().walked(
            components_near(old(cells)@, old(level)@, p, i as int, 4),
            cells_in(touched(old(cells)@, old(level)@, p, i as int, 4)),
        ).relaxed(1 + changed_levels(old(level)@.update(i as int, lvl), final(level)@)).walked(
            1,
            cells_in(component(final(cells)@, p, i as int)),
        ),
{
    let ghost a = cells@;
    let ghost la = level@;
    let ghost b = a.update(i as int, p);
    let mut comp = s.lend(Buffer::Comp);
    walk_alive_neighbours(cells, level, i, p, s, &mut comp);
    let ghost before = comp@;
    proof {
        lemma_list_len(before);
        lemma_cells_in(before, touched(a, la, p, i as int, 4));
    }
    let old_points: i32 = contribution(cells, level, &comp, p);
    cells[i] = p;
    level[i] = lvl;
    relax_down(cells, level, i, p, s);
    comp.clear();
    s.begin_walk();
    assert(comp@ =~= Seq::<u16>::empty());
    walk_component(cells, i, p, s, &mut comp);
    let ghost after = comp@;
    proof {
        lemma_list_len(after);
        lemma_walk_adds(b, p, i as int, Seq::<u16>::empty(), after);
        lemma_cells_in(after, component(b, p, i as int));
    }
    let new_points: i32 = contribution(cells, level, &comp, p);
    s.give_back(Buffer::Comp, comp);
    proof {
        let lb = level@;
        lemma_bystander(a, la, b, lb, p, i as int);
        assert forall|k: Set<int>| #[trigger]
            closed_set(b, p, k) && k.contains(i as int) implies within(after, k) by {
            assert(within(Seq::<u16>::empty(), k));
        }
        lemma_revived(a, la, b, lb, p, i as int, before, after);
    }
    new_points - old_points
}

/// Measuring the alive components before and the joined component after gives the change of
/// the score.
proof fn lemma_revived(
    a: Seq<i8>,
    la: Seq<u8>,
    b: Seq<i8>,
    lb: Seq<u8>,
    p: i8,
    i: int,
    before: Seq<u16>,
    after: Seq<u16>,
)
    requires
        is_player(p),
        levels_exact(a, la),
        levels_exact(b, lb),
        0 <= i < HW,
        a[i] != p,
        b == a.update(i, p),
        before.no_duplicates(),
        after.no_duplicates(),
        closed_list(a, p, before),
        closed_list(b, p, after),
        after.contains(i as u16),
        forall|j: int| 0 <= j < after.len() ==> mark(b, p, (#[trigger] after[j]) as int),
        forall|d: int|
            0 <= d < 4 && mark(a, p, #[trigger] nb(i, d)) && la[nb(i, d)] != INF
                ==> before.contains(nb(i, d) as u16),
        forall|k: Set<int>| #[trigger]
            closed_set(b, p, k) && k.contains(i) ==> within(after, k),
        forall|k: Set<int>| #[trigger]
            closed_set(a, p, k) && (forall|d: int|
                0 <= d < 4 && mark(a, p, #[trigger] nb(i, d)) && la[nb(i, d)] != INF
                    ==> k.contains(nb(i, d))) ==> within(before, k),
    ensures
        score_of(b, p) - score_of(a, p) == list_points(b, lb, p, after) - list_points(
            a,
            la,
            p,
            before,
        ),
{
    lemma_exact_for_of(a, la, p);
    lemma_exact_for_of(b, lb, p);
    lemma_uniform(a, la, p);
    lemma_list_points(a, la, p, before);
    lemma_list_points(b, lb, p, after);
    lemma_only_walked(a, la, p, i, before, after);
    lemma_after_holds_before(a, la, p, i, before, after);
    lemma_points_in_same(a, la, p, before, after);
    assert forall|x: int| #[trigger] mark(a, p, x) implies mark(b, p, x) by {}
    lemma_still_closed(a, b, p, after);
    lemma_measured(a, la, b, lb, p, after);
}

/// Place `p`'s mark on the empty square `i`, updating levels and the running score.
pub fn insert(
    cells: &mut [i8],
    level: &mut [u8],
    score: &mut [i32],
    i: usize,
    p: i8,
    s: &mut Scratch,
)
    requires
        is_player(p),
        i < HW,
        levels_exact(old(cells)@, old(level)@),
        !is_player(old(cells)@[i as int]),
        old(score)@.len() == 2,
        has_room(old(score)@[player_of(p)] as int, old(cells)@, p),
        old(s).wf(),
    ensures
        final(cells)@ == old(cells)@.update(i as int, p),
        levels_exact(final(cells)@, final(level)@),
        scores_moved(old(score)@, final(score)@, old(cells)@, final(cells)@),
        final(s).wf(),
        final(s).same_settings(old(s)),
        final(s).counters() == insert_stats(old(s).counters(), old(cells)@, i as int, p),
{
    let ghost a = cells@;
    let ghost la = level@;
    let ghost b = a.update(i as int, p);
    let k: usize = player_index(p);
    let lvl: u8 = computed_level(cells, level, i, p);
    proof {
        lemma_exact_for_of(a, la, p);
        lemma_score_bound(a, p);
        lemma_score_bound(b, p);
        lemma_insert_ready(a, la, p, i as int, lvl);
    }
    if lvl == INF {
        // every mark it touches was already unreachable, so nothing scored before and
        // nothing scores now
        s.count_insert(InsertPath::Dead);
        cells[i] = p;
        level[i] = INF;
        proof {
            lemma_insert_dead(a, la, p, i as int);
        }
    } else if !attaches_dead(cells, level, i, p) {
        s.count_insert(InsertPath::Fast);
        let delta: i32 = insert_live(cells, level, i, p, lvl, s);
        score[k] = score[k] + delta;
    } else {
        s.count_insert(InsertPath::Slow);
        let delta: i32 = insert_reviving(cells, level, i, p, lvl, s);
        score[k] = score[k] + delta;
    }
    proof {
        lemma_levels_of(a, la);
        lemma_levels_of(b, level@);
    }
}

/// A mark that nothing connects to the border changes no other level and no score.
proof fn lemma_insert_dead(a: Seq<i8>, la: Seq<u8>, p: i8, i: int)
    requires
        is_player(p),
        levels_exact(a, la),
        0 <= i < HW,
        !is_player(a[i]),
        insert_ready(a, la, p, i, INF),
    ensures
        levels_exact(a.update(i, p), la.update(i, INF)),
        score_of(a.update(i, p), p) == score_of(a, p),
        score_of(a.update(i, p), other(p)) == score_of(a, other(p)),
{
    let b = a.update(i, p);
    let lb = la.update(i, INF);
    lemma_exact_for_of(a, la, p);
    assert(relaxed(b, lb, p, i));
    lemma_local_exact(b, lb, p);
    lemma_bystander(a, la, b, lb, p, i);
    assert forall|x: int| x != i implies #[trigger] mark(b, p, x) == mark(a, p, x) by {}
    lemma_no_gain(b, lb, a, la, p, i);
}

/// The component of the new mark holds the walked ones, and what it holds besides scored
/// nothing before.
proof fn lemma_after_holds_before(
    a: Seq<i8>,
    la: Seq<u8>,
    p: i8,
    i: int,
    before: Seq<u16>,
    after: Seq<u16>,
)
    requires
        is_player(p),
        a.len() == HW,
        la.len() == HW,
        0 <= i < HW,
        a[i] != p,
        closed_list(a.update(i, p), p, after),
        after.contains(i as u16),
        forall|j: int|
            0 <= j < after.len() ==> mark(a.update(i, p), p, (#[trigger] after[j]) as int),
        forall|x: int|
            0 <= x < HW && #[trigger] after.contains(x as u16) && x != i && la[x] != INF
                ==> before.contains(x as u16),
        forall|k: Set<int>| #[trigger]
            closed_set(a, p, k) && (forall|d: int|
                0 <= d < 4 && mark(a, p, #[trigger] nb(i, d)) && la[nb(i, d)] != INF
                    ==> k.contains(nb(i, d))) ==> within(before, k),
    ensures
        forall|x: int|
            0 <= x < HW && #[trigger] before.contains(x as u16) ==> after.contains(x as u16),
        forall|x: int|
            0 <= x < HW && #[trigger] after.contains(x as u16) && !before.contains(x as u16)
                ==> run_points(a, p, x, la[x] != INF) == 0,
{
    broadcast use crate::board::lemma_nb;

    let b = a.update(i, p);
    let k = Set::new(|x: int| 0 <= x < HW && after.contains(x as u16));
    assert forall|x: int, d: int|
        0 <= d < 4 && 0 <= x < HW && k.contains(x) && mark(a, p, #[trigger] nb(x, d)) implies k.contains(
        nb(x, d),
    ) by {
        assert(mark(b, p, nb(x, d)));
        let j = after.index_of(x as u16);
        assert(mark(b, p, after[j] as int));
    }
    assert(closed_set(a, p, k));
    assert forall|d: int|
        0 <= d < 4 && mark(a, p, #[trigger] nb(i, d)) && la[nb(i, d)] != INF implies k.contains(
        nb(i, d),
    ) by {
        assert(mark(b, p, nb(i, d)));
        assert(mark(b, p, i));
    }
    assert(within(before, k));
    assert forall|x: int|
        0 <= x < HW && #[trigger] before.contains(x as u16) implies after.contains(x as u16) by {
        let j = before.index_of(x as u16);
        assert(k.contains(before[j] as int));
    }
}

/// A list made of whole components of a board, all of them marks there, is made of whole
/// components on a board with one mark less inside it.
proof fn lemma_still_closed(a: Seq<i8>, b: Seq<i8>, p: i8, comp: Seq<u16>)
    requires
        a.len() == HW,
        b.len() == HW,
        closed_list(b, p, comp),
        forall|j: int| 0 <= j < comp.len() ==> mark(b, p, (#[trigger] comp[j]) as int),
        forall|x: int| #[trigger] mark(a, p, x) ==> mark(b, p, x),
        forall|x: int| #[trigger]
            mark(b, p, x) && !mark(a, p, x) ==> comp.contains(x as u16),
    ensures
        differ_inside(a, b, p, comp),
        differ_inside(b, a, p, comp),
{
    assert forall|x: int, d: int|
        0 <= d < 4 && mark(a, p, x) && comp.contains(x as u16) && mark(
            a,
            p,
            #[trigger] nb(x, d),
        ) implies comp.contains(nb(x, d) as u16) by {
        assert(mark(b, p, x));
        assert(mark(b, p, nb(x, d)));
    }
    assert forall|y: int| 0 <= y < HW && !comp.contains(y as u16) implies #[trigger] mark(a, p, y)
        == mark(b, p, y) by {}
    lemma_differ_sym(a, b, p, comp);
}

// ------------------------------------------------------------------------------ removal

/// With the mark on `i` gone and the other levels as they were, no level is too high, and
/// every level rests on a real route but for those of `deps`.
spec fn remove_ready(a: Seq<i8>, la: Seq<u8>, p: i8, i: int, deps: Seq<u16>) -> bool {
    let b = a.update(i, REMOVED_SQUARE);
    let l1 = la.update(i, INF);
    &&& grounded(b, l1, p)
    &&& capped(b, l1, p)
    &&& forall|y: int| #[trigger] mark(b, p, y) ==> relaxed(b, l1, p, y)
    &&& forall|y: int| #[trigger]
        mark(b, p, y) ==> supported(b, l1, p, y) || deps.contains(y as u16)
}

proof fn lemma_remove_ready(a: Seq<i8>, la: Seq<u8>, p: i8, i: int, deps: Seq<u16>)
    requires
        is_player(p),
        a.len() == HW,
        la.len() == HW,
        exact_for(a, la, p),
        mark(a, p, i),
        forall|d: int|
            0 <= d < 4 && mark(a, p, #[trigger] nb(i, d)) && la[i] != INF && la[nb(i, d)] == la[i]
                + 1 ==> deps.contains(nb(i, d) as u16),
    ensures
        remove_ready(a, la, p, i, deps),
{
    broadcast use crate::board::lemma_nb;

    let b = a.update(i, REMOVED_SQUARE);
    let l1 = la.update(i, INF);
    lemma_exact_local(a, la, p);
    assert forall|y: int| #[trigger] mark(b, p, y) implies mark(a, p, y) && y != i && l1[y]
        == la[y] by {}
    assert forall|y: int| #[trigger] mark(b, p, y) && border(y) implies l1[y] == 0 by {
        assert(mark(a, p, y));
    }
    assert forall|y: int| #[trigger] mark(b, p, y) implies l1[y] == INF || l1[y] <= MAX_LEVEL by {
        assert(mark(a, p, y));
    }
    assert forall|y: int| #[trigger] mark(b, p, y) implies relaxed(b, l1, p, y) by {
        assert(mark(a, p, y));
        assert(relaxed(a, la, p, y));
        if l1[y] != INF {
            assert forall|d: int| 0 <= d < 4 && mark(b, p, #[trigger] nb(y, d)) implies l1[nb(
                y,
                d,
            )] <= l1[y] + 1 by {
                assert(mark(a, p, nb(y, d)));
            }
        }
    }
    assert forall|y: int| #[trigger] mark(b, p, y) implies supported(b, l1, p, y)
        || deps.contains(y as u16) by {
        assert(mark(a, p, y));
        assert(supported(a, la, p, y));
        if la[y] != INF && !border(y) {
            let d = choose|d: int|
                0 <= d < 4 && mark(a, p, #[trigger] nb(y, d)) && la[nb(y, d)] < la[y];
            if nb(y, d) == i {
                crate::board::lemma_nb_back(y, d);
                assert(relaxed(a, la, p, i));
                assert(mark(a, p, nb(i, 3 - d)));
            } else {
                assert(mark(b, p, nb(y, d)) && l1[nb(y, d)] < l1[y]);
            }
        }
    }
}

/// Where nothing rested on the mark of `i`, taking it away leaves every other level, and the
/// score changes by what is local to it.
proof fn lemma_remove_loose(a: Seq<i8>, la: Seq<u8>, p: i8, i: int)
    requires
        is_player(p),
        levels_exact(a, la),
        mark(a, p, i),
        remove_ready(a, la, p, i, Seq::<u16>::empty()),
    ensures
        levels_exact(a.update(i, REMOVED_SQUARE), la.update(i, INF)),
        score_of(a.update(i, REMOVED_SQUARE), other(p)) == score_of(a, other(p)),
        la[i] == INF ==> score_of(a.update(i, REMOVED_SQUARE), p) == score_of(a, p),
        la[i] != INF ==> score_of(a, p) == score_of(a.update(i, REMOVED_SQUARE), p) + family_gain(
            a.update(i, REMOVED_SQUARE),
            p,
            i,
            ANTI as int,
        ) + family_gain(a.update(i, REMOVED_SQUARE), p, i, MAIN as int),
{
    let b = a.update(i, REMOVED_SQUARE);
    let lb = la.update(i, INF);
    lemma_exact_for_of(a, la, p);
    assert forall|y: int| #[trigger] mark(b, p, y) implies supported(b, lb, p, y) by {}
    lemma_local_exact(b, lb, p);
    lemma_bystander(a, la, b, lb, p, i);
    assert forall|x: int| x != i implies #[trigger] mark(a, p, x) == mark(b, p, x) by {}
    if la[i] == INF {
        lemma_no_gain(a, la, b, lb, p, i);
    } else {
        lemma_gain(a, la, b, lb, p, i);
    }
}

/// The neighbours of `i` that sit one level above it: only those could be routing through it.
fn dependants(cells: &[i8], level: &[u8], i: usize, p: i8, deps: &mut Vec<u16>)
    requires
        cells@.len() == HW,
        level@.len() == HW,
        i < HW,
        level@[i as int] < MAX_LEVEL,
        old(deps)@.len() == 0,
    ensures
        final(deps)@ == dependants_of(cells@, level@, p, i as int, 4),
        forall|d: int|
            0 <= d < 4 && mark(cells@, p, #[trigger] nb(i as int, d)) && level@[nb(i as int, d)]
                == level@[i as int] + 1 ==> final(deps)@.contains(nb(i as int, d) as u16),
        forall|j: int|
            0 <= j < final(deps)@.len() ==> mark(cells@, p, (#[trigger] final(deps)@[j]) as int)
                && level@[final(deps)@[j] as int] == level@[i as int] + 1,
{
    let here: u8 = level[i];
    let mut d: usize = 0;
    while d < 4
        invariant
            d <= 4,
            i < HW,
            cells@.len() == HW,
            level@.len() == HW,
            here == level@[i as int],
            here < MAX_LEVEL,
            deps@ == dependants_of(cells@, level@, p, i as int, d as nat),
            forall|e: int|
                0 <= e < d && mark(cells@, p, #[trigger] nb(i as int, e)) && level@[nb(
                    i as int,
                    e,
                )] == here + 1 ==> deps@.contains(nb(i as int, e) as u16),
            forall|j: int|
                0 <= j < deps@.len() ==> mark(cells@, p, (#[trigger] deps@[j]) as int)
                    && level@[deps@[j] as int] == here + 1,
        decreases 4 - d,
    {
        if let Some(n) = step(i, d) {
            if cells[n] == p && level[n] == here + 1 {
                let ghost d0 = deps@;
                deps.push(n as u16);
                proof {
                    assert(deps@[d0.len() as int] == n as u16);
                    assert forall|c: u16| #[trigger] d0.contains(c) implies deps@.contains(c) by {
                        let j = d0.index_of(c);
                        assert(deps@[j] == c);
                    }
                }
            }
        }
        d = d + 1;
    }
}

/// The path for a mark that others may have routed through: measure while the component is
/// still whole, re-derive its levels, measure again. Returns the difference.
fn remove_cutting(
    cells: &mut [i8],
    level: &mut [u8],
    i: usize,
    p: i8,
    deps: &Vec<u16>,
    s: &mut Scratch,
) -> (delta: i32)
    requires
        is_player(p),
        levels_exact(old(cells)@, old(level)@),
        mark(old(cells)@, p, i as int),
        remove_ready(old(cells)@, old(level)@, p, i as int, deps@),
        forall|j: int|
            0 <= j < deps@.len() ==> mark(old(cells)@, p, (#[trigger] deps@[j]) as int)
                && deps@[j] != i && old(level)@[deps@[j] as int] != INF,
        old(s).wf(),
        deps@ == dependants_of(old(cells)@, old(level)@, p, i as int, 4),
        remove_path(old(cells)@, old(level)@, i as int) is Slow,
    ensures
        final(s).counters() == remove_counts(
            old(s).counters(),
            old(cells)@,
            old(level)@,
            final(level)@,
            i as int,
            old(s).rebuilds(),
        ),
        final(cells)@ == old(cells)@.update(i as int, REMOVED_SQUARE),
        levels_exact(final(cells)@, final(level)@),
        delta == score_of(final(cells)@, p) - score_of(old(cells)@, p),
        score_of(final(cells)@, other(p)) == score_of(old(cells)@, other(p)),
        final(s).wf(),
        final(s).same_settings(old(s)),
{
    let ghost a = cells@;
    let ghost la = level@;
    let ghost b = a.update(i as int, REMOVED_SQUARE);
    s.count_remove(RemovePath::Slow);
    let mut comp = s.lend(Buffer::Comp);
    s.begin_walk();
    assert(comp@ =~= Seq::<u16>::empty());
    walk_component(cells, i, p, s, &mut comp);
    proof {
        lemma_list_len(comp@);
        lemma_walk_adds(a, p, i as int, Seq::<u16>::empty(), comp@);
        lemma_cells_in(comp@, component(a, p, i as int));
        assert forall|x: int| #[trigger]
            component(a, p, i as int).contains(x) implies mark(a, p, x) by {
            assert(comp@.contains(x as u16));
            let j = comp@.index_of(x as u16);
            assert(mark(a, p, comp@[j] as int));
        }
        assert(marks_of(b, p, comp@) =~= component(a, p, i as int).remove(i as int));
    }
    let old_points: i32 = contribution(cells, level, &comp, p);
    cells[i] = REMOVED_SQUARE;
    level[i] = INF;
    proof {
        assert forall|x: int| #[trigger] mark(b, p, x) implies mark(a, p, x) by {}
        lemma_still_closed(b, a, p, comp@);
        assert forall|y: int| #[trigger]
            mark(b, p, y) && !comp@.contains(y as u16) implies is_level(b, y, level@[y]) by {
            assert(mark(a, p, y));
            lemma_outside_same(a, b, p, comp@, y);
            assert(is_level(a, y, la[y]));
        }
    }
    if s.repairs_by_bfs() {
        rebuild_component_levels(cells, level, &comp, p, s);
    } else {
        proof {
            assert forall|j: int| 0 <= j < deps@.len() implies mark(
                b,
                p,
                (#[trigger] deps@[j]) as int,
            ) && level@[deps@[j] as int] != INF by {
                assert(mark(a, p, deps@[j] as int));
            }
        }
        repair_up(cells, level, deps, p, s);
    }
    // `comp` may now be several pieces, some dead; `contribution` handles that
    let new_points: i32 = contribution(cells, level, &comp, p);
    proof {
        let lb = level@;
        lemma_exact_for_of(a, la, p);
        lemma_bystander(a, la, b, lb, p, i as int);
        lemma_list_points(a, la, p, comp@);
        lemma_list_points(b, lb, p, comp@);
        lemma_measured(a, la, b, lb, p, comp@);
    }
    s.give_back(Buffer::Comp, comp);
    new_points - old_points
}

/// Clear square `i`, updating levels and the running score. Handles empty and already removed
/// squares as no-ops beyond the state write.
pub fn remove(cells: &mut [i8], level: &mut [u8], score: &mut [i32], i: usize, s: &mut Scratch)
    requires
        i < HW,
        levels_exact(old(cells)@, old(level)@),
        old(score)@.len() == 2,
        is_player(old(cells)@[i as int]) ==> has_room(
            old(score)@[player_of(old(cells)@[i as int])] as int,
            old(cells)@,
            old(cells)@[i as int],
        ),
        old(s).wf(),
    ensures
        final(cells)@ == old(cells)@.update(i as int, REMOVED_SQUARE),
        levels_exact(final(cells)@, final(level)@),
        scores_moved(old(score)@, final(score)@, old(cells)@, final(cells)@),
        final(s).wf(),
        final(s).same_settings(old(s)),
        final(s).counters() == remove_stats(
            old(s).counters(),
            old(cells)@,
            i as int,
            old(s).rebuilds(),
        ),
{
    let ghost a = cells@;
    let ghost la = level@;
    let ghost b = a.update(i as int, REMOVED_SQUARE);
    proof {
        lemma_levels_of(a, la);
    }
    let p: i8 = cells[i];
    if p != PLAYER_0_MARK && p != PLAYER_1_MARK {
        s.count_remove(RemovePath::NonMark);
        cells[i] = REMOVED_SQUARE;
        proof {
            lemma_remove_nothing(a, la, i as int);
        }
        return ;
    }
    let k: usize = player_index(p);
    proof {
        lemma_exact_for_of(a, la, p);
        lemma_score_bound(a, p);
        lemma_score_bound(b, p);
        lemma_exact_local(a, la, p);
        assert(mark(a, p, i as int));
    }
    if level[i] == INF {
        // its component scored nothing, so losing a cell changes nothing
        proof {
            lemma_remove_ready(a, la, p, i as int, Seq::<u16>::empty());
            lemma_remove_loose(a, la, p, i as int);
        }
        s.count_remove(RemovePath::Dead);
        cells[i] = REMOVED_SQUARE;
        level[i] = INF;
        return ;
    }
    // only a neighbour one level above could have been routing through this cell

    let mut deps = s.lend(Buffer::Deps);
    dependants(cells, level, i, p, &mut deps);
    proof {
        lemma_remove_ready(a, la, p, i as int, deps@);
    }
    if deps.len() == 0 {
        // fast path: the insertion calculation, negated
        assert(deps@ =~= Seq::<u16>::empty());
        s.count_remove(RemovePath::Fast);
        cells[i] = REMOVED_SQUARE;
        level[i] = INF;
        let delta: i32 = local_delta(cells, i, p);
        proof {
            lemma_remove_loose(a, la, p, i as int);
        }
        score[k] = score[k] - delta;
    } else {
        let delta: i32 = remove_cutting(cells, level, i, p, &deps, s);
        score[k] = score[k] + delta;
    }
    s.give_back(Buffer::Deps, deps);
    proof {
        lemma_levels_of(b, level@);
    }
}

/// Clearing a square without a mark changes no level and no score.
proof fn lemma_remove_nothing(a: Seq<i8>, la: Seq<u8>, i: int)
    requires
        levels_exact(a, la),
        0 <= i < HW,
        !is_player(a[i]),
    ensures
        levels_exact(a.update(i, REMOVED_SQUARE), la),
        score_of(a.update(i, REMOVED_SQUARE), PLAYER_0_MARK) == score_of(a, PLAYER_0_MARK),
        score_of(a.update(i, REMOVED_SQUARE), PLAYER_1_MARK) == score_of(a, PLAYER_1_MARK),
{
    let b = a.update(i, REMOVED_SQUARE);
    let p = PLAYER_0_MARK;
    assert forall|y: int| #[trigger] mark(a, p, y) == mark(b, p, y) by {}
    lemma_same_marks(a, b, p);
    lemma_exact_for_of(a, la, p);
    assert forall|x: int| #[trigger] mark(b, p, x) implies is_level(b, x, la[x]) by {
        assert(mark(a, p, x));
        assert(is_level(a, x, la[x]));
    }
    assert(is_level(a, i, la[i]));
    lemma_bystander(a, la, b, la, p, i);
}

// ------------------------------------------------------------------------------- a move

/// Is `x` the centre `c` of a collision or one of its first `n` diagonal neighbours?
pub open spec fn in_blast(c: int, n: int, x: int) -> bool {
    x == c || exists|d: int| 0 <= d < n && x == #[trigger] nb(c, d)
}

/// The board with the centre of a collision and its first `n` diagonal neighbours cleared.
pub open spec fn blasted(cells: Seq<i8>, c: int, n: int) -> Seq<i8> {
    Seq::new(
        cells.len(),
        |x: int|
            if in_blast(c, n, x) {
                REMOVED_SQUARE
            } else {
                cells[x]
            },
    )
}

/// The board after the moves `i0` and `i1`: a mark for each player, or, where they collide,
/// that square and its four diagonal neighbours cleared.
pub open spec fn moved(cells: Seq<i8>, i0: int, i1: int) -> Seq<i8> {
    if i0 == i1 {
        blasted(cells, i0, 4)
    } else {
        cells.update(i0, PLAYER_0_MARK).update(i1, PLAYER_1_MARK)
    }
}

/// Does the move write a square of bit `k`?
pub open spec fn writes_bit(i0: int, i1: int, k: int) -> bool {
    ||| k == i0 / 2
    ||| k == i1 / 2
    ||| i0 == i1 && exists|d: int| 0 <= d < 4 && (#[trigger] nb(i0, d)) >= 0 && k == nb(i0, d) / 2
}

/// Clear the centre of a collision and its four diagonal neighbours, as five independent
/// single-cell removals.
fn blast(
    cells: &mut [i8],
    level: &mut [u8],
    score: &mut [i32],
    legal: &mut [u64],
    centre: usize,
    s: &mut Scratch,
)
    requires
        centre < HW,
        levels_exact(old(cells)@, old(level)@),
        old(score)@.len() == 2,
        old(legal)@.len() == LEGAL_WORDS,
        has_room(old(score)@[0] as int, old(cells)@, PLAYER_0_MARK),
        has_room(old(score)@[1] as int, old(cells)@, PLAYER_1_MARK),
        old(s).wf(),
    ensures
        final(cells)@ == blasted(old(cells)@, centre as int, 4),
        levels_exact(final(cells)@, final(level)@),
        scores_moved(old(score)@, final(score)@, old(cells)@, final(cells)@),
        final(legal)@.len() == LEGAL_WORDS,
        forall|k: int|
            0 <= k < 128 ==> (#[trigger] holds(final(legal)@, k) <==> holds(old(legal)@, k)
                && !writes_bit(centre as int, centre as int, k)),
        final(s).wf(),
        final(s).same_settings(old(s)),
        final(s).counters() == blast_stats(
            old(s).counters(),
            old(cells)@,
            centre as int,
            old(s).rebuilds(),
            4,
        ),
{
    let ghost a = cells@;
    let ghost c = centre as int;
    let ghost words = legal@;
    clear_legal(legal, centre);
    remove(cells, level, score, centre, s);
    assert(cells@ =~= blasted(a, c, 0));
    let mut d: usize = 0;
    while d < 4
        invariant
            d <= 4,
            centre < HW,
            c == centre,
            a.len() == HW,
            a == old(cells)@,
            words == old(legal)@,
            levels_exact(cells@, level@),
            cells@ == blasted(a, c, d as int),
            old(score)@.len() == 2,
            scores_moved(old(score)@, score@, a, cells@),
            has_room(old(score)@[0] as int, a, PLAYER_0_MARK),
            has_room(old(score)@[1] as int, a, PLAYER_1_MARK),
            legal@.len() == LEGAL_WORDS,
            forall|k: int|
                0 <= k < 128 ==> (#[trigger] holds(legal@, k) <==> holds(words, k) && k != c / 2
                    && !(exists|e: int|
                    0 <= e < d && (#[trigger] nb(c, e)) >= 0 && k == nb(c, e) / 2)),
            s.wf(),
            s.same_settings(old(s)),
            s.counters() == blast_stats(old(s).counters(), a, c, old(s).rebuilds(), d as nat),
        decreases 4 - d,
    {
        let ghost w0 = legal@;
        let ghost b0 = cells@;
        match step(centre, d) {
            Some(n) => {
                clear_legal(legal, n);
                remove(cells, level, score, n, s);
                proof {
                    assert(nb(c, d as int) == n);
                    assert forall|k: int| 0 <= k < 128 implies (#[trigger] holds(legal@, k)
                        <==> holds(words, k) && k != c / 2 && !(exists|e: int|
                        0 <= e < d + 1 && (#[trigger] nb(c, e)) >= 0 && k == nb(c, e) / 2)) by {
                        assert(holds(legal@, k) <==> holds(w0, k) && k != n / 2);
                        if exists|e: int|
                            0 <= e < d && (#[trigger] nb(c, e)) >= 0 && k == nb(c, e) / 2 {
                            let e = choose|e: int|
                                0 <= e < d && (#[trigger] nb(c, e)) >= 0 && k == nb(c, e) / 2;
                            assert(0 <= e < d + 1 && nb(c, e) >= 0 && k == nb(c, e) / 2);
                        }
                        if k == n / 2 {
                            assert(0 <= d < d + 1 && nb(c, d as int) >= 0);
                        }
                    }
                    lemma_blast_step(a, c, d as int);
                }
            },
            None => {
                proof {
                    assert(nb(c, d as int) < 0);
                    lemma_blast_step(a, c, d as int);
                }
            },
        }
        d = d + 1;
    }
}

/// Clearing one more neighbour, where there is one.
pub proof fn lemma_blast_step(a: Seq<i8>, c: int, d: int)
    requires
        a.len() == HW,
        0 <= c < HW,
        0 <= d < 4,
    ensures
        nb(c, d) >= 0 ==> blasted(a, c, d).update(nb(c, d), REMOVED_SQUARE) == blasted(a, c, d + 1),
        nb(c, d) < 0 ==> blasted(a, c, d) == blasted(a, c, d + 1),
{
    broadcast use crate::board::lemma_nb;

    let n = nb(c, d);
    let x2 = blasted(a, c, d + 1);
    assert forall|x: int| 0 <= x < HW implies (in_blast(c, d + 1, x) <==> in_blast(c, d, x) || x
        == n) by {
        if in_blast(c, d + 1, x) && x != c {
            let e = choose|e: int| 0 <= e < d + 1 && x == #[trigger] nb(c, e);
            assert(x == nb(c, e));
        }
        if in_blast(c, d, x) && x != c {
            let e = choose|e: int| 0 <= e < d && x == #[trigger] nb(c, e);
            assert(x == nb(c, e));
        }
    }
    if n >= 0 {
        assert(blasted(a, c, d).update(n, REMOVED_SQUARE) =~= x2);
    } else {
        assert(blasted(a, c, d) =~= x2);
    }
}

/// Apply one move. A collision, both players on the same square, clears that square and its
/// four diagonal neighbours.
pub(crate) fn play(
    cells: &mut [i8],
    level: &mut [u8],
    score: &mut [i32],
    legal: &mut [u64],
    i0: usize,
    i1: usize,
    s: &mut Scratch,
)
    requires
        i0 < HW,
        i1 < HW,
        levels_exact(old(cells)@, old(level)@),
        old(score)@.len() == 2,
        old(legal)@.len() == LEGAL_WORDS,
        has_room(old(score)@[0] as int, old(cells)@, PLAYER_0_MARK),
        has_room(old(score)@[1] as int, old(cells)@, PLAYER_1_MARK),
        old(s).wf(),
    ensures
        final(cells)@ == moved(old(cells)@, i0 as int, i1 as int),
        levels_exact(final(cells)@, final(level)@),
        scores_moved(old(score)@, final(score)@, old(cells)@, final(cells)@),
        final(legal)@.len() == LEGAL_WORDS,
        forall|k: int|
            0 <= k < 128 ==> (#[trigger] holds(final(legal)@, k) <==> holds(old(legal)@, k)
                && !writes_bit(i0 as int, i1 as int, k)),
        final(s).wf(),
        final(s).same_settings(old(s)),
        final(s).counters() == move_stats(
            old(s).counters(),
            old(cells)@,
            i0 as int,
            i1 as int,
            old(s).rebuilds(),
        ),
{
    if i0 == i1 {
        blast(cells, level, score, legal, i0, s);
    } else {
        clear_legal(legal, i0);
        clear_legal(legal, i1);
        place(cells, level, score, i0, PLAYER_0_MARK, s);
        place(cells, level, score, i1, PLAYER_1_MARK, s);
    }
}

/// Put `p`'s mark on square `i`, in place of any mark there.
fn place(
    cells: &mut [i8],
    level: &mut [u8],
    score: &mut [i32],
    i: usize,
    p: i8,
    s: &mut Scratch,
)
    requires
        is_player(p),
        i < HW,
        levels_exact(old(cells)@, old(level)@),
        old(score)@.len() == 2,
        has_room(old(score)@[0] as int, old(cells)@, PLAYER_0_MARK),
        has_room(old(score)@[1] as int, old(cells)@, PLAYER_1_MARK),
        old(s).wf(),
    ensures
        final(cells)@ == old(cells)@.update(i as int, p),
        levels_exact(final(cells)@, final(level)@),
        scores_moved(old(score)@, final(score)@, old(cells)@, final(cells)@),
        final(s).wf(),
        final(s).same_settings(old(s)),
        final(s).counters() == place_stats(
            old(s).counters(),
            old(cells)@,
            i as int,
            p,
            old(s).rebuilds(),
        ),
{
    if cells[i] == PLAYER_0_MARK || cells[i] == PLAYER_1_MARK {
        remove(cells, level, score, i, s);
    }
    insert(cells, level, score, i, p, s);
    assert(cells@ =~= old(cells)@.update(i as int, p));
}

} // verus!
