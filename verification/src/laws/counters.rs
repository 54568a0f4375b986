//! What the counters count.
use vstd::prelude::*;

use crate::board::{
    border, is_player, lemma_nb, mark, nb, HW, INF, PLAYER_0_MARK, PLAYER_1_MARK, REMOVED_SQUARE,
};
use crate::incremental::apply_move;
use crate::laws::rules::{lemma_nb_apart, lemma_sound, points};
use crate::levels::{exact_for, is_level, lemma_exact_local, levels_exact, reaches, rests};
use crate::moves::{blasted, insert, remove};
use crate::repair::{
    best_neighbour, changed_levels, derived_level, repair_begin, repair_done, repair_steps, Repair,
};
use crate::score::score_of;
use crate::scratch::{RemovePath, Scratch, Stats};
use crate::sums::{lemma_sum_eq, sum_to, unit};
use crate::tally::{
    blast_stats, dependants_of, insert_counts, lemma_levels_of, levels_of, place_stats,
    remove_counts, remove_path, remove_stats,
};
use crate::walk::{cells_in, component};

verus! {

// ------------------------------------------------------------------------- marks and squares

/// Do two cells touch at a corner?
pub open spec fn corners(x: int, y: int) -> bool {
    (x / 16 - y / 16 == 1 || x / 16 - y / 16 == -1) && (x % 16 - y % 16 == 1 || x % 16 - y % 16
        == -1)
}

/// Does a mark of `p` at this cell's corner have a route to the border?
pub open spec fn held_at_corner(cells: Seq<i8>, level: Seq<u8>, p: i8, i: int) -> bool {
    exists|y: int| 0 <= y < HW && corners(y, i) && #[trigger] cells[y] == p && level[y] != 255
}

/// Is there a mark of `p` at this cell's corner that has no route to the border?
pub open spec fn lost_at_corner(cells: Seq<i8>, level: Seq<u8>, p: i8, i: int) -> bool {
    exists|y: int| 0 <= y < HW && corners(y, i) && #[trigger] cells[y] == p && level[y] == 255
}

/// Is a mark of the same player at this cell's corner one step farther from the border?
pub open spec fn leant_on(cells: Seq<i8>, level: Seq<u8>, i: int) -> bool {
    exists|y: int|
        0 <= y < HW && corners(y, i) && #[trigger] cells[y] == cells[i] && level[y] == level[i]
            + 1
}

proof fn lemma_best(cells: Seq<i8>, level: Seq<u8>, p: i8, i: int, k: nat)
    requires
        k <= 4,
    ensures
        best_neighbour(cells, level, p, i, k) == INF || exists|d: int|
            0 <= d < k && mark(cells, p, #[trigger] nb(i, d)) && level[nb(i, d)]
                == best_neighbour(cells, level, p, i, k),
        forall|d: int|
            0 <= d < k && mark(cells, p, #[trigger] nb(i, d)) ==> best_neighbour(
                cells,
                level,
                p,
                i,
                k,
            ) <= level[nb(i, d)],
    decreases k,
{
    if k > 0 {
        lemma_best(cells, level, p, i, (k - 1) as nat);
        assert(nb(i, k - 1) == nb(i, k - 1));
    }
}

proof fn lemma_alive(cells: Seq<i8>, level: Seq<u8>, p: i8, i: int)
    requires
        is_player(p),
        levels_exact(cells, level),
        0 <= i < HW,
    ensures
        derived_level(cells, level, p, i) == INF <==> !border(i) && !held_at_corner(
            cells,
            level,
            p,
            i,
        ),
        (exists|d: int|
            0 <= d < 4 && mark(cells, p, #[trigger] nb(i, d)) && level[nb(i, d)] == INF)
            <==> lost_at_corner(cells, level, p, i),
{
    assert(exact_for(cells, level, p)) by {
        assert forall|x: int| #[trigger] mark(cells, p, x) implies is_level(
            cells,
            x,
            level[x],
        ) by {}
    }
    lemma_exact_local(cells, level, p);
    lemma_best(cells, level, p, i, 4);
    assert forall|y: int| 0 <= y < HW && corners(y, i) implies exists|d: int|
        0 <= d < 4 && #[trigger] nb(i, d) == y by {
        lemma_nb_apart(i, y);
    }
    assert forall|d: int| 0 <= d < 4 && 0 <= #[trigger] nb(i, d) < HW implies corners(
        nb(i, d),
        i,
    ) by {
        lemma_nb_apart(i, nb(i, d));
    }
}

proof fn lemma_dependants(cells: Seq<i8>, level: Seq<u8>, i: int, n: nat)
    requires
        n <= 4,
    ensures
        dependants_of(cells, level, cells[i], i, n).len() == 0 <==> forall|d: int|
            0 <= d < n && mark(cells, cells[i], #[trigger] nb(i, d)) ==> level[nb(i, d)]
                != level[i] + 1,
    decreases n,
{
    if n > 0 {
        lemma_dependants(cells, level, i, (n - 1) as nat);
        let x = nb(i, n - 1);
        assert(nb(i, n - 1) == x);
    }
}

/// Placing a mark moves each score by the change in that player's points and counts one
/// insertion of one sort: a dead one away from the border with no held mark at a corner, a
/// slow one where a lost mark of the player touches, and a fast one otherwise. It counts no
/// removal.
pub proof fn lemma_insert_counted(
    cells: &mut [i8],
    level: &mut [u8],
    score: &mut [i32],
    i: usize,
    p: i8,
    s: &mut Scratch,
)
    requires
        call_ensures(insert, (cells, level, score, i, p, s), ()),
        is_player(p),
        i < HW,
        levels_exact(old(cells)@, old(level)@),
    ensures
        ({
            let was = old(s).counters();
            let now = final(s).counters();
            let alive = i / 16 == 0 || i / 16 == 9 || i % 16 == 0 || i % 16 == 15
                || held_at_corner(old(cells)@, old(level)@, p, i as int);
            let revives = lost_at_corner(old(cells)@, old(level)@, p, i as int);
            &&& final(score)@[0] - old(score)@[0] == points(
                final(cells)@,
                final(level)@,
                PLAYER_0_MARK,
            ) - points(old(cells)@, old(level)@, PLAYER_0_MARK)
            &&& final(score)@[1] - old(score)@[1] == points(
                final(cells)@,
                final(level)@,
                PLAYER_1_MARK,
            ) - points(old(cells)@, old(level)@, PLAYER_1_MARK)
            &&& now.inserts == was.inserts.wrapping_add(1)
            &&& now.inserts_dead == was.inserts_dead.wrapping_add(bit(!alive))
            &&& now.inserts_slow == was.inserts_slow.wrapping_add(bit(alive && revives))
            &&& now.inserts_fast == was.inserts_fast.wrapping_add(bit(alive && !revives))
            &&& now.removes == was.removes
            &&& now.removes_nonmark == was.removes_nonmark
            &&& now.removes_dead == was.removes_dead
            &&& now.removes_fast == was.removes_fast
            &&& now.removes_slow == was.removes_slow
        }),
{
    lemma_levels_of(old(cells)@, old(level)@);
    lemma_alive(old(cells)@, old(level)@, p, i as int);
    lemma_points_of(old(cells)@, old(level)@);
    lemma_points_of(final(cells)@, final(level)@);
}

/// Clearing a square moves each score by the change in that player's points and counts one
/// removal of one sort: of no mark, of a mark without a route to the border, of a mark that
/// nothing leant on, or of one that something did. It counts no insertion, and only the last
/// sort costs anything.
pub proof fn lemma_remove_counted(
    cells: &mut [i8],
    level: &mut [u8],
    score: &mut [i32],
    i: usize,
    s: &mut Scratch,
)
    requires
        call_ensures(remove, (cells, level, score, i, s), ()),
        i < HW,
        levels_exact(old(cells)@, old(level)@),
    ensures
        ({
            let was = old(s).counters();
            let now = final(s).counters();
            let held = old(cells)@[i as int];
            let marked = held == PLAYER_0_MARK || held == PLAYER_1_MARK;
            let alive = old(level)@[i as int] != 255;
            let leant = leant_on(old(cells)@, old(level)@, i as int);
            &&& final(score)@[0] - old(score)@[0] == points(
                final(cells)@,
                final(level)@,
                PLAYER_0_MARK,
            ) - points(old(cells)@, old(level)@, PLAYER_0_MARK)
            &&& final(score)@[1] - old(score)@[1] == points(
                final(cells)@,
                final(level)@,
                PLAYER_1_MARK,
            ) - points(old(cells)@, old(level)@, PLAYER_1_MARK)
            &&& now.removes == was.removes.wrapping_add(1)
            &&& now.removes_nonmark == was.removes_nonmark.wrapping_add(bit(!marked))
            &&& now.removes_dead == was.removes_dead.wrapping_add(bit(marked && !alive))
            &&& now.removes_fast == was.removes_fast.wrapping_add(bit(marked && alive && !leant))
            &&& now.removes_slow == was.removes_slow.wrapping_add(bit(marked && alive && leant))
            &&& now.inserts == was.inserts
            &&& now.inserts_dead == was.inserts_dead
            &&& now.inserts_fast == was.inserts_fast
            &&& now.inserts_slow == was.inserts_slow
            &&& now.relax_pops == was.relax_pops
            &&& now.component_walks == was.component_walks.wrapping_add(
                bit(marked && alive && leant),
            )
            &&& now.bfs_repairs == was.bfs_repairs.wrapping_add(
                bit(marked && alive && leant && old(s).rebuilds()),
            )
            &&& !(marked && alive && leant) ==> now.repair_pops == was.repair_pops
                && now.component_cells == was.component_cells && now.bfs_cells == was.bfs_cells
                && now.repair_dead == was.repair_dead
        }),
{
    lemma_levels_of(old(cells)@, old(level)@);
    lemma_levels_of(final(cells)@, final(level)@);
    lemma_cleared(
        old(s).counters(),
        old(cells)@,
        old(level)@,
        final(level)@,
        i as int,
        old(s).rebuilds(),
    );
    lemma_points_of(old(cells)@, old(level)@);
    lemma_points_of(final(cells)@, final(level)@);
}

/// One, or nothing.
pub open spec fn bit(b: bool) -> u64 {
    if b {
        1
    } else {
        0
    }
}

proof fn lemma_leant(cells: Seq<i8>, level: Seq<u8>, i: int)
    requires
        0 <= i < HW,
    ensures
        dependants_of(cells, level, cells[i], i, 4).len() == 0 <==> !leant_on(cells, level, i),
{
    lemma_dependants(cells, level, i, 4);
    if leant_on(cells, level, i) {
        let y = choose|y: int|
            0 <= y < HW && corners(y, i) && #[trigger] cells[y] == cells[i] && level[y] == level[i]
                + 1;
        lemma_nb_apart(i, y);
        let d = choose|d: int| 0 <= d < 4 && y == #[trigger] nb(i, d);
        assert(mark(cells, cells[i], nb(i, d)));
    } else {
        assert forall|d: int| 0 <= d < 4 && mark(cells, cells[i], #[trigger] nb(i, d)) implies level[
        nb(i, d)] != level[i] + 1 by {
            lemma_nb_apart(i, nb(i, d));
            assert(cells[nb(i, d)] == cells[i]);
        }
    }
}

/// A repair pass counts its own work only.
proof fn lemma_repair_counts(cells: Seq<i8>, p: i8, r: Repair, k: nat)
    ensures
        ({
            let t = repair_steps(cells, p, r, k).stats;
            t == (Stats {
                repair_pops: t.repair_pops,
                repair_max_level: t.repair_max_level,
                repair_capped: t.repair_capped,
                repair_dead: t.repair_dead,
                ..r.stats
            })
        }),
    decreases k,
{
    if k > 0 {
        lemma_repair_counts(cells, p, r, (k - 1) as nat);
    }
}

proof fn lemma_cleared(
    st: Stats,
    cells: Seq<i8>,
    la: Seq<u8>,
    lb: Seq<u8>,
    i: int,
    rebuilds: bool,
)
    requires
        0 <= i < HW,
    ensures
        ({
            let now = remove_counts(st, cells, la, lb, i, rebuilds);
            let marked = is_player(cells[i]);
            let alive = la[i] != 255;
            let leant = leant_on(cells, la, i);
            &&& now.removes == st.removes.wrapping_add(1)
            &&& now.removes_nonmark == st.removes_nonmark.wrapping_add(bit(!marked))
            &&& now.removes_dead == st.removes_dead.wrapping_add(bit(marked && !alive))
            &&& now.removes_fast == st.removes_fast.wrapping_add(bit(marked && alive && !leant))
            &&& now.removes_slow == st.removes_slow.wrapping_add(bit(marked && alive && leant))
            &&& now.inserts == st.inserts
            &&& now.inserts_dead == st.inserts_dead
            &&& now.inserts_fast == st.inserts_fast
            &&& now.inserts_slow == st.inserts_slow
            &&& now.relax_pops == st.relax_pops
            &&& now.component_walks == st.component_walks.wrapping_add(
                bit(marked && alive && leant),
            )
            &&& now.bfs_repairs == st.bfs_repairs.wrapping_add(
                bit(marked && alive && leant && rebuilds),
            )
            &&& !(marked && alive && leant) ==> now.repair_pops == st.repair_pops
                && now.component_cells == st.component_cells && now.bfs_cells == st.bfs_cells
                && now.repair_dead == st.repair_dead
        }),
{
    lemma_leant(cells, la, i);
    if remove_path(cells, la, i) is Slow && !rebuilds {
        let p = cells[i];
        let walked = st.removed(RemovePath::Slow).walked(1, cells_in(component(cells, p, i)));
        let r = repair_begin(la.update(i, INF), dependants_of(cells, la, p, i, 4), walked);
        let c = cells.update(i, REMOVED_SQUARE);
        let k = choose|k: nat| repair_done(#[trigger] repair_steps(c, p, r, k));
        lemma_repair_counts(c, p, r, k);
    }
}

proof fn lemma_placed(st: Stats, cells: Seq<i8>, la: Seq<u8>, lb: Seq<u8>, p: i8, i: int)
    ensures
        ({
            let now = insert_counts(st, cells, la, lb, p, i);
            &&& now.inserts == st.inserts.wrapping_add(1)
            &&& now.removes == st.removes
        }),
{
}

/// A move of two squares counts two insertions and a removal for each of the squares that held
/// a mark. A collision counts no insertion, and a removal for its square and for each square
/// of the board that touches it at a corner.
pub proof fn lemma_move_counted(
    cells: &mut [i8],
    level: &mut [u8],
    score: &mut [i32],
    legal: &mut [u64],
    at0: (usize, usize),
    at1: (usize, usize),
    s: &mut Scratch,
)
    requires
        call_ensures(apply_move, (cells, level, score, legal, at0, at1, s), ()),
        at0.0 < 10,
        at0.1 < 16,
        at1.0 < 10,
        at1.1 < 16,
        levels_exact(old(cells)@, old(level)@),
    ensures
        ({
            let was = old(s).counters();
            let now = final(s).counters();
            let up = at0.0 > 0;
            let down = at0.0 < 9;
            let left = at0.1 > 0;
            let right = at0.1 < 15;
            if at0 == at1 {
                &&& now.inserts == was.inserts
                &&& now.removes == was.removes.wrapping_add(
                    (1 + bit(up && left) + bit(up && right) + bit(down && left) + bit(
                        down && right,
                    )) as u64,
                )
            } else {
                &&& now.inserts == was.inserts.wrapping_add(2)
                &&& now.removes == was.removes.wrapping_add(
                    (bit(is_player(old(cells)@[at0.0 * 16 + at0.1])) + bit(
                        is_player(old(cells)@[at1.0 * 16 + at1.1]),
                    )) as u64,
                )
            }
        }),
{
    let st = old(s).counters();
    let c = old(cells)@;
    let i0 = at0.0 * 16 + at0.1;
    let i1 = at1.0 * 16 + at1.1;
    let rebuilds = old(s).rebuilds();
    if at0 == at1 {
        reveal_with_fuel(sides_below, 5);
        lemma_sides(at0.0 as int, at0.1 as int);
        lemma_blast_counted(st, c, i0, rebuilds, 4);
    } else {
        assert(i0 != i1);
        lemma_one_placed(st, c, i0, PLAYER_0_MARK, rebuilds);
        lemma_one_placed(
            place_stats(st, c, i0, PLAYER_0_MARK, rebuilds),
            c.update(i0, PLAYER_0_MARK),
            i1,
            PLAYER_1_MARK,
            rebuilds,
        );
    }
}

/// In how many of the first `n` directions the board goes on.
spec fn sides_below(i: int, n: nat) -> int
    decreases n,
{
    if n == 0 {
        0
    } else {
        sides_below(i, (n - 1) as nat) + bit(nb(i, n - 1) >= 0)
    }
}

proof fn lemma_sides(r: int, c: int)
    requires
        0 <= r < 10,
        0 <= c < 16,
    ensures
        nb(r * 16 + c, 0) >= 0 <==> r > 0 && c > 0,
        nb(r * 16 + c, 1) >= 0 <==> r > 0 && c < 15,
        nb(r * 16 + c, 2) >= 0 <==> r < 9 && c > 0,
        nb(r * 16 + c, 3) >= 0 <==> r < 9 && c < 15,
{
    reveal(nb);
}

proof fn lemma_blast_counted(st: Stats, cells: Seq<i8>, c: int, rebuilds: bool, n: nat)
    requires
        0 <= c < HW,
        n <= 4,
    ensures
        0 <= sides_below(c, n) <= n,
        blast_stats(st, cells, c, rebuilds, n).inserts == st.inserts,
        blast_stats(st, cells, c, rebuilds, n).removes == st.removes.wrapping_add(
            (1 + sides_below(c, n)) as u64,
        ),
    decreases n,
{
    broadcast use lemma_nb;

    if n == 0 {
        lemma_one_cleared(st, cells, c, rebuilds);
    } else {
        lemma_blast_counted(st, cells, c, rebuilds, (n - 1) as nat);
        let x = nb(c, n - 1);
        lemma_one_cleared(
            blast_stats(st, cells, c, rebuilds, (n - 1) as nat),
            blasted(cells, c, n - 1),
            x,
            rebuilds,
        );
    }
}

proof fn lemma_one_cleared(st: Stats, cells: Seq<i8>, i: int, rebuilds: bool)
    ensures
        0 <= i < HW ==> remove_stats(st, cells, i, rebuilds).inserts == st.inserts,
        0 <= i < HW ==> remove_stats(st, cells, i, rebuilds).removes == st.removes.wrapping_add(1),
{
    if 0 <= i < HW {
        lemma_cleared(
            st,
            cells,
            levels_of(cells),
            levels_of(cells.update(i, REMOVED_SQUARE)),
            i,
            rebuilds,
        );
    }
}

proof fn lemma_one_placed(st: Stats, cells: Seq<i8>, i: int, p: i8, rebuilds: bool)
    requires
        0 <= i < HW,
    ensures
        place_stats(st, cells, i, p, rebuilds).inserts == st.inserts.wrapping_add(1),
        place_stats(st, cells, i, p, rebuilds).removes == st.removes.wrapping_add(
            bit(is_player(cells[i])),
        ),
{
    lemma_one_cleared(st, cells, i, rebuilds);
    let gone = cells.update(i, REMOVED_SQUARE);
    lemma_placed(
        remove_stats(st, cells, i, rebuilds),
        gone,
        levels_of(gone),
        levels_of(gone.update(i, p)),
        p,
        i,
    );
    lemma_placed(st, cells, levels_of(cells), levels_of(cells.update(i, p)), p, i);
}

proof fn lemma_points_of(cells: Seq<i8>, level: Seq<u8>)
    requires
        levels_exact(cells, level),
    ensures
        score_of(cells, PLAYER_0_MARK) == points(cells, level, PLAYER_0_MARK),
        score_of(cells, PLAYER_1_MARK) == points(cells, level, PLAYER_1_MARK),
{
    assert(exact_for(cells, level, PLAYER_0_MARK) && exact_for(cells, level, PLAYER_1_MARK)) by {
        assert forall|p: i8, x: int| #[trigger] mark(cells, p, x) implies is_level(
            cells,
            x,
            level[x],
        ) by {}
    }
    lemma_sound(cells, level);
}

/// A route that is shorter than the new mark's own does not lead over it.
proof fn lemma_route_old(cells: Seq<i8>, p: i8, i: int, y: int, k: nat)
    requires
        cells.len() == HW,
        0 <= i < HW,
        y != i,
        reaches(cells.update(i, p), p, y, k),
        forall|m: nat| m < k ==> !reaches(cells.update(i, p), p, i, m),
    ensures
        reaches(cells, p, y, k),
    decreases k,
{
    let next = cells.update(i, p);
    assert(mark(next, p, y) && mark(cells, p, y));
    if !border(y) {
        let d = choose|d: int| 0 <= d < 4 && reaches(next, p, #[trigger] nb(y, d), (k - 1) as nat);
        assert(nb(y, d) != i);
        lemma_route_old(cells, p, i, nb(y, d), (k - 1) as nat);
        assert(reaches(cells, p, nb(y, d), (k - 1) as nat));
    }
}

/// A route stays one when a mark is added.
proof fn lemma_route_kept(cells: Seq<i8>, p: i8, i: int, y: int, k: nat)
    requires
        cells.len() == HW,
        0 <= i < HW,
        reaches(cells, p, y, k),
    ensures
        reaches(cells.update(i, p), p, y, k),
    decreases k,
{
    let next = cells.update(i, p);
    assert(mark(next, p, y));
    if !border(y) {
        let d = choose|d: int| 0 <= d < 4 && reaches(cells, p, #[trigger] nb(y, d), (k - 1) as nat);
        lemma_route_kept(cells, p, i, nb(y, d), (k - 1) as nat);
        assert(reaches(next, p, nb(y, d), (k - 1) as nat));
    }
}

/// A new mark's level is what its neighbours say.
proof fn lemma_derived(cells: Seq<i8>, la: Seq<u8>, lb: Seq<u8>, p: i8, i: int)
    requires
        is_player(p),
        0 <= i < HW,
        !is_player(cells[i]),
        levels_exact(cells, la),
        levels_exact(cells.update(i, p), lb),
    ensures
        lb[i] == derived_level(cells, la, p, i),
{
    let next = cells.update(i, p);
    assert(exact_for(cells, la, p)) by {
        assert forall|x: int| #[trigger] mark(cells, p, x) implies is_level(cells, x, la[x]) by {}
    }
    assert(exact_for(next, lb, p)) by {
        assert forall|x: int| #[trigger] mark(next, p, x) implies is_level(next, x, lb[x]) by {}
    }
    lemma_exact_local(cells, la, p);
    lemma_exact_local(next, lb, p);
    lemma_best(cells, la, p, i, 4);
    assert(mark(next, p, i));
    assert(is_level(next, i, lb[i]));
    let best = best_neighbour(cells, la, p, i, 4);
    if !border(i) {
        if best < INF {
            let d = choose|d: int|
                0 <= d < 4 && mark(cells, p, #[trigger] nb(i, d)) && la[nb(i, d)] == best;
            assert(is_level(cells, nb(i, d), best));
            lemma_route_kept(cells, p, i, nb(i, d), best as nat);
            assert(reaches(next, p, nb(i, d), ((best + 1) - 1) as nat));
            assert(reaches(next, p, i, (best + 1) as nat));
            assert(lb[i] != INF);
            assert(lb[i] <= best + 1);
        }
        if lb[i] != INF {
            assert(rests(next, lb, p, i));
            let d = choose|d: int|
                0 <= d < 4 && mark(next, p, #[trigger] nb(i, d)) && lb[nb(i, d)] + 1 == lb[i];
            let y = nb(i, d);
            assert(is_level(next, y, lb[y]));
            lemma_route_old(cells, p, i, y, lb[y] as nat);
            assert(mark(cells, p, y));
            assert(is_level(cells, y, la[y]));
            assert(la[y] <= lb[y]);
        }
    }
}

/// Placing a mark pops a cell of the downward pass for each cell whose level it changes, and
/// none where the mark is dead. Only a mark that revives others walks over components.
pub proof fn lemma_insert_cost(
    cells: &mut [i8],
    level: &mut [u8],
    score: &mut [i32],
    i: usize,
    p: i8,
    s: &mut Scratch,
)
    requires
        call_ensures(insert, (cells, level, score, i, p, s), ()),
        is_player(p),
        i < HW,
        !is_player(old(cells)@[i as int]),
        levels_exact(old(cells)@, old(level)@),
    ensures
        ({
            let was = old(s).counters();
            let now = final(s).counters();
            let alive = final(level)@[i as int] != 255;
            let revives = lost_at_corner(old(cells)@, old(level)@, p, i as int);
            &&& alive ==> now.relax_pops == was.relax_pops.wrapping_add(
                sum_to(|x: int| unit(final(level)@[x] != old(level)@[x]), 160) as u64,
            )
            &&& !alive ==> now.relax_pops == was.relax_pops
            &&& !(alive && revives) ==> now.component_walks == was.component_walks
                && now.component_cells == was.component_cells
            &&& now.repair_pops == was.repair_pops
            &&& now.bfs_repairs == was.bfs_repairs
        }),
{
    let la = old(level)@;
    let lb = final(level)@;
    let at = i as int;
    lemma_levels_of(old(cells)@, la);
    lemma_levels_of(final(cells)@, lb);
    lemma_alive(old(cells)@, la, p, at);
    lemma_derived(old(cells)@, la, lb, p, at);
    assert(is_level(old(cells)@, at, la[at]));
    assert(la[at] == INF);
    if lb[at] != INF {
        let f = |x: int| unit(lb[x] != la.update(at, lb[at])[x]);
        let g = |x: int| unit(lb[x] != la[x]);
        lemma_one_more(f, g, at, 160);
        assert(changed_levels(la.update(at, lb[at]), lb) == sum_to(f, 160)) by {
            lemma_sum_eq(
                |x: int| unit(lb[x] != la.update(at, lb[at])[x]),
                f,
                160,
            );
        }
        lemma_sum_eq(g, |x: int| unit(final(level)@[x] != old(level)@[x]), 160);
    }
}

proof fn lemma_one_more(f: spec_fn(int) -> int, g: spec_fn(int) -> int, at: int, n: nat)
    requires
        0 <= at,
        f(at) == 0,
        g(at) == 1,
        forall|x: int| 0 <= x < n && x != at ==> #[trigger] f(x) == g(x),
    ensures
        sum_to(g, n) == sum_to(f, n) + (if at < n {
            1int
        } else {
            0
        }),
    decreases n,
{
    if n > 0 {
        lemma_one_more(f, g, at, (n - 1) as nat);
        if n - 1 != at {
            assert(f(n - 1) == g(n - 1));
        }
    }
}

} // verus!
