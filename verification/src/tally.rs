//! What a move counts: the path it takes, and the work that goes into it.
use vstd::prelude::*;

use crate::board::{is_player, mark, nb, HW, INF, PLAYER_0_MARK, PLAYER_1_MARK, REMOVED_SQUARE};
use crate::levels::{lemma_levels_unique, levels_exact};
use crate::moves::blasted;
use crate::repair::{
    alive_of, changed_levels, derived_level, highest_level, repair_begin, repair_end,
};
use crate::scratch::{InsertPath, RemovePath, Stats};
use crate::sums::{sum_to, unit};
use crate::walk::{cells_in, component};

verus! {

/// The levels of a board.
pub open spec fn levels_of(cells: Seq<i8>) -> Seq<u8> {
    choose|level: Seq<u8>| levels_exact(cells, level)
}

/// A board has one set of levels.
pub proof fn lemma_levels_of(cells: Seq<i8>, level: Seq<u8>)
    requires
        levels_exact(cells, level),
    ensures
        levels_of(cells) == level,
{
    lemma_levels_unique(cells, levels_of(cells), level);
}

// ---------------------------------------------------------------------------- insertions

/// The path on which a mark is placed.
pub open spec fn insert_path(cells: Seq<i8>, level: Seq<u8>, p: i8, i: int) -> InsertPath {
    if derived_level(cells, level, p, i) == INF {
        InsertPath::Dead
    } else if exists|d: int|
        0 <= d < 4 && mark(cells, p, #[trigger] nb(i, d)) && level[nb(i, d)] == INF {
        InsertPath::Slow
    } else {
        InsertPath::Fast
    }
}

/// Is the neighbour in this direction an alive mark?
pub open spec fn alive_side(cells: Seq<i8>, level: Seq<u8>, p: i8, i: int, d: int) -> bool {
    mark(cells, p, nb(i, d)) && level[nb(i, d)] != INF
}

/// The cells connected to an alive mark in one of the first `n` directions.
pub open spec fn touched(cells: Seq<i8>, level: Seq<u8>, p: i8, i: int, n: int) -> Set<int> {
    Set::new(
        |x: int|
            exists|d: int|
                0 <= d < n && #[trigger] alive_side(cells, level, p, i, d) && component(
                    cells,
                    p,
                    nb(i, d),
                ).contains(x),
    )
}

/// In how many of the first `n` directions an alive component lies that is in none before.
pub open spec fn components_near(
    cells: Seq<i8>,
    level: Seq<u8>,
    p: i8,
    i: int,
    n: nat,
) -> int {
    sum_to(
        |d: int|
            unit(
                alive_side(cells, level, p, i, d) && !touched(cells, level, p, i, d).contains(
                    nb(i, d),
                ),
            ),
        n,
    )
}

/// The counters after a mark is placed. `la` and `lb` are the levels before and after.
pub open spec fn insert_counts(
    st: Stats,
    cells: Seq<i8>,
    la: Seq<u8>,
    lb: Seq<u8>,
    p: i8,
    i: int,
) -> Stats {
    let path = insert_path(cells, la, p, i);
    let counted = st.inserted(path);
    let pops = 1 + changed_levels(la.update(i, derived_level(cells, la, p, i)), lb);
    match path {
        InsertPath::Dead => counted,
        InsertPath::Fast => counted.relaxed(pops),
        InsertPath::Slow => counted.walked(
            components_near(cells, la, p, i, 4),
            cells_in(touched(cells, la, p, i, 4)),
        ).relaxed(pops).walked(1, cells_in(component(cells.update(i, p), p, i))),
    }
}

/// The counters after `p`'s mark is placed on square `i`.
pub open spec fn insert_stats(st: Stats, cells: Seq<i8>, i: int, p: i8) -> Stats {
    insert_counts(st, cells, levels_of(cells), levels_of(cells.update(i, p)), p, i)
}

// ------------------------------------------------------------------------------ removals

/// Those of the first `n` neighbours of a mark that sit one level above it.
pub open spec fn dependants_of(
    cells: Seq<i8>,
    level: Seq<u8>,
    p: i8,
    i: int,
    n: nat,
) -> Seq<u16>
    decreases n,
{
    if n == 0 {
        Seq::empty()
    } else {
        let rest = dependants_of(cells, level, p, i, (n - 1) as nat);
        let x = nb(i, n - 1);
        if mark(cells, p, x) && level[x] == level[i] + 1 {
            rest.push(x as u16)
        } else {
            rest
        }
    }
}

/// The path on which a square is cleared.
pub open spec fn remove_path(cells: Seq<i8>, level: Seq<u8>, i: int) -> RemovePath {
    if !is_player(cells[i]) {
        RemovePath::NonMark
    } else if level[i] == INF {
        RemovePath::Dead
    } else if dependants_of(cells, level, cells[i], i, 4).len() == 0 {
        RemovePath::Fast
    } else {
        RemovePath::Slow
    }
}

/// The counters after a square is cleared. `la` and `lb` are the levels before and after, and
/// `rebuilds` says which way a cut component is repaired.
pub open spec fn remove_counts(
    st: Stats,
    cells: Seq<i8>,
    la: Seq<u8>,
    lb: Seq<u8>,
    i: int,
    rebuilds: bool,
) -> Stats {
    let path = remove_path(cells, la, i);
    let counted = st.removed(path);
    if path is Slow {
        let p = cells[i];
        let whole = component(cells, p, i);
        let rest = whole.remove(i);
        let walked = counted.walked(1, cells_in(whole));
        if rebuilds {
            walked.rebuilt(
                cells_in(rest),
                cells_in(alive_of(lb, rest)),
                highest_level(lb, rest, HW as nat),
            )
        } else {
            repair_end(
                cells.update(i, REMOVED_SQUARE),
                p,
                repair_begin(la.update(i, INF), dependants_of(cells, la, p, i, 4), walked),
            ).stats
        }
    } else {
        counted
    }
}

/// The counters after square `i` is cleared.
pub open spec fn remove_stats(st: Stats, cells: Seq<i8>, i: int, rebuilds: bool) -> Stats {
    remove_counts(
        st,
        cells,
        levels_of(cells),
        levels_of(cells.update(i, REMOVED_SQUARE)),
        i,
        rebuilds,
    )
}

// --------------------------------------------------------------------------------- moves

/// The counters after `p`'s mark is put on square `i`, in place of any mark there.
pub open spec fn place_stats(
    st: Stats,
    cells: Seq<i8>,
    i: int,
    p: i8,
    rebuilds: bool,
) -> Stats {
    if is_player(cells[i]) {
        insert_stats(
            remove_stats(st, cells, i, rebuilds),
            cells.update(i, REMOVED_SQUARE),
            i,
            p,
        )
    } else {
        insert_stats(st, cells, i, p)
    }
}

/// The counters after the centre of a collision and its first `n` diagonal neighbours are
/// cleared.
pub open spec fn blast_stats(
    st: Stats,
    cells: Seq<i8>,
    c: int,
    rebuilds: bool,
    n: nat,
) -> Stats
    decreases n,
{
    if n == 0 {
        remove_stats(st, cells, c, rebuilds)
    } else {
        let before = blast_stats(st, cells, c, rebuilds, (n - 1) as nat);
        let x = nb(c, n - 1);
        if x >= 0 {
            remove_stats(before, blasted(cells, c, n - 1), x, rebuilds)
        } else {
            before
        }
    }
}

/// The counters after the moves `i0` and `i1`.
pub open spec fn move_stats(
    st: Stats,
    cells: Seq<i8>,
    i0: int,
    i1: int,
    rebuilds: bool,
) -> Stats {
    if i0 == i1 {
        blast_stats(st, cells, i0, rebuilds, 4)
    } else {
        place_stats(
            place_stats(st, cells, i0, PLAYER_0_MARK, rebuilds),
            cells.update(i0, PLAYER_0_MARK),
            i1,
            PLAYER_1_MARK,
            rebuilds,
        )
    }
}

} // verus!
