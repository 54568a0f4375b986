//! Levels: the number of steps to the nearest border cell, walking only over own marks.
use vstd::prelude::*;

use crate::board::{border, even_square, is_player, mark, nb, HW, INF, MAX_LEVEL};

verus! {

/// Does the mark of `p` on `i` have a route of at most `k` diagonal steps over marks of `p`
/// to a border cell?
pub open spec fn reaches(cells: Seq<i8>, p: i8, i: int, k: nat) -> bool
    decreases k,
{
    &&& mark(cells, p, i)
    &&& {
        ||| border(i)
        ||| k > 0 && exists|d: int|
            0 <= d < 4 && reaches(cells, p, #[trigger] nb(i, d), (k - 1) as nat)
    }
}

/// Does the mark of `p` on `i` have a route to the border at all?
pub open spec fn live(cells: Seq<i8>, p: i8, i: int) -> bool {
    exists|k: nat| reaches(cells, p, i, k)
}

/// Is `l` the level of the cell `i`: the length of the shortest route of its mark to the
/// border, and [`INF`] where there is no route or no mark?
pub open spec fn is_level(cells: Seq<i8>, i: int, l: u8) -> bool {
    if !is_player(cells[i]) {
        l == INF
    } else if l == INF {
        !live(cells, cells[i], i)
    } else {
        &&& reaches(cells, cells[i], i, l as nat)
        &&& forall|k: nat| k < l ==> !reaches(cells, cells[i], i, k)
    }
}

/// Every cell of the board carries its level.
pub open spec fn levels_exact(cells: Seq<i8>, level: Seq<u8>) -> bool {
    &&& cells.len() == HW
    &&& level.len() == HW
    &&& forall|i: int| 0 <= i < HW ==> is_level(cells, i, #[trigger] level[i])
}

// ------------------------------------------------------------------------ local conditions

/// No mark next to `x` is more than one level above it.
pub open spec fn relaxed(cells: Seq<i8>, level: Seq<u8>, p: i8, x: int) -> bool {
    level[x] != INF ==> forall|d: int|
        0 <= d < 4 && mark(cells, p, #[trigger] nb(x, d)) ==> level[nb(x, d)] <= level[x] + 1
}

/// A finite level above zero has a mark below it to rest on.
pub open spec fn supported(cells: Seq<i8>, level: Seq<u8>, p: i8, x: int) -> bool {
    level[x] == INF || border(x) || exists|d: int|
        0 <= d < 4 && mark(cells, p, #[trigger] nb(x, d)) && level[nb(x, d)] < level[x]
}

/// The same with the mark below exactly one level down.
pub open spec fn rests(cells: Seq<i8>, level: Seq<u8>, p: i8, x: int) -> bool {
    level[x] == INF || border(x) || exists|d: int|
        0 <= d < 4 && mark(cells, p, #[trigger] nb(x, d)) && level[nb(x, d)] + 1 == level[x]
}

/// Border marks are at level 0.
pub open spec fn grounded(cells: Seq<i8>, level: Seq<u8>, p: i8) -> bool {
    &&& cells.len() == HW
    &&& level.len() == HW
    &&& forall|x: int| #[trigger] mark(cells, p, x) && border(x) ==> level[x] == 0
}

/// Finite levels are within the cap.
pub open spec fn capped(cells: Seq<i8>, level: Seq<u8>, p: i8) -> bool {
    forall|x: int| #[trigger] mark(cells, p, x) ==> level[x] == INF || level[x] <= MAX_LEVEL
}

/// The levels of `p`'s marks are the exact distances.
pub open spec fn exact_for(cells: Seq<i8>, level: Seq<u8>, p: i8) -> bool {
    forall|x: int| #[trigger] mark(cells, p, x) ==> is_level(cells, x, level[x])
}

/// A board has one set of levels, however they were come by.
pub proof fn lemma_levels_unique(cells: Seq<i8>, a: Seq<u8>, b: Seq<u8>)
    requires
        levels_exact(cells, a),
        levels_exact(cells, b),
    ensures
        a == b,
{
    assert forall|i: int| 0 <= i < HW implies a[i] == b[i] by {
        assert(is_level(cells, i, a[i]) && is_level(cells, i, b[i]));
        if is_player(cells[i]) && a[i] != b[i] {
            if a[i] != INF && b[i] != INF {
                if a[i] < b[i] {
                    assert(!reaches(cells, cells[i], i, a[i] as nat));
                } else {
                    assert(!reaches(cells, cells[i], i, b[i] as nat));
                }
            }
        }
    }
    assert(a =~= b);
}

pub proof fn lemma_reaches_mono(cells: Seq<i8>, p: i8, i: int, k: nat, m: nat)
    requires
        reaches(cells, p, i, k),
        k <= m,
    ensures
        reaches(cells, p, i, m),
    decreases k,
{
    if !border(i) {
        let d = choose|d: int|
            0 <= d < 4 && reaches(cells, p, #[trigger] nb(i, d), (k - 1) as nat);
        lemma_reaches_mono(cells, p, nb(i, d), (k - 1) as nat, (m - 1) as nat);
    }
}

/// A supported level is the length of a real route.
proof fn lemma_supported_reaches(cells: Seq<i8>, level: Seq<u8>, p: i8, x: int)
    requires
        grounded(cells, level, p),
        forall|y: int| #[trigger] mark(cells, p, y) ==> supported(cells, level, p, y),
        mark(cells, p, x),
        level[x] != INF,
    ensures
        reaches(cells, p, x, level[x] as nat),
    decreases level[x],
{
    assert(supported(cells, level, p, x));
    if !border(x) {
        let d = choose|d: int|
            0 <= d < 4 && mark(cells, p, #[trigger] nb(x, d)) && level[nb(x, d)] < level[x];
        lemma_supported_reaches(cells, level, p, nb(x, d));
        lemma_reaches_mono(cells, p, nb(x, d), level[nb(x, d)] as nat, (level[x] - 1) as nat);
    }
}

/// Relaxed levels never exceed the length of a route.
proof fn lemma_relaxed_bound(cells: Seq<i8>, level: Seq<u8>, p: i8, x: int, k: nat)
    requires
        grounded(cells, level, p),
        capped(cells, level, p),
        forall|y: int| #[trigger] mark(cells, p, y) ==> relaxed(cells, level, p, y),
        reaches(cells, p, x, k),
    ensures
        level[x] != INF,
        level[x] <= k,
    decreases k,
{
    broadcast use crate::board::lemma_nb;
    assert(mark(cells, p, x));
    if !border(x) {
        let d = choose|d: int|
            0 <= d < 4 && reaches(cells, p, #[trigger] nb(x, d), (k - 1) as nat);
        let y = nb(x, d);
        lemma_relaxed_bound(cells, level, p, y, (k - 1) as nat);
        assert(mark(cells, p, y));
        assert(relaxed(cells, level, p, y));
        crate::board::lemma_nb_back(x, d);
    }
}

/// Levels that satisfy the local conditions everywhere are the exact distances.
pub proof fn lemma_local_exact(cells: Seq<i8>, level: Seq<u8>, p: i8)
    requires
        is_player(p),
        grounded(cells, level, p),
        capped(cells, level, p),
        forall|y: int| #[trigger] mark(cells, p, y) ==> supported(cells, level, p, y),
        forall|y: int| #[trigger] mark(cells, p, y) ==> relaxed(cells, level, p, y),
    ensures
        exact_for(cells, level, p),
{
    assert forall|x: int| #[trigger] mark(cells, p, x) implies is_level(cells, x, level[x]) by {
        if level[x] != INF {
            lemma_supported_reaches(cells, level, p, x);
            assert forall|k: nat| k < level[x] implies !reaches(cells, p, x, k) by {
                if reaches(cells, p, x, k) {
                    lemma_relaxed_bound(cells, level, p, x, k);
                }
            }
        } else if live(cells, p, x) {
            let k = choose|k: nat| reaches(cells, p, x, k);
            lemma_relaxed_bound(cells, level, p, x, k);
        }
    }
}

/// A sequence of distinct numbers below `n` has at most `n` of them.
pub proof fn lemma_pigeon(s: Seq<int>, n: nat)
    requires
        forall|m: int| 0 <= m < s.len() ==> 0 <= #[trigger] s[m] < n,
        s.no_duplicates(),
    ensures
        s.len() <= n,
{
    s.unique_seq_to_set();
    let r = vstd::set_lib::set_int_range(0, n as int);
    vstd::set_lib::lemma_int_range(0, n as int);
    assert(s.to_set().subset_of(r));
    vstd::set_lib::lemma_len_subset(s.to_set(), r);
}

/// A route down from `x` through every level below its own.
pub proof fn lemma_chain(cells: Seq<i8>, level: Seq<u8>, p: i8, x: int) -> (s: Seq<int>)
    requires
        grounded(cells, level, p),
        mark(cells, p, x),
        level[x] != INF,
        forall|y: int| #[trigger]
            mark(cells, p, y) && level[y] <= level[x] ==> rests(cells, level, p, y),
    ensures
        s.len() == level[x] + 1,
        forall|m: int|
            0 <= m < s.len() ==> mark(cells, p, #[trigger] s[m]) && level[s[m]] == m
                && even_square(s[m]) == even_square(x),
    decreases level[x],
{
    broadcast use crate::board::lemma_nb;
    assert(rests(cells, level, p, x));
    if border(x) {
        seq![x]
    } else {
        let d = choose|d: int|
            0 <= d < 4 && mark(cells, p, #[trigger] nb(x, d)) && level[nb(x, d)] + 1 == level[x];
        let t = lemma_chain(cells, level, p, nb(x, d));
        t.push(x)
    }
}

/// No level resting on a full chain of lower ones reaches the cap.
pub proof fn lemma_below_cap(cells: Seq<i8>, level: Seq<u8>, p: i8, x: int)
    requires
        grounded(cells, level, p),
        mark(cells, p, x),
        level[x] != INF,
        forall|y: int| #[trigger]
            mark(cells, p, y) && level[y] <= level[x] ==> rests(cells, level, p, y),
    ensures
        level[x] < MAX_LEVEL,
{
    let s = lemma_chain(cells, level, p, x);
    let t = Seq::new(s.len(), |m: int| s[m] / 2);
    assert forall|a: int, b: int| 0 <= a < t.len() && 0 <= b < t.len() && a != b implies t[a]
        != t[b] by {
        assert(mark(cells, p, s[a]) && mark(cells, p, s[b]));
        if t[a] == t[b] {
            crate::board::lemma_even_half(s[a], s[b]);
        }
    }
    assert forall|m: int| 0 <= m < t.len() implies 0 <= #[trigger] t[m] < 80 by {
        assert(mark(cells, p, s[m]));
    }
    lemma_pigeon(t, 80);
}

/// Exact distances satisfy the local conditions, and stay below the cap.
pub proof fn lemma_exact_local(cells: Seq<i8>, level: Seq<u8>, p: i8)
    requires
        is_player(p),
        cells.len() == HW,
        level.len() == HW,
        exact_for(cells, level, p),
    ensures
        grounded(cells, level, p),
        forall|x: int| #[trigger] mark(cells, p, x) ==> rests(cells, level, p, x),
        forall|x: int| #[trigger] mark(cells, p, x) ==> supported(cells, level, p, x),
        forall|x: int| #[trigger] mark(cells, p, x) ==> relaxed(cells, level, p, x),
        forall|x: int| #[trigger]
            mark(cells, p, x) ==> level[x] == INF || level[x] < MAX_LEVEL,
{
    broadcast use crate::board::lemma_nb;

    assert forall|x: int| #[trigger] mark(cells, p, x) implies (border(x)
        ==> level[x] == 0) && rests(
        cells,
        level,
        p,
        x,
    ) && relaxed(cells, level, p, x) by {
        assert(is_level(cells, x, level[x]));
        assert forall|d: int| 0 <= d < 4 && mark(cells, p, #[trigger] nb(x, d)) implies is_level(
            cells,
            nb(x, d),
            level[nb(x, d)],
        ) by {}
        lemma_exact_near(cells, level, p, x);
    }
    assert forall|x: int| #[trigger] mark(cells, p, x) implies (level[x] == INF || level[x]
        < MAX_LEVEL) by {
        if level[x] != INF {
            lemma_below_cap(cells, level, p, x);
        }
    }
    assert forall|x: int| #[trigger] mark(cells, p, x) implies supported(cells, level, p, x) by {
        assert(rests(cells, level, p, x));
    }
}

/// The local conditions at one mark, where it and its neighbours carry exact levels.
pub proof fn lemma_exact_near(cells: Seq<i8>, level: Seq<u8>, p: i8, x: int)
    requires
        is_player(p),
        cells.len() == HW,
        level.len() == HW,
        mark(cells, p, x),
        is_level(cells, x, level[x]),
        forall|d: int|
            0 <= d < 4 && mark(cells, p, #[trigger] nb(x, d)) ==> is_level(
                cells,
                nb(x, d),
                level[nb(x, d)],
            ),
    ensures
        border(x) ==> level[x] == 0,
        rests(cells, level, p, x),
        relaxed(cells, level, p, x),
{
    broadcast use crate::board::lemma_nb;

    if border(x) {
        assert(reaches(cells, p, x, 0));
    } else if level[x] != INF {
        let d = choose|d: int|
            0 <= d < 4 && reaches(cells, p, #[trigger] nb(x, d), (level[x] - 1) as nat);
        let y = nb(x, d);
        assert(mark(cells, p, nb(x, d)));
        assert(is_level(cells, y, level[y]));
        assert(level[y] <= level[x] - 1);
        if level[y] + 1 < level[x] {
            assert(reaches(cells, p, x, (level[x] - 1) as nat)) by {
                lemma_reaches_mono(cells, p, y, level[y] as nat, (level[x] - 2) as nat);
            }
        }
    }
    if level[x] != INF {
        assert forall|d: int| 0 <= d < 4 && mark(cells, p, #[trigger] nb(x, d)) implies level[nb(
            x,
            d,
        )] <= level[x] + 1 by {
            let y = nb(x, d);
            crate::board::lemma_nb_back(x, d);
            assert(nb(y, 3 - d) == x);
            assert(reaches(cells, p, y, (level[x] + 1) as nat));
            assert(is_level(cells, y, level[y]));
        }
    }
}

} // verus!
