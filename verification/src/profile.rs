//! Reading what a move cost: which path it took, by the counters it moved, and how the times
//! of many moves are spread.
use vstd::prelude::*;

use crate::board::{is_player, nb, HW, INF, PLAYER_0_MARK, PLAYER_1_MARK, REMOVED_SQUARE};
use crate::moves::blasted;
use crate::repair::{repair_begin, repair_done, repair_steps, Repair};
use crate::scratch::Stats;
use crate::sums::{sum_to, unit};
use crate::tally::{
    blast_stats, dependants_of, insert_path, levels_of, move_stats, remove_path, remove_stats,
};
use crate::walk::{cells_in, component};

verus! {

/// Which path a single game's move took.
#[derive(Clone, Copy, PartialEq, Eq, Debug, Structural)]
pub enum MovePath {
    InsertDead,
    InsertFast,
    InsertSlow,
    CollisionCheap,
    CollisionSlow,
    /// No counter moved.
    Unknown,
}

/// Counters only ever rise.
pub open spec fn risen(before: Stats, after: Stats) -> bool {
    &&& before.inserts <= after.inserts
    &&& before.removes <= after.removes
    &&& before.inserts_dead <= after.inserts_dead
    &&& before.inserts_slow <= after.inserts_slow
    &&& before.removes_slow <= after.removes_slow
}

impl MovePath {
    /// The path a move took, from the counters before and after it. A collision is slow if it
    /// made any removal slow, another move if it made any insertion slow; one that put both
    /// marks where nothing reaches the border is dead.
    pub open spec fn taken(before: Stats, after: Stats, collision: bool) -> MovePath {
        if after.inserts + after.removes == before.inserts + before.removes {
            MovePath::Unknown
        } else if collision {
            if after.removes_slow - before.removes_slow > 0 {
                MovePath::CollisionSlow
            } else {
                MovePath::CollisionCheap
            }
        } else if after.inserts_slow - before.inserts_slow > 0 {
            MovePath::InsertSlow
        } else if after.inserts_dead - before.inserts_dead == 2 {
            MovePath::InsertDead
        } else {
            MovePath::InsertFast
        }
    }

    /// The path a move took.
    pub fn of(before: &Stats, after: &Stats, collision: bool) -> (p: MovePath)
        requires
            risen(*before, *after),
        ensures
            p == MovePath::taken(*before, *after, collision),
    {
        if after.inserts == before.inserts && after.removes == before.removes {
            MovePath::Unknown
        } else if collision {
            if after.removes_slow > before.removes_slow {
                MovePath::CollisionSlow
            } else {
                MovePath::CollisionCheap
            }
        } else if after.inserts_slow > before.inserts_slow {
            MovePath::InsertSlow
        } else if after.inserts_dead - before.inserts_dead == 2 {
            MovePath::InsertDead
        } else {
            MovePath::InsertFast
        }
    }

    /// The path in words.
    pub fn label(self) -> (s: &'static str)
        ensures
            s@ == match self {
                MovePath::InsertDead => "move, both marks dead (no route to border)"@,
                MovePath::InsertFast => "move, fast path (live territory)"@,
                MovePath::InsertSlow => "move, slow path (revives a dead blob)"@,
                MovePath::CollisionCheap => "collision, no slow removal"@,
                MovePath::CollisionSlow => "collision, >=1 slow removal"@,
                MovePath::Unknown => "unclassified (build with --features stats)"@,
            },
    {
        match self {
            MovePath::InsertDead => "move, both marks dead (no route to border)",
            MovePath::InsertFast => "move, fast path (live territory)",
            MovePath::InsertSlow => "move, slow path (revives a dead blob)",
            MovePath::CollisionCheap => "collision, no slow removal",
            MovePath::CollisionSlow => "collision, >=1 slow removal",
            MovePath::Unknown => "unclassified (build with --features stats)",
        }
    }
}

/// Where no counter moved, no move can be told from another.
pub proof fn lemma_uncounted(s: Stats, collision: bool)
    ensures
        MovePath::taken(s, s, collision) == MovePath::Unknown,
{
}

/// So far from wrapping around, the counters rise with a move.
pub open spec fn has_counts_left(st: Stats) -> bool {
    &&& st.inserts + 5 <= u64::MAX
    &&& st.inserts_dead + 5 <= u64::MAX
    &&& st.inserts_fast + 5 <= u64::MAX
    &&& st.inserts_slow + 5 <= u64::MAX
    &&& st.removes + 5 <= u64::MAX
    &&& st.removes_slow + 5 <= u64::MAX
}

/// The counters of one move tell its path: two marks on empty squares make a dead, a fast or a
/// slow move by the paths of their insertions.
pub proof fn lemma_move_told(st: Stats, cells: Seq<i8>, i0: int, i1: int, rebuilds: bool)
    requires
        has_counts_left(st),
        cells.len() == HW,
        0 <= i0 < HW,
        0 <= i1 < HW,
        i0 != i1,
        !is_player(cells[i0]),
        !is_player(cells[i1]),
    ensures
        ({
            let mid = cells.update(i0, PLAYER_0_MARK);
            let first = insert_path(cells, levels_of(cells), PLAYER_0_MARK, i0);
            let second = insert_path(mid, levels_of(mid), PLAYER_1_MARK, i1);
            let after = move_stats(st, cells, i0, i1, rebuilds);
            &&& risen(st, after)
            &&& MovePath::taken(st, after, false) == (if first is Slow || second is Slow {
                MovePath::InsertSlow
            } else if first is Dead && second is Dead {
                MovePath::InsertDead
            } else {
                MovePath::InsertFast
            })
        }),
{
}

/// A repair leaves the counts of paths alone.
proof fn lemma_repair_paths(cells: Seq<i8>, p: i8, r: Repair, k: nat)
    ensures
        repair_steps(cells, p, r, k).stats.inserts == r.stats.inserts,
        repair_steps(cells, p, r, k).stats.inserts_dead == r.stats.inserts_dead,
        repair_steps(cells, p, r, k).stats.inserts_slow == r.stats.inserts_slow,
        repair_steps(cells, p, r, k).stats.removes == r.stats.removes,
        repair_steps(cells, p, r, k).stats.removes_slow == r.stats.removes_slow,
    decreases k,
{
    if k > 0 {
        lemma_repair_paths(cells, p, r, (k - 1) as nat);
    }
}

/// What clearing a square counts, of the counts that tell a collision's path.
proof fn lemma_remove_told(st: Stats, cells: Seq<i8>, i: int, rebuilds: bool)
    ensures
        ({
            let after = remove_stats(st, cells, i, rebuilds);
            &&& after.inserts == st.inserts
            &&& after.inserts_dead == st.inserts_dead
            &&& after.inserts_slow == st.inserts_slow
            &&& after.removes == st.removes.wrapping_add(1)
            &&& after.removes_slow == (if remove_path(cells, levels_of(cells), i) is Slow {
                st.removes_slow.wrapping_add(1)
            } else {
                st.removes_slow
            })
        }),
{
    let la = levels_of(cells);
    let p = cells[i];
    let b = cells.update(i, REMOVED_SQUARE);
    let walked = st.removed(remove_path(cells, la, i)).walked(
        1,
        cells_in(component(cells, p, i)),
    );
    let r = repair_begin(la.update(i, INF), dependants_of(cells, la, p, i, 4), walked);
    lemma_repair_paths(
        b,
        p,
        r,
        choose|k: nat| repair_done(#[trigger] repair_steps(b, p, r, k)),
    );
}

/// Is the centre of a collision, or one of its first `n` diagonal neighbours, cleared on the
/// slow path?
pub open spec fn cuts(cells: Seq<i8>, c: int, n: nat) -> bool
    decreases n,
{
    if n == 0 {
        remove_path(cells, levels_of(cells), c) is Slow
    } else {
        let b = blasted(cells, c, n - 1);
        cuts(cells, c, (n - 1) as nat) || (nb(c, n - 1) >= 0 && remove_path(
            b,
            levels_of(b),
            nb(c, n - 1),
        ) is Slow)
    }
}

proof fn lemma_blast_told(st: Stats, cells: Seq<i8>, c: int, rebuilds: bool, n: nat)
    requires
        has_counts_left(st),
        n <= 4,
    ensures
        ({
            let after = blast_stats(st, cells, c, rebuilds, n);
            &&& after.inserts == st.inserts
            &&& after.inserts_dead == st.inserts_dead
            &&& after.inserts_slow == st.inserts_slow
            &&& st.removes < after.removes <= st.removes + n + 1
            &&& st.removes_slow <= after.removes_slow <= st.removes_slow + n + 1
            &&& after.removes_slow > st.removes_slow <==> cuts(cells, c, n)
        }),
    decreases n,
{
    if n == 0 {
        lemma_remove_told(st, cells, c, rebuilds);
    } else {
        lemma_blast_told(st, cells, c, rebuilds, (n - 1) as nat);
        lemma_remove_told(
            blast_stats(st, cells, c, rebuilds, (n - 1) as nat),
            blasted(cells, c, n - 1),
            nb(c, n - 1),
            rebuilds,
        );
    }
}

/// A collision is slow exactly if one of its removals may have cut something.
pub proof fn lemma_collision_told(st: Stats, cells: Seq<i8>, i: int, rebuilds: bool)
    requires
        has_counts_left(st),
    ensures
        ({
            let after = move_stats(st, cells, i, i, rebuilds);
            &&& risen(st, after)
            &&& MovePath::taken(st, after, true) == (if cuts(cells, i, 4) {
                MovePath::CollisionSlow
            } else {
                MovePath::CollisionCheap
            })
        }),
{
    lemma_blast_told(st, cells, i, rebuilds, 4);
}

// -------------------------------------------------------------------------------- histogram

/// Buckets of a histogram of times.
pub const BUCKETS: usize = 16;

/// Where a bucket begins, in nanoseconds. They grow with the time, which is the only way a
/// hundredfold spread reads.
pub open spec fn edge(b: int) -> int {
    if b <= 0 {
        0
    } else if b == 1 {
        100
    } else if b == 2 {
        150
    } else if b == 3 {
        200
    } else if b == 4 {
        300
    } else if b == 5 {
        400
    } else if b == 6 {
        600
    } else if b == 7 {
        800
    } else if b == 8 {
        1_200
    } else if b == 9 {
        1_600
    } else if b == 10 {
        2_400
    } else if b == 11 {
        3_200
    } else if b == 12 {
        4_800
    } else if b == 13 {
        6_400
    } else if b == 14 {
        12_800
    } else {
        25_600
    }
}

/// Does a time fall into bucket `b`? The last bucket has no end.
pub open spec fn falls_into(ns: int, b: int) -> bool {
    edge(b) <= ns && (b == BUCKETS - 1 || ns < edge(b + 1))
}

/// Where bucket `b` begins.
pub fn bucket_start(b: usize) -> (ns: u64)
    requires
        b < BUCKETS,
    ensures
        ns == edge(b as int),
{
    let edges: [u64; 16] = [
        0,
        100,
        150,
        200,
        300,
        400,
        600,
        800,
        1_200,
        1_600,
        2_400,
        3_200,
        4_800,
        6_400,
        12_800,
        25_600,
    ];
    edges[b]
}

/// The bucket a time falls into.
pub fn bucket_of(ns: u64) -> (b: usize)
    ensures
        b < BUCKETS,
        falls_into(ns as int, b as int),
{
    let mut b: usize = BUCKETS - 1;
    while b > 0
        invariant
            b < BUCKETS,
            b == BUCKETS - 1 || ns < edge(b + 1),
        ensures
            b < BUCKETS,
            falls_into(ns as int, b as int),
        decreases b,
    {
        if bucket_start(b) <= ns {
            break;
        }
        b = b - 1;
    }
    b
}

/// A time falls into one bucket.
pub proof fn lemma_one_bucket(ns: int, a: int, b: int)
    requires
        0 <= a < BUCKETS,
        0 <= b < BUCKETS,
        falls_into(ns, a),
        falls_into(ns, b),
    ensures
        a == b,
{
    if a < b {
        lemma_edges_rise(a + 1, b);
    } else if b < a {
        lemma_edges_rise(b + 1, a);
    }
}

/// Later buckets begin later.
proof fn lemma_edges_rise(a: int, b: int)
    requires
        0 <= a <= b < BUCKETS,
    ensures
        edge(a) <= edge(b),
    decreases b - a,
{
    if a < b {
        lemma_edges_rise(a + 1, b);
    }
}

/// How many of the first `n` times fall into bucket `b`.
pub open spec fn fallen(times: Seq<u64>, b: int, n: nat) -> int {
    sum_to(|i: int| unit(falls_into(times[i] as int, b)), n)
}

/// How many times fall into each bucket.
pub fn spread_times(times: &Vec<u64>) -> (counts: Vec<usize>)
    ensures
        counts@.len() == BUCKETS,
        forall|b: int|
            0 <= b < BUCKETS ==> #[trigger] counts@[b] == fallen(times@, b, times@.len()),
{
    let mut counts: Vec<usize> = vec![0; 16];
    let mut i: usize = 0;
    while i < times.len()
        invariant
            i <= times@.len(),
            counts@.len() == BUCKETS,
            forall|b: int|
                0 <= b < BUCKETS ==> #[trigger] counts@[b] == fallen(times@, b, i as nat)
                    && counts@[b] <= i,
        decreases times@.len() - i,
    {
        let ghost before = counts@;
        let at: usize = bucket_of(times[i]);
        assert(counts@[at as int] <= i);
        let v: usize = counts[at] + 1;
        counts.set(at, v);
        assert forall|b: int| 0 <= b < BUCKETS implies #[trigger] counts@[b] == fallen(
            times@,
            b,
            i as nat + 1,
        ) && counts@[b] <= i + 1 by {
            let f = |j: int| unit(falls_into(times@[j] as int, b));
            assert(fallen(times@, b, i as nat + 1) == fallen(times@, b, i as nat) + f(i as int));
            assert(before[b] == fallen(times@, b, i as nat));
            if b != at {
                if falls_into(times@[i as int] as int, b) {
                    lemma_one_bucket(times@[i as int] as int, b, at as int);
                }
            }
        }
        i = i + 1;
    }
    counts
}

/// The length of a histogram's bar, out of 56 for the highest, and never nothing.
pub fn bar(count: usize, peak: usize) -> (n: usize)
    requires
        0 < peak,
        count <= peak,
        count * 56 <= usize::MAX,
    ensures
        n == (if count * 56 / (peak as int) < 1 {
            1
        } else {
            count * 56 / (peak as int)
        }),
{
    let n: usize = count * 56 / peak;
    if n < 1 {
        1
    } else {
        n
    }
}

} // verus!
