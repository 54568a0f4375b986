//! Working memory for one move.
use vstd::prelude::*;

use crate::board::{HW, INF, MAX_LEVEL};

verus! {

/// How a mark is placed.
#[derive(Clone, Copy, Debug, PartialEq, Eq, Structural)]
pub enum InsertPath {
    /// No route leads from the square to the border: nothing scores, nothing changes.
    Dead,
    /// Into live territory: the change is local.
    Fast,
    /// It revives a dead blob.
    Slow,
}

/// How a square is cleared.
#[derive(Clone, Copy, Debug, PartialEq, Eq, Structural)]
pub enum RemovePath {
    /// It held no mark.
    NonMark,
    /// The mark was unreachable already.
    Dead,
    /// Nothing routed through the mark.
    Fast,
    /// Something may have been cut.
    Slow,
}

/// Counters of which paths the moves took and what that cost, so a profile can say why a
/// workload costs what it does. They wrap around.
#[derive(Clone, Copy, Debug, PartialEq, Eq, Structural)]
pub struct Stats {
    pub inserts: u64,
    /// insert onto a square with no route to the border: nothing scores, nothing changes
    pub inserts_dead: u64,
    /// insert into live territory: O(1)
    pub inserts_fast: u64,
    /// insert that revives a dead blob: O(component)
    pub inserts_slow: u64,
    pub removes: u64,
    /// the square held no mark
    pub removes_nonmark: u64,
    /// the mark was already unreachable, so its component scored nothing
    pub removes_dead: u64,
    /// nothing routed through it: O(1)
    pub removes_fast: u64,
    /// something may have been cut: O(component)
    pub removes_slow: u64,
    /// cells popped by the two level passes
    pub relax_pops: u64,
    pub repair_pops: u64,
    /// the highest level written by the most recent upward repair
    pub repair_max_level: u8,
    /// a cell went dead because its chain exceeded the level cap
    pub repair_capped: u64,
    /// a cell went dead because no surviving neighbour had a finite level
    pub repair_dead: u64,
    /// cells visited by component walks, and how many walks
    pub component_cells: u64,
    pub component_walks: u64,
    /// slow removals that rebuilt their component, and the cells that touched
    pub bfs_repairs: u64,
    pub bfs_cells: u64,
}

impl Stats {
    /// All counters at zero.
    pub open spec fn zero() -> Stats {
        Stats {
            inserts: 0,
            inserts_dead: 0,
            inserts_fast: 0,
            inserts_slow: 0,
            removes: 0,
            removes_nonmark: 0,
            removes_dead: 0,
            removes_fast: 0,
            removes_slow: 0,
            relax_pops: 0,
            repair_pops: 0,
            repair_max_level: 0,
            repair_capped: 0,
            repair_dead: 0,
            component_cells: 0,
            component_walks: 0,
            bfs_repairs: 0,
            bfs_cells: 0,
        }
    }
}

impl Stats {
    /// One insertion more, by this path.
    pub open spec fn inserted(self, path: InsertPath) -> Stats {
        let st = Stats { inserts: self.inserts.wrapping_add(1), ..self };
        match path {
            InsertPath::Dead => Stats {
                inserts_dead: self.inserts_dead.wrapping_add(1),
                ..st
            },
            InsertPath::Fast => Stats {
                inserts_fast: self.inserts_fast.wrapping_add(1),
                ..st
            },
            InsertPath::Slow => Stats {
                inserts_slow: self.inserts_slow.wrapping_add(1),
                ..st
            },
        }
    }

    /// One removal more, by this path.
    pub open spec fn removed(self, path: RemovePath) -> Stats {
        let st = Stats { removes: self.removes.wrapping_add(1), ..self };
        match path {
            RemovePath::NonMark => Stats {
                removes_nonmark: self.removes_nonmark.wrapping_add(1),
                ..st
            },
            RemovePath::Dead => Stats {
                removes_dead: self.removes_dead.wrapping_add(1),
                ..st
            },
            RemovePath::Fast => Stats {
                removes_fast: self.removes_fast.wrapping_add(1),
                ..st
            },
            RemovePath::Slow => Stats {
                removes_slow: self.removes_slow.wrapping_add(1),
                ..st
            },
        }
    }

    /// So many cells more popped by the downward level pass.
    pub open spec fn relaxed(self, pops: int) -> Stats {
        Stats { relax_pops: self.relax_pops.wrapping_add(pops as u64), ..self }
    }

    /// So many component walks more, over so many cells.
    pub open spec fn walked(self, walks: int, cells: int) -> Stats {
        Stats {
            component_walks: self.component_walks.wrapping_add(walks as u64),
            component_cells: self.component_cells.wrapping_add(cells as u64),
            ..self
        }
    }

    /// One component more rebuilt: so many of its cells blanked, so many reached again, and
    /// the highest level given.
    pub open spec fn rebuilt(self, cells: int, pops: int, highest: int) -> Stats {
        Stats {
            bfs_repairs: self.bfs_repairs.wrapping_add(1),
            bfs_cells: self.bfs_cells.wrapping_add(cells as u64),
            repair_pops: self.repair_pops.wrapping_add(pops as u64),
            repair_max_level: highest as u8,
            ..self
        }
    }

    /// An upward repair begins.
    pub open spec fn repairing(self) -> Stats {
        Stats { repair_max_level: 0, ..self }
    }

    /// One cell more popped by the upward level pass.
    pub open spec fn popped(self) -> Stats {
        Stats { repair_pops: self.repair_pops.wrapping_add(1), ..self }
    }

    /// A cell raised to `l`. One that goes dead does so at the level cap, if a neighbour is
    /// still alive, or else for want of one.
    pub open spec fn raised(self, l: u8, alive: bool) -> Stats {
        if l != INF {
            Stats {
                repair_max_level: if l > self.repair_max_level {
                    l
                } else {
                    self.repair_max_level
                },
                ..self
            }
        } else if alive {
            Stats { repair_capped: self.repair_capped.wrapping_add(1), ..self }
        } else {
            Stats { repair_dead: self.repair_dead.wrapping_add(1), ..self }
        }
    }
}

impl Default for Stats {
    fn default() -> (s: Self)
        ensures
            s == Stats::zero(),
    {
        Stats {
            inserts: 0,
            inserts_dead: 0,
            inserts_fast: 0,
            inserts_slow: 0,
            removes: 0,
            removes_nonmark: 0,
            removes_dead: 0,
            removes_fast: 0,
            removes_slow: 0,
            relax_pops: 0,
            repair_pops: 0,
            repair_max_level: 0,
            repair_capped: 0,
            repair_dead: 0,
            component_cells: 0,
            component_walks: 0,
            bfs_repairs: 0,
            bfs_cells: 0,
        }
    }
}

/// The cell buffers a [`Scratch`] keeps between moves.
#[derive(Clone, Copy, Debug, PartialEq, Eq, Structural)]
pub(crate) enum Buffer {
    Stack,
    Queue,
    Comp,
    Deps,
}

/// Working memory for one move, so a move allocates nothing: a generation-stamped visited
/// set (bump `epoch` to clear it in O(1)), cell buffers, and a bucket queue keyed by level
/// for processing cells in increasing level order.
///
/// The caller owns this and lends it to every call that needs it, which is what keeps a
/// game plain data and a fork a memcpy. Create one per thread and pass it around.
pub struct Scratch {
    pub stats: Stats,
    /// Which repair strategy a removal that may have cut a component uses: `true` (the
    /// default) re-derives the component's levels from its border cells, `false` walks them
    /// up. Both give the same state, cell for cell; they differ only in cost.
    pub bfs_repair: bool,
    stamp: Vec<u32>,
    epoch: u32,
    stack: Vec<u16>,
    line: Vec<u16>,
    comp: Vec<u16>,
    deps: Vec<u16>,
    buckets: Vec<Vec<u16>>,
    cursor: usize,
}

/// The number of level buckets: one for each level up to the cap.
pub open spec fn levels_kept() -> int {
    MAX_LEVEL + 1
}

impl Scratch {
    /// The internal invariant.
    pub closed spec fn inv(&self) -> bool {
        &&& self.stamp@.len() == HW
        &&& forall|i: int| 0 <= i < HW ==> #[trigger] self.stamp@[i] <= self.epoch
        &&& self.buckets@.len() == levels_kept()
        &&& self.cursor <= levels_kept()
    }

    /// The level queue: the cells waiting at each level.
    pub closed spec fn queue(&self) -> Seq<Seq<u16>> {
        Seq::new(self.buckets@.len(), |b: int| self.buckets@[b]@)
    }

    /// The lowest level the queue may still hand out.
    pub closed spec fn cursor(&self) -> int {
        self.cursor as int
    }

    /// The cells the current walk has visited.
    pub closed spec fn visited(&self) -> Set<int> {
        Set::new(|i: int| 0 <= i < HW && self.stamp@[i] == self.epoch)
    }

    /// What a cell buffer holds.
    pub(crate) closed spec fn held(&self, which: Buffer) -> Seq<u16> {
        match which {
            Buffer::Stack => self.stack@,
            Buffer::Queue => self.line@,
            Buffer::Comp => self.comp@,
            Buffer::Deps => self.deps@,
        }
    }

    /// Nothing is waiting in the level queue.
    pub open spec fn queue_empty(&self) -> bool {
        forall|b: int| 0 <= b < levels_kept() ==> (#[trigger] self.queue()[b]).len() == 0
    }

    /// Ready for a move: the state every public operation takes and leaves.
    pub open spec fn wf(&self) -> bool {
        self.inv() && self.queue_empty()
    }

    /// The path counters.
    pub closed spec fn counters(&self) -> Stats {
        self.stats
    }

    /// Whether a cut component is rebuilt rather than walked up.
    pub closed spec fn rebuilds(&self) -> bool {
        self.bfs_repair
    }

    /// The repair strategy is the same.
    pub open spec fn same_settings(&self, other: &Scratch) -> bool {
        self.rebuilds() == other.rebuilds()
    }

    /// The counters and the repair strategy are the same.
    pub open spec fn same_account(&self, other: &Scratch) -> bool {
        self.counters() == other.counters() && self.rebuilds() == other.rebuilds()
    }

    /// Everything but the counters is the same.
    pub(crate) open spec fn same_memory(&self, other: &Scratch) -> bool {
        &&& self.rebuilds() == other.rebuilds()
        &&& self.queue() == other.queue()
        &&& self.cursor() == other.cursor()
        &&& self.visited() == other.visited()
        &&& self.inv() == other.inv()
    }

    /// Count an insertion.
    pub(crate) fn count_insert(&mut self, path: InsertPath)
        ensures
            final(self).counters() == old(self).counters().inserted(path),
            final(self).same_memory(old(self)),
    {
        self.stats.inserts = self.stats.inserts.wrapping_add(1);
        match path {
            InsertPath::Dead => {
                self.stats.inserts_dead = self.stats.inserts_dead.wrapping_add(1);
            },
            InsertPath::Fast => {
                self.stats.inserts_fast = self.stats.inserts_fast.wrapping_add(1);
            },
            InsertPath::Slow => {
                self.stats.inserts_slow = self.stats.inserts_slow.wrapping_add(1);
            },
        }
        assert(self.queue() =~= old(self).queue());
        assert(self.visited() =~= old(self).visited());
    }

    /// Count a removal.
    pub(crate) fn count_remove(&mut self, path: RemovePath)
        ensures
            final(self).counters() == old(self).counters().removed(path),
            final(self).same_memory(old(self)),
    {
        self.stats.removes = self.stats.removes.wrapping_add(1);
        match path {
            RemovePath::NonMark => {
                self.stats.removes_nonmark = self.stats.removes_nonmark.wrapping_add(1);
            },
            RemovePath::Dead => {
                self.stats.removes_dead = self.stats.removes_dead.wrapping_add(1);
            },
            RemovePath::Fast => {
                self.stats.removes_fast = self.stats.removes_fast.wrapping_add(1);
            },
            RemovePath::Slow => {
                self.stats.removes_slow = self.stats.removes_slow.wrapping_add(1);
            },
        }
        assert(self.queue() =~= old(self).queue());
        assert(self.visited() =~= old(self).visited());
    }

    /// Count the cells popped by a downward level pass.
    pub(crate) fn count_relax(&mut self, pops: usize)
        ensures
            final(self).counters() == old(self).counters().relaxed(pops as int),
            final(self).same_memory(old(self)),
    {
        self.stats.relax_pops = self.stats.relax_pops.wrapping_add(pops as u64);
        assert(self.queue() =~= old(self).queue());
        assert(self.visited() =~= old(self).visited());
    }

    /// Count a component walk.
    pub(crate) fn count_walk(&mut self, cells: usize)
        ensures
            final(self).counters() == old(self).counters().walked(1, cells as int),
            final(self).same_memory(old(self)),
    {
        self.stats.component_walks = self.stats.component_walks.wrapping_add(1);
        self.stats.component_cells = self.stats.component_cells.wrapping_add(cells as u64);
        assert(self.queue() =~= old(self).queue());
        assert(self.visited() =~= old(self).visited());
    }

    /// Begin an upward repair.
    pub(crate) fn count_repair(&mut self)
        ensures
            final(self).counters() == old(self).counters().repairing(),
            final(self).same_memory(old(self)),
    {
        self.stats.repair_max_level = 0;
        assert(self.queue() =~= old(self).queue());
        assert(self.visited() =~= old(self).visited());
    }

    /// Count a cell popped by the upward level pass.
    pub(crate) fn count_pop(&mut self)
        ensures
            final(self).counters() == old(self).counters().popped(),
            final(self).same_memory(old(self)),
    {
        self.stats.repair_pops = self.stats.repair_pops.wrapping_add(1);
        assert(self.queue() =~= old(self).queue());
        assert(self.visited() =~= old(self).visited());
    }

    /// Count a cell raised to `l`.
    pub(crate) fn count_raise(&mut self, l: u8, alive: bool)
        ensures
            final(self).counters() == old(self).counters().raised(l, alive),
            final(self).same_memory(old(self)),
    {
        if l != INF {
            if l > self.stats.repair_max_level {
                self.stats.repair_max_level = l;
            }
        } else if alive {
            self.stats.repair_capped = self.stats.repair_capped.wrapping_add(1);
        } else {
            self.stats.repair_dead = self.stats.repair_dead.wrapping_add(1);
        }
        assert(self.queue() =~= old(self).queue());
        assert(self.visited() =~= old(self).visited());
    }

    /// Count a component rebuilt.
    pub(crate) fn count_rebuild(&mut self, cells: usize, pops: usize, highest: u8)
        ensures
            final(self).counters() == old(self).counters().rebuilt(
                cells as int,
                pops as int,
                highest as int,
            ),
            final(self).same_memory(old(self)),
    {
        self.stats.bfs_repairs = self.stats.bfs_repairs.wrapping_add(1);
        self.stats.bfs_cells = self.stats.bfs_cells.wrapping_add(cells as u64);
        self.stats.repair_pops = self.stats.repair_pops.wrapping_add(pops as u64);
        self.stats.repair_max_level = highest;
        assert(self.queue() =~= old(self).queue());
        assert(self.visited() =~= old(self).visited());
    }

    /// Which repair strategy is in use.
    pub(crate) fn repairs_by_bfs(&self) -> (b: bool)
        ensures
            b == self.rebuilds(),
    {
        self.bfs_repair
    }

    /// Choose the repair strategy.
    pub(crate) fn choose_repair(&mut self, on: bool)
        requires
            old(self).wf(),
        ensures
            final(self).wf(),
            final(self).rebuilds() == on,
            final(self).counters() == old(self).counters(),
    {
        self.bfs_repair = on;
        assert(self.queue() =~= old(self).queue());
    }

    /// Read the counters.
    pub(crate) fn read_stats(&self) -> (s: Stats)
        ensures
            s == self.counters(),
    {
        self.stats
    }

    /// Set the counters to zero.
    pub(crate) fn clear_stats(&mut self)
        requires
            old(self).wf(),
        ensures
            final(self).wf(),
            final(self).counters() == Stats::zero(),
            final(self).rebuilds() == old(self).rebuilds(),
    {
        self.stats = Stats::default();
        assert(self.queue() =~= old(self).queue());
    }

    /// Fresh working memory, repairing by rebuilding.
    pub fn new() -> (s: Self)
        ensures
            s.wf(),
            s.counters() == Stats::zero(),
            s.rebuilds(),
    {
        let mut buckets: Vec<Vec<u16>> = Vec::new();
        let mut b: usize = 0;
        while b <= MAX_LEVEL as usize
            invariant
                b <= levels_kept(),
                buckets@.len() == b,
                forall|c: int| 0 <= c < b ==> (#[trigger] buckets@[c])@.len() == 0,
            decreases levels_kept() - b,
        {
            buckets.push(Vec::new());
            b = b + 1;
        }
        Scratch {
            stats: Stats::default(),
            bfs_repair: true,
            stamp: vec![0; HW],
            epoch: 0,
            stack: Vec::new(),
            line: Vec::new(),
            comp: Vec::new(),
            deps: Vec::new(),
            buckets,
            cursor: 0,
        }
    }

    /// The queue has one bucket per level.
    pub proof fn lemma_queue_len(&self)
        requires
            self.inv(),
        ensures
            self.queue().len() == levels_kept(),
    {
    }

    /// Start a fresh component walk; every cell reads as unvisited again.
    pub(crate) fn begin_walk(&mut self)
        requires
            old(self).inv(),
        ensures
            final(self).inv(),
            final(self).visited() == Set::<int>::empty(),
            final(self).queue() == old(self).queue(),
            final(self).cursor() == old(self).cursor(),
            final(self).same_account(old(self)),
    {
        if self.epoch == u32::MAX {
            // wrapped: the only time we pay for a real clear
            self.stamp.clear();
            self.stamp.resize(HW, 0);
            self.epoch = 1;
        } else {
            self.epoch = self.epoch + 1;
        }
        self.stack.clear();
        assert(self.visited() =~= Set::<int>::empty());
        assert(self.queue() =~= old(self).queue());
    }

    /// Mark `i` visited; says whether it was not before.
    pub(crate) fn visit(&mut self, i: usize) -> (fresh: bool)
        requires
            old(self).inv(),
            i < HW,
        ensures
            final(self).inv(),
            fresh == !old(self).visited().contains(i as int),
            final(self).visited() == old(self).visited().insert(i as int),
            final(self).queue() == old(self).queue(),
            final(self).cursor() == old(self).cursor(),
            final(self).same_account(old(self)),
    {
        let fresh = self.stamp[i] != self.epoch;
        if fresh {
            self.stamp.set(i, self.epoch);
        }
        assert(self.visited() =~= old(self).visited().insert(i as int));
        assert(self.queue() =~= old(self).queue());
        fresh
    }

    /// Point the queue at level 0.
    pub(crate) fn queue_reset(&mut self)
        requires
            old(self).inv(),
        ensures
            final(self).inv(),
            final(self).cursor() == 0,
            final(self).queue() == old(self).queue(),
            final(self).visited() == old(self).visited(),
            final(self).same_account(old(self)),
    {
        self.cursor = 0;
        assert(self.queue() =~= old(self).queue());
        assert(self.visited() =~= old(self).visited());
    }

    pub(crate) fn push(&mut self, cell: usize, level: u8)
        requires
            old(self).inv(),
            cell < HW,
            level <= MAX_LEVEL,
        ensures
            final(self).inv(),
            final(self).queue() == old(self).queue().update(
                level as int,
                old(self).queue()[level as int].push(cell as u16),
            ),
            final(self).cursor() == old(self).cursor(),
            final(self).visited() == old(self).visited(),
            final(self).same_account(old(self)),
    {
        self.buckets[level as usize].push(cell as u16);
        assert(self.queue() =~= old(self).queue().update(
            level as int,
            old(self).queue()[level as int].push(cell as u16),
        ));
        assert(self.visited() =~= old(self).visited());
    }

    /// Pop an entry of the lowest level held, returning the cell and the bucket it came from.
    pub(crate) fn pop(&mut self) -> (r: Option<(usize, u8)>)
        requires
            old(self).inv(),
        ensures
            final(self).inv(),
            final(self).visited() == old(self).visited(),
            final(self).same_account(old(self)),
            r is None <==> forall|b: int|
                old(self).cursor() <= b < levels_kept() ==> (#[trigger] old(self).queue()[b]).len() == 0,
            r is None ==> final(self).queue() == old(self).queue(),
            r matches Some((x, b)) ==> {
                &&& old(self).cursor() <= b <= MAX_LEVEL
                &&& final(self).cursor() == b
                &&& old(self).queue()[b as int].len() > 0
                &&& x == old(self).queue()[b as int].last()
                &&& final(self).queue() == old(self).queue().update(
                    b as int,
                    old(self).queue()[b as int].drop_last(),
                )
                &&& forall|c: int|
                    old(self).cursor() <= c < b ==> (#[trigger] old(self).queue()[c]).len() == 0
            },
    {
        while self.cursor < self.buckets.len()
            invariant
                self.inv(),
                self.queue() == old(self).queue(),
                self.visited() == old(self).visited(),
                self.same_account(old(self)),
                old(self).cursor() <= self.cursor <= levels_kept(),
                forall|c: int|
                    old(self).cursor() <= c < self.cursor ==> (#[trigger] old(self).queue()[c]).len() == 0,
            decreases levels_kept() - self.cursor,
        {
            let b: usize = self.cursor;
            assert(old(self).queue()[b as int] == self.buckets@[b as int]@);
            let top = self.buckets[b].pop();
            match top {
                Some(c) => {
                    assert(self.queue() =~= old(self).queue().update(
                        b as int,
                        old(self).queue()[b as int].drop_last(),
                    ));
                    assert(self.visited() =~= old(self).visited());
                    return Some((c as usize, b as u8));
                },
                None => {
                    assert(self.queue() =~= old(self).queue());
                    assert(self.visited() =~= old(self).visited());
                },
            }
            self.cursor = b + 1;
            assert(self.queue() =~= old(self).queue());
            assert(self.visited() =~= old(self).visited());
        }
        None
    }

    /// Take one of the cell buffers out, emptied. It holds nothing until it is given back; the
    /// others keep what they hold.
    pub(crate) fn lend(&mut self, which: Buffer) -> (v: Vec<u16>)
        requires
            old(self).inv(),
        ensures
            v@.len() == 0,
            final(self).held(which) == Seq::<u16>::empty(),
            forall|other: Buffer|
                other != which ==> #[trigger] final(self).held(other) == old(self).held(other),
            final(self).inv(),
            final(self).queue() == old(self).queue(),
            final(self).cursor() == old(self).cursor(),
            final(self).visited() == old(self).visited(),
            final(self).same_account(old(self)),
    {
        let mut v: Vec<u16> = Vec::new();
        match which {
            Buffer::Stack => std::mem::swap(&mut v, &mut self.stack),
            Buffer::Queue => std::mem::swap(&mut v, &mut self.line),
            Buffer::Comp => std::mem::swap(&mut v, &mut self.comp),
            Buffer::Deps => std::mem::swap(&mut v, &mut self.deps),
        }
        v.clear();
        assert(self.queue() =~= old(self).queue());
        assert(self.visited() =~= old(self).visited());
        v
    }

    /// Give a cell buffer back, for its memory, as it is. The others keep what they hold.
    pub(crate) fn give_back(&mut self, which: Buffer, v: Vec<u16>)
        requires
            old(self).inv(),
        ensures
            final(self).held(which) == v@,
            forall|other: Buffer|
                other != which ==> #[trigger] final(self).held(other) == old(self).held(other),
            final(self).inv(),
            final(self).queue() == old(self).queue(),
            final(self).cursor() == old(self).cursor(),
            final(self).visited() == old(self).visited(),
            final(self).same_account(old(self)),
    {
        match which {
            Buffer::Stack => self.stack = v,
            Buffer::Queue => self.line = v,
            Buffer::Comp => self.comp = v,
            Buffer::Deps => self.deps = v,
        }
        assert(self.queue() =~= old(self).queue());
        assert(self.visited() =~= old(self).visited());
    }
}

impl Default for Scratch {
    fn default() -> (s: Self)
        ensures
            s.wf(),
            s.counters() == Stats::zero(),
            s.rebuilds(),
    {
        Self::new()
    }
}

} // verus!
