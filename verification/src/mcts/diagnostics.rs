//! Counters the search keeps about itself. Never read by the search.
use vstd::prelude::*;

use crate::mcts::config::K;
use crate::mcts::descent::Descent;

verus! {

/// Depth buckets in the diagnostics; the last one is "this deep or deeper".
pub const DEPTH_BUCKETS: usize = 24;

/// Short cycles that are remembered one by one.
pub const SHORT_CYCLES_KEPT: usize = 64;

/// All counters wrap around rather than stop the search.
#[derive(Clone, Debug)]
pub struct Diagnostics {
    pub cycles: u64,
    pub steps: u64,
    pub descents: u64,
    /// Positions that earned a buffer entry.
    pub buffer_unique: u64,
    /// Rows the collection walk could not fill, summed over cycles.
    pub buffer_shortfall: u64,
    /// Cycles that ran the model on a part-empty buffer.
    pub cycles_short: u64,
    /// Which cycles those were, up to the first 64, plus the last one seen: together they
    /// separate a startup effect from one that recurs at every step.
    pub short_cycles: Vec<u64>,
    pub last_short_cycle: u64,
    /// Descents on short cycles that produced no buffer row because the position was already
    /// queued by another game. This is what makes a cycle come up short: the walk uses slots
    /// but they contribute nothing to the batch.
    pub short_duplicates: u64,
    /// Descents on short cycles in total, for the ratio.
    pub short_descents: u64,
    /// How many descents ended at each depth.
    pub depth_hist: Vec<u64>,
    /// Reach tests the sweep ran, and how many kept the id.
    pub reach_tested: u64,
    pub reach_kept: u64,
    /// For nodes whose id list was full at sweep time, how many ids survived the sweep.
    pub full_node_survivors: Vec<u64>,
    /// Last slot index the walk reached, summed over cycles, for the mean.
    pub walk_end_total: u64,
    /// Descents that landed on a position already queued by another game.
    pub duplicate_hits: u64,
    pub terminal_hits: u64,
    pub root_evals: u64,
    /// Descents abandoned because the node stack was full.
    pub exhausted: u64,
    pub max_descents_hit: u64,
    /// Highest slot index the collection walk reached.
    pub deepest_slot: usize,
    pub nodes_deleted: u64,
    /// Games played to the end, which is also the number of slots reseeded.
    pub games_finished: u64,
    /// How many nodes carry each `id_count`, over all sweeps.
    pub id_histogram: Vec<u64>,
    pub max_id_count: u8,
    /// Path lengths summed over descents, for the mean.
    pub depth_total: u64,
}

/// One more in bucket `at`.
pub open spec fn bumped(hist: Seq<u64>, at: int) -> Seq<u64> {
    hist.update(at, hist[at].wrapping_add(1))
}

fn bump(hist: &mut Vec<u64>, at: usize)
    requires
        at < old(hist)@.len(),
    ensures
        final(hist)@ == bumped(old(hist)@, at as int),
{
    let v: u64 = hist[at].wrapping_add(1);
    hist.set(at, v);
}

/// So many zero counts.
fn zeros(n: usize) -> (v: Vec<u64>)
    ensures
        v@ == Seq::new(n as nat, |i: int| 0u64),
{
    let mut v: Vec<u64> = Vec::new();
    let mut i: usize = 0;
    while i < n
        invariant
            i <= n,
            v@ == Seq::new(i as nat, |j: int| 0u64),
        decreases n - i,
    {
        v.push(0);
        i = i + 1;
        assert(v@ =~= Seq::new(i as nat, |j: int| 0u64));
    }
    v
}

/// The bucket of a depth.
pub open spec fn bucket(depth: u8) -> int {
    if depth < DEPTH_BUCKETS {
        depth as int
    } else {
        DEPTH_BUCKETS - 1
    }
}

/// The counters `d` are `d0` and a descent that reached `depth` and ended as `r`.
pub open spec fn descent_noted(d0: Diagnostics, d: Diagnostics, depth: u8, r: Descent) -> bool {
    &&& d.descents == d0.descents.wrapping_add(1)
    &&& d.depth_total == d0.depth_total.wrapping_add(depth as u64)
    &&& d.depth_hist@ == bumped(d0.depth_hist@, bucket(depth))
    &&& d.buffer_unique == (if r matches Descent::Entry { fresh, .. } && fresh {
        d0.buffer_unique.wrapping_add(1)
    } else {
        d0.buffer_unique
    })
    &&& d.duplicate_hits == (if r matches Descent::Entry { fresh, .. } && !fresh {
        d0.duplicate_hits.wrapping_add(1)
    } else {
        d0.duplicate_hits
    })
    &&& d.terminal_hits == (if r is NoEntry {
        d0.terminal_hits.wrapping_add(1)
    } else {
        d0.terminal_hits
    })
    &&& d.exhausted == (if r is Exhausted {
        d0.exhausted.wrapping_add(1)
    } else {
        d0.exhausted
    })
    &&& d == (Diagnostics {
        descents: d.descents,
        depth_total: d.depth_total,
        depth_hist: d.depth_hist,
        buffer_unique: d.buffer_unique,
        duplicate_hits: d.duplicate_hits,
        terminal_hits: d.terminal_hits,
        exhausted: d.exhausted,
        ..d0
    })
}

/// The counters `d` are `d0` and a collection walk that ended at slot `end` and left `short`
/// rows unfilled; `descents` and `duplicates` are the descents and the duplicate hits when it
/// began.
pub open spec fn walk_noted(
    d0: Diagnostics,
    d: Diagnostics,
    end: usize,
    short: usize,
    descents: u64,
    duplicates: u64,
) -> bool {
    &&& d.buffer_shortfall == d0.buffer_shortfall.wrapping_add(short as u64)
    &&& d.walk_end_total == d0.walk_end_total.wrapping_add(end as u64)
    &&& d.cycles_short == (if short > 0 {
        d0.cycles_short.wrapping_add(1)
    } else {
        d0.cycles_short
    })
    &&& d.last_short_cycle == (if short > 0 {
        d0.cycles
    } else {
        d0.last_short_cycle
    })
    &&& d.short_cycles@ == (if short > 0 && d0.short_cycles@.len()
        < SHORT_CYCLES_KEPT {
        d0.short_cycles@.push(d0.cycles)
    } else {
        d0.short_cycles@
    })
    &&& d.short_descents == (if short > 0 {
        d0.short_descents.wrapping_add(d0.descents.wrapping_sub(descents))
    } else {
        d0.short_descents
    })
    &&& d.short_duplicates == (if short > 0 {
        d0.short_duplicates.wrapping_add(
            d0.duplicate_hits.wrapping_sub(duplicates),
        )
    } else {
        d0.short_duplicates
    })
    &&& d == (Diagnostics {
        buffer_shortfall: d.buffer_shortfall,
        walk_end_total: d.walk_end_total,
        cycles_short: d.cycles_short,
        last_short_cycle: d.last_short_cycle,
        short_cycles: d.short_cycles,
        short_descents: d.short_descents,
        short_duplicates: d.short_duplicates,
        ..d0
    })
}

impl Diagnostics {
    /// Nothing counted yet.
    pub open spec fn blank(&self) -> bool {
        &&& self.cycles == 0
        &&& self.steps == 0
        &&& self.descents == 0
        &&& self.buffer_unique == 0
        &&& self.buffer_shortfall == 0
        &&& self.cycles_short == 0
        &&& self.short_cycles@.len() == 0
        &&& self.last_short_cycle == 0
        &&& self.short_duplicates == 0
        &&& self.short_descents == 0
        &&& self.depth_hist@ == Seq::new(DEPTH_BUCKETS as nat, |i: int| 0u64)
        &&& self.reach_tested == 0
        &&& self.reach_kept == 0
        &&& self.full_node_survivors@ == Seq::new((K + 1) as nat, |i: int| 0u64)
        &&& self.walk_end_total == 0
        &&& self.duplicate_hits == 0
        &&& self.terminal_hits == 0
        &&& self.root_evals == 0
        &&& self.exhausted == 0
        &&& self.max_descents_hit == 0
        &&& self.deepest_slot == 0
        &&& self.nodes_deleted == 0
        &&& self.games_finished == 0
        &&& self.id_histogram@ == Seq::new((K + 1) as nat, |i: int| 0u64)
        &&& self.max_id_count == 0
        &&& self.depth_total == 0
    }

    pub open spec fn wf(&self) -> bool {
        &&& self.depth_hist@.len() == DEPTH_BUCKETS
        &&& self.full_node_survivors@.len() == K + 1
        &&& self.id_histogram@.len() == K + 1
        &&& self.short_cycles@.len() <= SHORT_CYCLES_KEPT
        &&& self.balanced()
    }

    /// Every descent ended in exactly one of the four ways there are.
    pub open spec fn balanced(&self) -> bool {
        self.descents == self.buffer_unique.wrapping_add(self.duplicate_hits).wrapping_add(
            self.terminal_hits,
        ).wrapping_add(self.exhausted)
    }

    /// Everything at zero.
    pub fn new() -> (d: Self)
        ensures
            d.wf(),
            d.blank(),
    {
        Diagnostics {
            cycles: 0,
            steps: 0,
            descents: 0,
            buffer_unique: 0,
            buffer_shortfall: 0,
            cycles_short: 0,
            short_cycles: Vec::new(),
            last_short_cycle: 0,
            short_duplicates: 0,
            short_descents: 0,
            depth_hist: zeros(DEPTH_BUCKETS),
            reach_tested: 0,
            reach_kept: 0,
            full_node_survivors: zeros(K + 1),
            walk_end_total: 0,
            duplicate_hits: 0,
            terminal_hits: 0,
            root_evals: 0,
            exhausted: 0,
            max_descents_hit: 0,
            deepest_slot: 0,
            nodes_deleted: 0,
            games_finished: 0,
            id_histogram: zeros(K + 1),
            max_id_count: 0,
            depth_total: 0,
        }
    }

    /// Count a descent that reached `depth` and ended as `r`.
    pub fn note_descent(&mut self, depth: u8, r: Descent)
        requires
            old(self).wf(),
        ensures
            final(self).wf(),
            descent_noted(*old(self), *final(self), depth, r),
    {
        self.descents = self.descents.wrapping_add(1);
        self.depth_total = self.depth_total.wrapping_add(depth as u64);
        let at: usize = if (depth as usize) < DEPTH_BUCKETS {
            depth as usize
        } else {
            DEPTH_BUCKETS - 1
        };
        bump(&mut self.depth_hist, at);
        match r {
            Descent::Entry { fresh, .. } => {
                if fresh {
                    self.buffer_unique = self.buffer_unique.wrapping_add(1);
                } else {
                    self.duplicate_hits = self.duplicate_hits.wrapping_add(1);
                }
            },
            Descent::NoEntry => {
                self.terminal_hits = self.terminal_hits.wrapping_add(1);
            },
            Descent::Exhausted => {
                self.exhausted = self.exhausted.wrapping_add(1);
            },
        }
    }

    /// Count a collection walk that ended at slot `end` and left `short` rows unfilled;
    /// `before` are the descents and the duplicate hits when it began.
    pub fn note_walk(&mut self, end: usize, short: usize, before: [u64; 2])
        requires
            old(self).wf(),
        ensures
            final(self).wf(),
            walk_noted(*old(self), *final(self), end, short, before@[0], before@[1]),
    {
        self.buffer_shortfall = self.buffer_shortfall.wrapping_add(short as u64);
        if short > 0 {
            let descents: u64 = self.descents.wrapping_sub(before[0]);
            let duplicates: u64 = self.duplicate_hits.wrapping_sub(before[1]);
            self.short_descents = self.short_descents.wrapping_add(descents);
            self.short_duplicates = self.short_duplicates.wrapping_add(duplicates);
            self.cycles_short = self.cycles_short.wrapping_add(1);
            if self.short_cycles.len() < SHORT_CYCLES_KEPT {
                self.short_cycles.push(self.cycles);
            }
            self.last_short_cycle = self.cycles;
        }
        self.walk_end_total = self.walk_end_total.wrapping_add(end as u64);
    }

    /// Count a reach test of the sweep.
    pub fn note_reach(&mut self, keep: bool)
        requires
            old(self).wf(),
        ensures
            final(self).wf(),
            final(self).reach_tested == old(self).reach_tested.wrapping_add(1),
            final(self).reach_kept == (if keep {
                old(self).reach_kept.wrapping_add(1)
            } else {
                old(self).reach_kept
            }),
            *final(self) == (Diagnostics {
                reach_tested: final(self).reach_tested,
                reach_kept: final(self).reach_kept,
                ..*old(self)
            }),
    {
        self.reach_tested = self.reach_tested.wrapping_add(1);
        if keep {
            self.reach_kept = self.reach_kept.wrapping_add(1);
        }
    }

    /// Count a node that the sweep found with `count` ids and left with `survivors`.
    ///
    /// The histogram takes the count before pruning: the point is to say whether an id list
    /// is long enough for the pressure the search actually puts on a node, and after the
    /// sweep that pressure is already gone. The survivors of a full list tell how close the
    /// node came to being deleted.
    pub fn note_swept(&mut self, count: usize, survivors: usize)
        requires
            old(self).wf(),
            count <= K,
            survivors <= K,
        ensures
            final(self).wf(),
            final(self).id_histogram@ == bumped(old(self).id_histogram@, count as int),
            final(self).max_id_count == (if old(self).max_id_count < count {
                count as u8
            } else {
                old(self).max_id_count
            }),
            final(self).full_node_survivors@ == (if count == K {
                bumped(old(self).full_node_survivors@, survivors as int)
            } else {
                old(self).full_node_survivors@
            }),
            final(self).nodes_deleted == (if survivors == 0 {
                old(self).nodes_deleted.wrapping_add(1)
            } else {
                old(self).nodes_deleted
            }),
            *final(self) == (Diagnostics {
                id_histogram: final(self).id_histogram,
                max_id_count: final(self).max_id_count,
                full_node_survivors: final(self).full_node_survivors,
                nodes_deleted: final(self).nodes_deleted,
                ..*old(self)
            }),
    {
        bump(&mut self.id_histogram, count);
        if (self.max_id_count as usize) < count {
            self.max_id_count = count as u8;
        }
        if count == K {
            bump(&mut self.full_node_survivors, survivors);
        }
        if survivors == 0 {
            self.nodes_deleted = self.nodes_deleted.wrapping_add(1);
        }
    }
}

} // verus!
