//! The search loop: one cycle is one model call.
//!
//! A cycle collects positions from as many games as it takes to fill the evaluation buffer,
//! has the model score them, writes the results back, backs up every game that was waiting,
//! and steps the games that have done their share of simulations. Games are never advanced
//! individually; they advance in a batch, which is what keeps the model call wide.
//!
//! The model itself is the caller's: [`Search::prepare_evaluation`] is the half of a cycle
//! before its call, [`Search::complete_evaluation`] the half after it.
use vstd::prelude::*;

use std::collections::HashMap;

use crate::mcts::arena::{fits, pending, Arena};
use crate::mcts::buffer::{Buffer, Target};
use crate::mcts::collect::{
    ask_root, asked, asks, awaits, claims_kept, group_key, group_ok, grown, in_group, keyed,
    lemma_asks_same, lemma_awaits, lemma_grown_on, lemma_root_rows, lemma_through, node_row,
    node_rows, nothing_asked, root_row, root_rows, run_slot, runs, seated, slot_kept, through,
    walk_keeps, Asked,
};
use crate::mcts::config::Config;
use crate::mcts::descent::{
    arena_ok, arena_same_but_stats, clash, lemma_clash_kept, lemma_path_live, node_ok, root_ok,
    same_but_stats,
};
use crate::mcts::diagnostics::{walk_noted, Diagnostics};
use crate::mcts::record::{history_done, history_ok, StepRecord};
use crate::mcts::scatter::{
    answered_before, arena_answered, back_up_waiters, game_once, lemma_answered, node_answer,
    node_answered, once, path_live, root_row_of, rows_once,
    rows_primed, scatter, slot_answered, slot_backed, waiters_backed,
};
use crate::mcts::slot::{Slot, ROOT};
use crate::mcts::step::{
    adopt_roots, adopted, adopted_at, ends_below, ends_now, enders, fresh, going_on, kept_whole,
    lemma_history_done, lemma_over, lemma_record_ok, min_nat, moves_drawn, of_game_over, over_below,
    overs, play_ready, played_at, ready_below, reseed, reseeded_at, roots_adopted, seed_slot,
    seeded_at, slots_seeded, stepped_at, steppers, steps_now,
};
use crate::mcts::sweep::{
    claimed, claims_below, kept, lemma_lists_same, lemma_sweep_leaves, lemma_tally_same,
    nodes_tally, pruned, stale, sweep, swept, swept_at, tally_of,
};
use crate::mcts::variant::Variant;
use crate::reach::reachable;
use crate::rng::{seeded, Rng};
use crate::scratch::Scratch;

verus! {

/// Games are numbered by `u16`s.
pub const MAX_GAMES: usize = 65536;

pub struct Search<V: Variant> {
    pub cfg: Config,
    pub params: V::Params,
    pub arena: Arena<V::Stats>,
    pub slots: Vec<Slot<V::Stats, V::Prob>>,
    pub diag: Diagnostics,
    pub buffer: Buffer,
    /// The moves of each game so far.
    pub histories: Vec<Vec<StepRecord<V::Target>>>,
    /// The moves of the games that have ended, until they are taken.
    pub completed: Vec<Vec<StepRecord<V::Target>>>,
    pub rng: Rng,
    pub scratch: Scratch,
}

impl<V: Variant> Search<V> {
    /// What always holds: every slot has a game in play, nodes hold the positions their keys
    /// name, are claimed and stay within the configured number, and histories replay to the
    /// roots.
    pub open spec fn wf(&self) -> bool {
        &&& self.slots@.len() == self.cfg.g
        &&& self.cfg.g <= MAX_GAMES
        &&& forall|i: int| 0 <= i < self.slots@.len() ==> seated(#[trigger] self.slots@[i], self.cfg)
        &&& arena_ok(self.arena)
        &&& self.arena.capacity == self.cfg.node_capacity
        &&& claimed(self.arena, self.cfg.g as int)
        &&& self.buffer.wf()
        &&& self.buffer.positions@.len() == self.cfg.b
        &&& self.histories@.len() == self.cfg.g
        &&& forall|i: int|
            0 <= i < self.slots@.len() ==> history_ok(
                (#[trigger] self.histories@[i])@,
                i,
                self.slots@[i].root.game,
            )
        &&& forall|j: int|
            0 <= j < self.completed@.len() ==> history_done((#[trigger] self.completed@[j])@)
        &&& self.diag.wf()
        &&& self.scratch.wf()
    }

    /// What holds between cycles: no game waits and no node awaits its evaluation.
    pub open spec fn settled(&self) -> bool {
        &&& forall|i: int|
            0 <= i < self.slots@.len() ==> (#[trigger] self.slots@[i]).waiting_on is None
                && self.slots@[i].path.steps@.len() == 0
        &&& forall|i: int| #[trigger]
            self.arena.is_live(i) ==> !pending(self.arena.nodes@[i].flags)
    }

    /// What holds while the model is asked: the rows of the buffer are for exactly the nodes
    /// and root states that await their evaluation, one row each, and every game that waits on
    /// a node waits on one with a row.
    pub open spec fn asking(&self) -> bool {
        &&& node_rows(self.arena, self.buffer)
        &&& root_rows(self.slots@, self.buffer)
        &&& forall|i: int|
            0 <= i < self.slots@.len() ==> awaits(
                #[trigger] self.slots@[i],
                self.arena,
                self.buffer.targets@,
                self.cfg,
            )
    }

    /// The settings are those of another search, and the games are where they are there.
    pub open spec fn same_games(&self, other: &Self) -> bool {
        &&& self.cfg == other.cfg
        &&& self.params == other.params
        &&& self.slots@.len() == other.slots@.len()
        &&& forall|i: int|
            0 <= i < other.slots@.len() ==> {
                &&& (#[trigger] self.slots@[i]).root.game == other.slots@[i].root.game
                &&& self.slots@[i].root.key == other.slots@[i].root.key
            }
        &&& self.histories == other.histories
        &&& self.completed == other.completed
    }

    /// Forget the descents of the last cycle.
    fn reset_descents(&mut self)
        requires
            old(self).wf(),
            old(self).settled(),
        ensures
            final(self).wf(),
            final(self).settled(),
            *final(self) == (Search { slots: final(self).slots, ..*old(self) }),
            final(self).slots@.len() == old(self).slots@.len(),
            forall|i: int|
                0 <= i < old(self).slots@.len() ==> #[trigger] final(self).slots@[i] == (Slot {
                    descents: 0,
                    ..old(self).slots@[i]
                }),
    {
        let ghost before = *self;
        let mut i: usize = 0;
        while i < self.slots.len()
            invariant
                i <= self.slots@.len(),
                before == *old(self),
                *self == (Search { slots: self.slots, ..before }),
                self.slots@.len() == before.slots@.len(),
                forall|j: int|
                    0 <= j < i ==> #[trigger] self.slots@[j] == (Slot {
                        descents: 0,
                        ..before.slots@[j]
                    }),
                forall|j: int|
                    i <= j < self.slots@.len() ==> #[trigger] self.slots@[j] == before.slots@[j],
            decreases self.slots@.len() - i,
        {
            self.slots[i].descents = 0;
            i = i + 1;
        }
        assert forall|j: int| 0 <= j < self.slots@.len() implies seated(
            #[trigger] self.slots@[j],
            self.cfg,
        ) by {
            assert(seated(before.slots@[j], self.cfg));
        }
        assert forall|j: int| 0 <= j < self.slots@.len() implies history_ok(
            (#[trigger] self.histories@[j])@,
            j,
            self.slots@[j].root.game,
        ) by {
            assert(history_ok(before.histories@[j]@, j, before.slots@[j].root.game));
        }
        assert forall|j: int| 0 <= j < self.slots@.len() implies (
        #[trigger] self.slots@[j]).waiting_on is None && self.slots@[j].path.steps@.len() == 0 by {
            assert(before.slots@[j].waiting_on is None);
        }
    }
}

/// The state of a collection walk that began at `s0` and has passed the first `i` slots.
#[verifier::opaque]
spec fn walking<V: Variant>(s0: Search<V>, s: Search<V>, roots: Map<u64, usize>, i: int) -> bool {
    &&& s.wf()
    &&& s.asking()
    &&& s.same_games(&s0)
    &&& keyed(s.slots@, s.buffer.groups@, roots)
    &&& s.buffer.groups@.len() <= s.buffer.targets@.len()
    &&& forall|k: int, m: int|
        #![trigger s.buffer.groups@[k]@[m]]
        0 <= k < s.buffer.groups@.len() && 0 <= m < s.buffer.groups@[k]@.len()
            ==> s.buffer.groups@[k]@[m] < i
    &&& forall|j: int| 0 <= j < s0.slots@.len() ==> slot_kept(s0.slots@[j], #[trigger] s.slots@[j])
    &&& forall|j: int| i <= j < s0.slots@.len() ==> #[trigger] s.slots@[j] == s0.slots@[j]
    &&& grown(s0.arena, s.arena)
    &&& forall|j: int|
        0 <= j < i ==> visited(s0.slots@[j], #[trigger] s.slots@[j], s.arena, s.buffer, s.cfg, j)
    &&& none_descends(s0, i) ==> s.arena == s0.arena
    &&& no_clash(s.slots@, s.arena) && claims_reach(s0.slots@, s0.arena) ==> claims_reach(
        s.slots@,
        s.arena,
    )
    &&& s.diag.root_evals == s0.diag.root_evals.wrapping_add(s.buffer.groups@.len() as u64)
    &&& walk_keeps(Diagnostics { root_evals: s.diag.root_evals, ..s0.diag }, s.diag)
}

/// The roots are those the walk began with, and the groups are in order.
proof fn lemma_walk_keys<V: Variant>(
    s0: Search<V>,
    s: Search<V>,
    roots: Map<u64, usize>,
    i: int,
)
    requires
        walking(s0, s, roots, i),
    ensures
        s.slots@.len() == s0.slots@.len(),
        forall|m: int|
            0 <= m < s0.slots@.len() ==> (#[trigger] s0.slots@[m]).root.key == s.slots@[m].root.key,
        root_rows(s.slots@, s.buffer),
{
    reveal(walking);
    assert forall|m: int| 0 <= m < s0.slots@.len() implies (#[trigger] s0.slots@[m]).root.key
        == s.slots@[m].root.key by {
        assert(slot_kept(s0.slots@[m], s.slots@[m]));
    }
}

/// Every node is kept only by games that can still reach it.
pub open spec fn claims_reach<S, P>(slots: Seq<Slot<S, P>>, a: Arena<S>) -> bool {
    forall|i: int, id: u16|
        #![trigger a.is_live(i), a.nodes@[i].listed().contains(id)]
        a.is_live(i) && a.nodes@[i].listed().contains(id) ==> reachable(
            slots[id as int].root.game.cells@,
            a.nodes@[i].game.cells@,
        )
}

/// No move from a root or a node leads, by its key, to a node that holds another position.
pub open spec fn no_clash<S, P>(slots: Seq<Slot<S, P>>, a: Arena<S>) -> bool {
    forall|j: int| 0 <= j < slots.len() ==> !clash((#[trigger] slots[j]).root, a)
}

/// None of the first `i` games is to descend: none could be collected but those whose roots
/// are not evaluated.
pub open spec fn none_descends<V: Variant>(s: Search<V>, i: int) -> bool {
    forall|j: int|
        0 <= j < i ==> !(#[trigger] s.slots@[j]).is_collectable(s.cfg) || s.slots@[j].root.pending
}

/// What the walk does for a game that could be collected: one whose root is not evaluated
/// waits on its root state, and any other descends until it is through. Any game that could
/// not be collected is left alone.
pub open spec fn visited<S, P: Copy>(
    before: Slot<S, P>,
    after: Slot<S, P>,
    a: Arena<S>,
    b: Buffer,
    cfg: Config,
    j: int,
) -> bool {
    &&& !before.is_collectable(cfg) ==> after == before
    &&& before.is_collectable(cfg) && before.root.pending ==> after == before && in_group(
        b.groups@,
        j,
    )
    &&& before.is_collectable(cfg) && !before.root.pending ==> through(after, a, cfg)
        && after.sim_count >= before.sim_count
}

/// What the walk did for a game stands while it goes on.
proof fn lemma_visited<S, P: Copy>(
    before: Slot<S, P>,
    after: Slot<S, P>,
    a: Arena<S>,
    b: Buffer,
    a2: Arena<S>,
    b2: Buffer,
    cfg: Config,
    j: int,
)
    requires
        visited(before, after, a, b, cfg, j),
        grown(a, a2),
        a2.live <= a2.capacity,
        in_group(b.groups@, j) ==> in_group(b2.groups@, j),
    ensures
        visited(before, after, a2, b2, cfg, j),
{
    if before.is_collectable(cfg) && !before.root.pending {
        lemma_through(after, a, a2, cfg);
    }
}

/// What the walk does at game `j`, while there are rows left: one that descends makes its
/// descents between `stages[j]` and `stages[j + 1]`, and any other leaves the nodes, the
/// statistics and the generator alone. What it needs evaluated is asked for.
pub open spec fn toured_at<V: Variant>(
    before: Seq<Slot<V::Stats, V::Prob>>,
    cfg: Config,
    params: V::Params,
    after: Seq<Slot<V::Stats, V::Prob>>,
    stages: Seq<(Arena<V::Stats>, Rng, Diagnostics, Asked)>,
    j: int,
) -> bool {
    let d = walk_reached(stages[j].2, j);
    let (a1, r1, d1, q1) = stages[j + 1];
    &&& stages[j].3.targets.len() < cfg.b
    &&& asks(before, cfg, after[j], stages[j].3, q1, j)
    &&& if before[j].is_collectable(cfg) && !before[j].root.pending {
        runs::<V>(
            j as u16,
            cfg,
            params,
            (before[j], stages[j].0, stages[j].1, d),
            (after[j], a1, r1, d1),
        )
    } else {
        &&& after[j] == before[j]
        &&& a1 == stages[j].0
        &&& r1 == stages[j].1
        &&& d1 == roots_counted(d, stages[j].3, q1)
    }
}

/// The counters with the root states that are newly asked for.
pub open spec fn roots_counted(d: Diagnostics, q0: Asked, q1: Asked) -> Diagnostics {
    Diagnostics {
        root_evals: d.root_evals.wrapping_add((q1.groups.len() - q0.groups.len()) as u64),
        ..d
    }
}

/// The counters once the walk has come to slot `j`.
pub open spec fn walk_reached(d: Diagnostics, j: int) -> Diagnostics {
    Diagnostics {
        deepest_slot: if d.deepest_slot < j {
            j as usize
        } else {
            d.deepest_slot
        },
        ..d
    }
}

/// The walk over the first `end` games, by way of `stages`: the nodes, the generator, the
/// counters and what is asked for before each game.
#[verifier::opaque]
pub open spec fn toured_by<V: Variant>(
    before: Seq<Slot<V::Stats, V::Prob>>,
    cfg: Config,
    params: V::Params,
    after: Seq<Slot<V::Stats, V::Prob>>,
    from: (Arena<V::Stats>, Rng, Diagnostics, Asked),
    to: (Arena<V::Stats>, Rng, Diagnostics, Asked),
    end: int,
    stages: Seq<(Arena<V::Stats>, Rng, Diagnostics, Asked)>,
) -> bool {
    &&& stages.len() == end + 1
    &&& stages[0] == from
    &&& stages[end] == to
    &&& forall|j: int|
        0 <= j < end ==> #[trigger] toured_at::<V>(before, cfg, params, after, stages, j)
}

/// The slots, with no descents yet.
pub open spec fn rested<S, P>(slots: Seq<Slot<S, P>>) -> Seq<Slot<S, P>> {
    slots.map_values(|s: Slot<S, P>| Slot { descents: 0, ..s })
}

/// The walk over the first `end` games took the slots, the nodes, the generator and the
/// counters from `s0` to `s`, game after game, and filled the rows; then the walk itself was
/// counted.
pub open spec fn toured<V: Variant>(
    s0: Search<V>,
    s: Search<V>,
    end: int,
    stages: Seq<(Arena<V::Stats>, Rng, Diagnostics, Asked)>,
) -> bool {
    let d = stages[end].2;
    &&& toured_by::<V>(
        rested(s0.slots@),
        s0.cfg,
        s0.params,
        s.slots@,
        (s0.arena, s0.rng, s0.diag, nothing_asked()),
        (s.arena, s.rng, d, asked(s.buffer)),
        end,
        stages,
    )
    &&& walk_noted(
        d,
        s.diag,
        last_slot(end),
        (s.cfg.b - s.buffer.targets@.len()) as usize,
        s0.diag.descents,
        s0.diag.duplicate_hits,
    )
}

/// The last of the first `end` slots, or slot 0.
pub open spec fn last_slot(end: int) -> usize {
    if end > 0 {
        (end - 1) as usize
    } else {
        0
    }
}

/// The walk over the first `end` games led from `s0` to `s`.
pub open spec fn tours<V: Variant>(s0: Search<V>, s: Search<V>, end: int) -> bool {
    exists|stages: Seq<(Arena<V::Stats>, Rng, Diagnostics, Asked)>| #[trigger]
        toured(s0, s, end, stages)
}

/// The walk goes on by one game.
proof fn lemma_toured_on<V: Variant>(
    before: Seq<Slot<V::Stats, V::Prob>>,
    s1: Search<V>,
    s2: Search<V>,
    from: (Arena<V::Stats>, Rng, Diagnostics, Asked),
    i: int,
    stages: Seq<(Arena<V::Stats>, Rng, Diagnostics, Asked)>,
)
    requires
        0 <= i < s1.slots@.len(),
        toured_by::<V>(
            before,
            s1.cfg,
            s1.params,
            s1.slots@,
            from,
            (s1.arena, s1.rng, s1.diag, asked(s1.buffer)),
            i,
            stages,
        ),
        before.len() == s1.slots@.len(),
        s1.slots@[i] == before[i],
        forall|m: int|
            0 <= m < before.len() ==> (#[trigger] before[m]).root.key == s1.slots@[m].root.key,
        root_rows(s1.slots@, s1.buffer),
        game_toured(s1, s2, i),
    ensures
        s2.cfg == s1.cfg,
        s2.params == s1.params,
        toured_by::<V>(
            before,
            s2.cfg,
            s2.params,
            s2.slots@,
            from,
            (s2.arena, s2.rng, s2.diag, asked(s2.buffer)),
            i + 1,
            stages.push((s2.arena, s2.rng, s2.diag, asked(s2.buffer))),
        ),
{
    reveal(game_toured);
    reveal(toured_by);
    let more = stages.push((s2.arena, s2.rng, s2.diag, asked(s2.buffer)));
    assert forall|k: int| 0 <= k < asked(s1.buffer).groups.len() implies (
    #[trigger] asked(s1.buffer).groups[k])[0] < before.len() by {
        assert(group_ok(s1.slots@, s1.buffer.groups@[k]@));
    }
    lemma_asks_same(
        s1.slots@,
        before,
        s1.cfg,
        s2.slots@[i],
        asked(s1.buffer),
        asked(s2.buffer),
        i,
    );
    assert forall|j: int| 0 <= j < i + 1 implies #[trigger] toured_at::<V>(
        before,
        s2.cfg,
        s2.params,
        s2.slots@,
        more,
        j,
    ) by {
        if j < i {
            assert(toured_at::<V>(before, s1.cfg, s1.params, s1.slots@, stages, j));
            assert(s2.slots@[j] == s1.slots@[j]);
        }
    }
}

/// The visit of game `i` led from `s1` to `s2`.
#[verifier::opaque]
pub open spec fn game_toured<V: Variant>(s1: Search<V>, s2: Search<V>, i: int) -> bool {
    let before = s1.slots@[i];
    let after = s2.slots@[i];
    &&& s2.cfg == s1.cfg
    &&& s2.params == s1.params
    &&& s2.slots@ == s1.slots@.update(i, after)
    &&& s1.buffer.targets@.len() < s1.cfg.b
    &&& asks(s1.slots@, s1.cfg, after, asked(s1.buffer), asked(s2.buffer), i)
    &&& if before.is_collectable(s1.cfg) && !before.root.pending {
        runs::<V>(
            i as u16,
            s1.cfg,
            s1.params,
            (before, s1.arena, s1.rng, walk_reached(s1.diag, i)),
            (after, s2.arena, s2.rng, s2.diag),
        )
    } else {
        &&& after == before
        &&& s2.arena == s1.arena
        &&& s2.rng == s1.rng
        &&& s2.diag == roots_counted(
            walk_reached(s1.diag, i),
            asked(s1.buffer),
            asked(s2.buffer),
        )
    }
}

/// The visit of a game, counted from before the walk came to it.
proof fn lemma_came_to<V: Variant>(s0: Search<V>, s1: Search<V>, s2: Search<V>, i: int)
    requires
        s1 == (Search { diag: walk_reached(s0.diag, i), ..s0 }),
        game_toured(s1, s2, i),
        0 <= i < s0.slots@.len() <= MAX_GAMES,
    ensures
        game_toured(s0, s2, i),
{
    reveal(game_toured);
    assert(walk_reached(s1.diag, i) == walk_reached(s0.diag, i));
}

/// A visit without descents.
proof fn lemma_untouched<V: Variant>(s1: Search<V>, s2: Search<V>, i: int)
    requires
        0 <= i < s1.slots@.len(),
        s2.cfg == s1.cfg,
        s2.params == s1.params,
        s2.slots == s1.slots,
        s2.arena == s1.arena,
        s2.rng == s1.rng,
        s1.diag.deepest_slot >= i,
        s1.slots@[i].is_collectable(s1.cfg) ==> s1.slots@[i].root.pending,
        s1.buffer.targets@.len() < s1.cfg.b,
        asks(s1.slots@, s1.cfg, s2.slots@[i], asked(s1.buffer), asked(s2.buffer), i),
        s2.diag == roots_counted(s1.diag, asked(s1.buffer), asked(s2.buffer)),
    ensures
        game_toured(s1, s2, i),
{
    reveal(game_toured);
    assert(walk_reached(s1.diag, i) == s1.diag);
    assert(s2.slots@ =~= s1.slots@.update(i, s2.slots@[i]));
}

impl<V: Variant> Search<V> {
    /// Visit the game of slot `i` whose root is not evaluated.
    fn visit_root(&mut self, i: usize, roots: &mut HashMap<u64, usize>, Ghost(s0): Ghost<Search<V>>)
        requires
            i < old(self).slots@.len(),
            walking(s0, *old(self), old(roots)@, i as int),
            old(self).slots@[i as int].is_collectable(old(self).cfg),
            old(self).slots@[i as int].root.pending,
            old(self).buffer.targets@.len() < old(self).buffer.positions@.len(),
            old(self).diag.deepest_slot >= i,
        ensures
            walking(s0, *final(self), final(roots)@, i as int + 1),
            game_toured(*old(self), *final(self), i as int),
    {
        proof {
            reveal(walking);
        }
        let ghost s1 = *self;
        ask_root(
            i as u16,
            &self.slots,
            &self.arena,
            &mut self.buffer,
            roots,
            &mut self.diag,
        );
        proof {
            let s2 = *self;
            lemma_untouched(s1, s2, i as int);
            assert(none_descends(s0, i as int + 1) ==> none_descends(s0, i as int));
            assert forall|j: int| 0 <= j < s2.slots@.len() implies awaits(
                #[trigger] s2.slots@[j],
                s2.arena,
                s2.buffer.targets@,
                s2.cfg,
            ) by {
                assert(awaits(s1.slots@[j], s1.arena, s1.buffer.targets@, s1.cfg));
                lemma_awaits(
                    s1.slots@[j],
                    s1.arena,
                    s2.arena,
                    s1.buffer.targets@,
                    s2.buffer.targets@,
                    s1.cfg,
                );
            }
            assert forall|j: int| 0 <= j < i + 1 implies visited(
                s0.slots@[j],
                #[trigger] s2.slots@[j],
                s2.arena,
                s2.buffer,
                s2.cfg,
                j,
            ) by {
                if j < i {
                    lemma_visited(
                        s0.slots@[j],
                        s1.slots@[j],
                        s1.arena,
                        s1.buffer,
                        s2.arena,
                        s2.buffer,
                        s1.cfg,
                        j,
                    );
                }
            }
        }
    }

    /// Visit the game of slot `i` whose root is evaluated.
    fn visit_game(&mut self, i: usize, Ghost(roots): Ghost<Map<u64, usize>>, Ghost(s0): Ghost<Search<V>>)
        requires
            i < old(self).slots@.len(),
            walking(s0, *old(self), roots, i as int),
            old(self).slots@[i as int].is_collectable(old(self).cfg),
            !old(self).slots@[i as int].root.pending,
            old(self).slots@[i as int].descents == 0,
            old(self).buffer.targets@.len() < old(self).buffer.positions@.len(),
            old(self).diag.deepest_slot >= i,
        ensures
            walking(s0, *final(self), roots, i as int + 1),
            game_toured(*old(self), *final(self), i as int),
    {
        let ghost s1 = *self;
        proof {
            lemma_walk_at(s0, s1, roots, i as int);
        }
        assert(seated(s1.slots@[i as int], s1.cfg));
        assert(awaits(s1.slots@[i as int], s1.arena, s1.buffer.targets@, s1.cfg));
        run_slot::<V>(
            i as u16,
            &mut self.slots[i],
            &mut self.arena,
            &mut self.buffer,
            &mut self.diag,
            &self.cfg,
            &self.params,
            &mut self.rng,
            &mut self.scratch,
            Ghost(self.cfg.g as int),
        );
        proof {
            assert(slot_run(s1, *self, i as int)) by {
                reveal(slot_run);
            }
            lemma_run_asks(s1, *self, i as int);
            assert(game_toured(s1, *self, i as int)) by {
                reveal(game_toured);
                assert(walk_reached(s1.diag, i as int) == s1.diag);
            }
            lemma_visit_game(s0, s1, *self, roots, i as int);
        }
    }
}

/// The descents of the game of slot `i` led from `s1` to `s2`.
#[verifier::opaque]
spec fn slot_run<V: Variant>(s1: Search<V>, s2: Search<V>, i: int) -> bool {
    &&& 0 <= i < s1.slots@.len()
    &&& s2.cfg == s1.cfg
    &&& s2.params == s1.params
    &&& s2.histories == s1.histories
    &&& s2.completed == s1.completed
    &&& s2.slots@ == s1.slots@.update(i, s2.slots@[i])
    &&& seated(s2.slots@[i], s1.cfg)
    &&& slot_kept(s1.slots@[i], s2.slots@[i])
    &&& awaits(s2.slots@[i], s2.arena, s2.buffer.targets@, s1.cfg)
    &&& s2.slots@[i].sim_count >= s1.slots@[i].sim_count
    &&& arena_ok(s2.arena)
    &&& claimed(s2.arena, s1.cfg.g as int)
    &&& grown(s1.arena, s2.arena)
    &&& s2.buffer.wf()
    &&& s2.buffer.positions@.len() == s1.buffer.positions@.len()
    &&& s2.buffer.groups == s1.buffer.groups
    &&& node_rows(s2.arena, s2.buffer)
    &&& s2.buffer.targets@ == s1.buffer.targets@ || (s2.slots@[i].waiting_on matches Some(n)
        && s2.buffer.targets@ == s1.buffer.targets@.push(Target::Node(n)))
    &&& forall|r: int|
        0 <= r < s1.buffer.targets@.len() ==> #[trigger] s2.buffer.positions@[r]
            == s1.buffer.positions@[r] && s2.buffer.scores@[r] == s1.buffer.scores@[r]
    &&& through(s2.slots@[i], s2.arena, s1.cfg)
    &&& !clash(s2.slots@[i].root, s2.arena) ==> claims_kept(
        s1.slots@[i].root.game.cells@,
        s1.arena,
        s2.arena,
        i as u16,
    )
    &&& s2.diag.wf()
    &&& walk_keeps(s1.diag, s2.diag)
    &&& s2.scratch.wf()
}

/// A game that descends asks for the node it comes to wait on.
proof fn lemma_run_asks<V: Variant>(s1: Search<V>, s2: Search<V>, i: int)
    requires
        slot_run(s1, s2, i),
        s1.slots@[i].is_collectable(s1.cfg),
        !s1.slots@[i].root.pending,
    ensures
        asks(s1.slots@, s1.cfg, s2.slots@[i], asked(s1.buffer), asked(s2.buffer), i),
{
    reveal(slot_run);
    let t1 = s1.buffer.targets@;
    let t2 = s2.buffer.targets@;
    assert(asked(s2.buffer).groups =~= asked(s1.buffer).groups);
    if let Some(n) = s2.slots@[i].waiting_on {
        if t2 != t1 && t1.contains(Target::Node(n)) {
            let k = t1.index_of(Target::Node(n));
            assert(t2[k] == t2[t1.len() as int]);
        }
    }
}

/// The other slots are as they were, and every row is still there.
proof fn lemma_run_rest<V: Variant>(s1: Search<V>, s2: Search<V>, i: int)
    requires
        slot_run(s1, s2, i),
    ensures
        s2.slots@.len() == s1.slots@.len(),
        forall|j: int| 0 <= j < s1.slots@.len() && j != i ==> #[trigger] s2.slots@[j] == s1.slots@[j],
        forall|j: int| 0 <= j < s1.slots@.len() ==> slot_kept(s1.slots@[j], #[trigger] s2.slots@[j]),
        forall|n: u32| #[trigger]
            s1.buffer.targets@.contains(Target::Node(n)) ==> s2.buffer.targets@.contains(
                Target::Node(n),
            ),
        s2.buffer.targets@.len() >= s1.buffer.targets@.len(),
{
    reveal(slot_run);
    assert forall|n: u32| #[trigger]
        s1.buffer.targets@.contains(Target::Node(n)) implies s2.buffer.targets@.contains(
        Target::Node(n),
    ) by {
        let r = s1.buffer.targets@.index_of(Target::Node(n));
        assert(s2.buffer.targets@[r] == Target::Node(n));
    }
}

/// One game's descents keep the search in order.
proof fn lemma_run_wf<V: Variant>(s1: Search<V>, s2: Search<V>, i: int)
    requires
        slot_run(s1, s2, i),
        s1.wf(),
    ensures
        s2.wf(),
{
    lemma_run_rest(s1, s2, i);
    reveal(slot_run);
    assert forall|j: int| 0 <= j < s2.slots@.len() implies seated(
        #[trigger] s2.slots@[j],
        s2.cfg,
    ) by {
        if j != i {
            assert(seated(s1.slots@[j], s1.cfg));
        }
    }
    assert forall|j: int| 0 <= j < s2.slots@.len() implies history_ok(
        (#[trigger] s2.histories@[j])@,
        j,
        s2.slots@[j].root.game,
    ) by {
        assert(history_ok(s1.histories@[j]@, j, s1.slots@[j].root.game));
        assert(slot_kept(s1.slots@[j], s2.slots@[j]));
    }
}

/// One game's descents keep the groups in order.
proof fn lemma_run_groups<V: Variant>(
    s1: Search<V>,
    s2: Search<V>,
    roots: Map<u64, usize>,
    i: int,
)
    requires
        slot_run(s1, s2, i),
        root_rows(s1.slots@, s1.buffer),
        keyed(s1.slots@, s1.buffer.groups@, roots),
    ensures
        root_rows(s2.slots@, s2.buffer),
        keyed(s2.slots@, s2.buffer.groups@, roots),
{
    lemma_run_rest(s1, s2, i);
    assert(s2.buffer.groups == s1.buffer.groups && (s2.buffer.targets@ == s1.buffer.targets@
        || exists|n: u32| s2.buffer.targets@ == #[trigger] s1.buffer.targets@.push(Target::Node(n)))
        && (forall|r: int|
        0 <= r < s1.buffer.targets@.len() ==> #[trigger] s2.buffer.positions@[r]
            == s1.buffer.positions@[r] && s2.buffer.scores@[r] == s1.buffer.scores@[r])) by {
        reveal(slot_run);
        if s2.buffer.targets@ != s1.buffer.targets@ {
            let n = s2.slots@[i].waiting_on->0;
            assert(s2.buffer.targets@ == s1.buffer.targets@.push(Target::Node(n)));
        }
    }
    lemma_root_rows(s1.slots@, s2.slots@, s1.buffer, s2.buffer);
    lemma_keyed(s1.slots@, s2.slots@, s1.buffer.groups@, roots);
}

/// Keys of groups are a matter of roots alone.
proof fn lemma_keyed<S, P>(
    s: Seq<Slot<S, P>>,
    t: Seq<Slot<S, P>>,
    groups: Seq<Vec<u16>>,
    roots: Map<u64, usize>,
)
    requires
        keyed(s, groups, roots),
        forall|k: int|
            0 <= k < groups.len() ==> #[trigger] group_key(t, groups, k) == group_key(s, groups, k),
    ensures
        keyed(t, groups, roots),
{
    assert forall|key: u64| #[trigger] roots.contains_key(key) implies roots[key] < groups.len()
        && group_key(t, groups, roots[key] as int) == key by {
        assert(group_key(t, groups, roots[key] as int) == group_key(
            s,
            groups,
            roots[key] as int,
        ));
    }
}

/// One game's descents keep the other games waiting.
proof fn lemma_run_awaits<V: Variant>(s1: Search<V>, s2: Search<V>, i: int)
    requires
        slot_run(s1, s2, i),
        forall|j: int|
            0 <= j < s1.slots@.len() ==> awaits(
                #[trigger] s1.slots@[j],
                s1.arena,
                s1.buffer.targets@,
                s1.cfg,
            ),
    ensures
        forall|j: int|
            0 <= j < s2.slots@.len() ==> awaits(
                #[trigger] s2.slots@[j],
                s2.arena,
                s2.buffer.targets@,
                s2.cfg,
            ),
{
    lemma_run_rest(s1, s2, i);
    assert(grown(s1.arena, s2.arena) && s2.cfg == s1.cfg && awaits(
        s2.slots@[i],
        s2.arena,
        s2.buffer.targets@,
        s1.cfg,
    )) by {
        reveal(slot_run);
    }
    assert forall|j: int| 0 <= j < s2.slots@.len() implies awaits(
        #[trigger] s2.slots@[j],
        s2.arena,
        s2.buffer.targets@,
        s2.cfg,
    ) by {
        if j != i {
            assert(awaits(s1.slots@[j], s1.arena, s1.buffer.targets@, s1.cfg));
            lemma_awaits(
                s1.slots@[j],
                s1.arena,
                s2.arena,
                s1.buffer.targets@,
                s2.buffer.targets@,
                s1.cfg,
            );
        }
    }
}

/// One game's descents keep the rows in order.
proof fn lemma_run_asking<V: Variant>(
    s1: Search<V>,
    s2: Search<V>,
    roots: Map<u64, usize>,
    i: int,
)
    requires
        slot_run(s1, s2, i),
        s1.asking(),
        keyed(s1.slots@, s1.buffer.groups@, roots),
    ensures
        s2.asking(),
        keyed(s2.slots@, s2.buffer.groups@, roots),
{
    lemma_run_groups(s1, s2, roots, i);
    lemma_run_awaits(s1, s2, i);
    assert(node_rows(s2.arena, s2.buffer)) by {
        reveal(slot_run);
    }
}

/// One game's descents keep claims to what games can reach, unless keys clash.
proof fn lemma_run_claims<V: Variant>(s1: Search<V>, s2: Search<V>, i: int)
    requires
        slot_run(s1, s2, i),
        s1.slots@.len() == s1.cfg.g,
        s1.cfg.g <= MAX_GAMES,
        no_clash(s2.slots@, s2.arena),
    ensures
        no_clash(s1.slots@, s1.arena),
        claims_reach(s1.slots@, s1.arena) ==> claims_reach(s2.slots@, s2.arena),
{
    lemma_run_rest(s1, s2, i);
    reveal(slot_run);
    assert forall|j: int| 0 <= j < s1.slots@.len() implies !clash(
        (#[trigger] s1.slots@[j]).root,
        s1.arena,
    ) by {
        if clash(s1.slots@[j].root, s1.arena) {
            assert(slot_kept(s1.slots@[j], s2.slots@[j]));
            lemma_clash_kept(s1.slots@[j].root, s1.arena, s2.slots@[j].root, s2.arena);
        }
    }
    if claims_reach(s1.slots@, s1.arena) {
        assert forall|n: int, id: u16|
            #![trigger s2.arena.is_live(n), s2.arena.nodes@[n].listed().contains(id)]
            s2.arena.is_live(n) && s2.arena.nodes@[n].listed().contains(id) implies reachable(
            s2.slots@[id as int].root.game.cells@,
            s2.arena.nodes@[n].game.cells@,
        ) by {
            assert(!clash(s2.slots@[i].root, s2.arena));
            assert(claims_below(s2.arena.nodes@[n], s1.cfg.g as int));
            if s1.arena.is_live(n) && s1.arena.nodes@[n].listed().contains(id) {
                assert(s2.arena.nodes@[n].same_position(&s1.arena.nodes@[n]));
            }
            if 0 <= id < s1.slots@.len() {
                assert(slot_kept(s1.slots@[id as int], s2.slots@[id as int]));
            }
        }
    }
}

/// One game's descents keep the walk in order.
proof fn lemma_visit_game<V: Variant>(
    s0: Search<V>,
    s1: Search<V>,
    s2: Search<V>,
    roots: Map<u64, usize>,
    i: int,
)
    requires
        walking(s0, s1, roots, i),
        slot_run(s1, s2, i),
        s1.slots@[i].is_collectable(s1.cfg),
        !s1.slots@[i].root.pending,
    ensures
        walking(s0, s2, roots, i + 1),
{
    reveal(walking);
    lemma_run_rest(s1, s2, i);
    lemma_run_wf(s1, s2, i);
    lemma_run_asking(s1, s2, roots, i);
    if no_clash(s2.slots@, s2.arena) {
        lemma_run_claims(s1, s2, i);
    }
    assert(0 <= i < s1.slots@.len() && s2.buffer.groups == s1.buffer.groups && grown(
        s1.arena,
        s2.arena,
    ) && s2.cfg == s1.cfg && s2.params == s1.params && s2.histories == s1.histories && s2.completed
        == s1.completed && through(s2.slots@[i], s2.arena, s1.cfg) && s2.slots@[i].sim_count
        >= s1.slots@[i].sim_count && walk_keeps(s1.diag, s2.diag) && s2.arena.live
        <= s2.arena.capacity) by {
        reveal(slot_run);
    }
    assert(!none_descends(s0, i + 1)) by {
        assert(s1.slots@[i] == s0.slots@[i]);
    }
    lemma_grown_on(s0.arena, s1.arena, s2.arena);
    assert forall|j: int| 0 <= j < s2.slots@.len() implies slot_kept(
        s0.slots@[j],
        #[trigger] s2.slots@[j],
    ) && s2.slots@[j].root.game == s0.slots@[j].root.game && s2.slots@[j].root.key
        == s0.slots@[j].root.key by {
        assert(slot_kept(s0.slots@[j], s1.slots@[j]));
        assert(slot_kept(s1.slots@[j], s2.slots@[j]));
    }
    assert forall|j: int| 0 <= j < i + 1 implies visited(
        s0.slots@[j],
        #[trigger] s2.slots@[j],
        s2.arena,
        s2.buffer,
        s2.cfg,
        j,
    ) by {
        if j < i {
            assert(s2.slots@[j] == s1.slots@[j]);
            lemma_visited(
                s0.slots@[j],
                s1.slots@[j],
                s1.arena,
                s1.buffer,
                s2.arena,
                s2.buffer,
                s1.cfg,
                j,
            );
        } else {
            assert(s1.slots@[i] == s0.slots@[i]);
        }
    }
}

/// A collection walk from `s0` visited the first `end` slots, and any others only missed out
/// because the buffer was full.
pub open spec fn collected<V: Variant>(s0: Search<V>, s: Search<V>, end: int) -> bool {
    &&& 0 <= end <= s0.slots@.len()
    &&& forall|j: int|
        0 <= j < end ==> visited(
            (Slot { descents: 0, ..s0.slots@[j] }),
            #[trigger] s.slots@[j],
            s.arena,
            s.buffer,
            s.cfg,
            j,
        )
    &&& forall|j: int|
        end <= j < s0.slots@.len() ==> #[trigger] s.slots@[j] == (Slot {
            descents: 0,
            ..s0.slots@[j]
        })
    &&& end < s0.slots@.len() ==> s.buffer.targets@.len() == s.cfg.b
    &&& tours(s0, s, end)
}

/// Claims go by the roots' boards.
proof fn lemma_reach_same<S, P>(s: Seq<Slot<S, P>>, t: Seq<Slot<S, P>>, a: Arena<S>)
    requires
        claims_reach(s, a),
        claimed(a, s.len() as int),
        forall|j: int| 0 <= j < s.len() ==> (#[trigger] t[j]).root.game == s[j].root.game,
    ensures
        claims_reach(t, a),
{
    assert forall|i: int, id: u16|
        #![trigger a.is_live(i), a.nodes@[i].listed().contains(id)]
        a.is_live(i) && a.nodes@[i].listed().contains(id) implies reachable(
        t[id as int].root.game.cells@,
        a.nodes@[i].game.cells@,
    ) by {
        assert(claims_below(a.nodes@[i], s.len() as int));
        assert(t[id as int].root.game == s[id as int].root.game);
    }
}

/// An empty buffer is in order where no node awaits its evaluation.
proof fn lemma_walk_begins<V: Variant>(s: Search<V>)
    requires
        s.wf(),
        s.settled(),
        s.buffer.targets@.len() == 0,
        s.buffer.groups@.len() == 0,
    ensures
        walking(s, s, Map::<u64, usize>::empty(), 0),
{
    reveal(walking);
}

impl<V: Variant> Search<V> {
    /// Walk the slots from 0, descending each eligible game until it produces a buffer entry
    /// or runs out of descents, and stop when the buffer is full. A game whose root is not
    /// evaluated does not descend; it needs the model too, but only once per root state.
    ///
    /// Returns how many rows of the buffer are filled. The caller has the model score them and
    /// hands the readings to [`Self::complete_evaluation`].
    pub fn prepare_evaluation(&mut self) -> (n: usize)
        requires
            old(self).wf(),
            old(self).settled(),
        ensures
            final(self).wf(),
            final(self).asking(),
            final(self).same_games(old(self)),
            grown(old(self).arena, final(self).arena),
            none_descends(*old(self), old(self).slots@.len() as int) ==> final(self).arena == old(
                self,
            ).arena,
            no_clash(final(self).slots@, final(self).arena) && claims_reach(
                old(self).slots@,
                old(self).arena,
            ) ==> claims_reach(final(self).slots@, final(self).arena),
            forall|j: int|
                0 <= j < old(self).slots@.len() ==> slot_kept(
                    old(self).slots@[j],
                    #[trigger] final(self).slots@[j],
                ),
            n == final(self).buffer.targets@.len(),
            exists|end: int| #[trigger] collected(*old(self), *final(self), end),
            final(self).diag.root_evals == old(self).diag.root_evals.wrapping_add(
                final(self).buffer.groups@.len() as u64,
            ),
            final(self).diag.cycles == old(self).diag.cycles,
            final(self).diag.steps == old(self).diag.steps,
            final(self).diag.games_finished == old(self).diag.games_finished,
            final(self).diag.nodes_deleted == old(self).diag.nodes_deleted,
    {
        broadcast use vstd::std_specs::hash::group_hash_axioms;

        self.buffer.clear();
        proof {
            assert(self.wf() && self.settled());
        }
        self.reset_descents();
        let ghost s0 = *self;
        let mut roots: HashMap<u64, usize> = HashMap::new();
        let before: [u64; 2] = [self.diag.descents, self.diag.duplicate_hits];
        let mut end: usize = 0;
        let mut i: usize = 0;
        let ghost from = (s0.arena, s0.rng, s0.diag, nothing_asked());
        let ghost mut stages: Seq<(Arena<V::Stats>, Rng, Diagnostics, Asked)> = seq![from];
        proof {
            reveal(toured_by);
            assert(asked(s0.buffer) =~= nothing_asked());
            lemma_walk_begins(s0);
            assert(roots@ == Map::<u64, usize>::empty());
            reveal(walking);
        }
        while i < self.slots.len() && self.buffer.len() < self.buffer.width()
            invariant
                i <= self.slots@.len(),
                self.slots@.len() == s0.slots@.len(),
                s0.slots@.len() <= MAX_GAMES,
                forall|j: int| 0 <= j < s0.slots@.len() ==> (#[trigger] s0.slots@[j]).descents == 0,
                walking(s0, *self, roots@, i as int),
                self.cfg == s0.cfg,
                self.params == s0.params,
                end == (if i > 0 {
                    i - 1
                } else {
                    0
                }),
                toured_by::<V>(
                    s0.slots@,
                    self.cfg,
                    self.params,
                    self.slots@,
                    from,
                    (self.arena, self.rng, self.diag, asked(self.buffer)),
                    i as int,
                    stages,
                ),
            decreases self.slots@.len() - i,
        {
            end = i;
            let ghost came = *self;
            let ghost came_roots = roots@;
            if self.diag.deepest_slot < i {
                self.note_deepest(i, Ghost(roots@), Ghost(s0));
            }
            proof {
                lemma_walk_at(s0, *self, roots@, i as int);
            }
            let ghost here = *self;
            if self.slots[i].collectable(&self.cfg) {
                if self.slots[i].root.pending {
                    self.visit_root(i, &mut roots, Ghost(s0));
                } else {
                    self.visit_game(i, Ghost(roots@), Ghost(s0));
                }
            } else {
                proof {
                    lemma_walk_past(s0, *self, roots@, i as int);
                    lemma_untouched(here, *self, i as int);
                }
            }
            proof {
                lemma_came_to(came, here, *self, i as int);
                lemma_walk_keys(s0, came, came_roots, i as int);
                lemma_toured_on(s0.slots@, came, *self, from, i as int, stages);
                stages = stages.push((self.arena, self.rng, self.diag, asked(self.buffer)));
            }
            i = i + 1;
            proof {
                lemma_walk_len(s0, *self, roots@, i as int);
            }
        }
        proof {
            reveal(walking);
        }
        let ghost s1 = *self;
        let short: usize = self.buffer.width() - self.buffer.len();
        self.diag.note_walk(end, short, before);
        proof {
            let s2 = *self;
            if none_descends(*old(self), old(self).slots@.len() as int) {
                assert(none_descends(s0, i as int));
            }
            if claims_reach(old(self).slots@, old(self).arena) {
                lemma_reach_same(old(self).slots@, s0.slots@, old(self).arena);
            }
            assert forall|j: int| 0 <= j < s2.slots@.len() implies seated(
                #[trigger] s2.slots@[j],
                s2.cfg,
            ) by {
                assert(seated(s1.slots@[j], s1.cfg));
            }
            assert(collected(*old(self), s2, i as int)) by {
                assert(rested(old(self).slots@) =~= s0.slots@);
                assert(toured(*old(self), s2, i as int, stages)) by {
                    reveal(toured_by);
                }
                assert forall|j: int| 0 <= j < i implies visited(
                    (Slot { descents: 0, ..old(self).slots@[j] }),
                    #[trigger] s2.slots@[j],
                    s2.arena,
                    s2.buffer,
                    s2.cfg,
                    j,
                ) by {
                    assert(visited(
                        s0.slots@[j],
                        s1.slots@[j],
                        s1.arena,
                        s1.buffer,
                        s1.cfg,
                        j,
                    ));
                }
            }
            assert forall|j: int| 0 <= j < old(self).slots@.len() implies slot_kept(
                old(self).slots@[j],
                #[trigger] s2.slots@[j],
            ) by {
                assert(slot_kept(s0.slots@[j], s1.slots@[j]));
            }
        }
        self.buffer.len()
    }

    /// The walk has come further than any before it.
    fn note_deepest(&mut self, i: usize, Ghost(roots): Ghost<Map<u64, usize>>, Ghost(s0): Ghost<Search<V>>)
        requires
            walking(s0, *old(self), roots, i as int),
        ensures
            walking(s0, *final(self), roots, i as int),
            *final(self) == (Search {
                diag: (Diagnostics { deepest_slot: i, ..old(self).diag }),
                ..*old(self)
            }),
    {
        proof {
            reveal(walking);
        }
        self.diag.deepest_slot = i;
    }
}

/// Where the walk stands.
proof fn lemma_walk_at<V: Variant>(
    s0: Search<V>,
    s: Search<V>,
    roots: Map<u64, usize>,
    i: int,
)
    requires
        walking(s0, s, roots, i),
        0 <= i < s.slots@.len(),
    ensures
        s.wf(),
        s.asking(),
        s.slots@[i] == s0.slots@[i],
{
    reveal(walking);
}

/// The walk has all the slots it began with.
proof fn lemma_walk_len<V: Variant>(
    s0: Search<V>,
    s: Search<V>,
    roots: Map<u64, usize>,
    i: int,
)
    requires
        walking(s0, s, roots, i),
    ensures
        s.slots@.len() == s0.slots@.len(),
{
    reveal(walking);
}

/// The walk passes a game that can not be collected.
proof fn lemma_walk_past<V: Variant>(
    s0: Search<V>,
    s: Search<V>,
    roots: Map<u64, usize>,
    i: int,
)
    requires
        walking(s0, s, roots, i),
        0 <= i < s.slots@.len(),
        !s.slots@[i].is_collectable(s.cfg),
    ensures
        walking(s0, s, roots, i + 1),
{
    reveal(walking);
    assert(none_descends(s0, i + 1) ==> none_descends(s0, i));
}

/// What the readings of a cycle do for a slot: a game that waited on a node has one more
/// simulation, and a game that waited on its root state no longer does.
pub open spec fn absorbed<S, P>(before: Slot<S, P>, after: Slot<S, P>, b: Buffer, j: int) -> bool {
    &&& after.root.key == before.root.key
    &&& after.root.game == before.root.game
    &&& after.root.pending == (before.root.pending && !in_group(b.groups@, j))
    &&& after.waiting_on is None
    &&& after.path.steps@.len() == 0
    &&& after.sim_count == before.sim_count + (if before.waiting_on is Some {
        1int
    } else {
        0
    })
    &&& after.occupied == before.occupied
    &&& after.game_over == before.game_over
    &&& after.descents == before.descents
    &&& after.last_depth == before.last_depth
}

/// The answers of a cycle written where they belong: every node with a row and every root in a
/// group has adopted the reading of its row, and the others are left alone. `slots` and `a` are
/// the slots and the nodes then, and `rngs` the generator before each row.
pub open spec fn informed<V: Variant>(
    s0: Search<V>,
    readings: Seq<V::Reading>,
    slots: Seq<Slot<V::Stats, V::Prob>>,
    a: Arena<V::Stats>,
    rngs: Seq<Rng>,
) -> bool {
    let b = s0.buffer;
    &&& slots.len() == s0.slots@.len()
    &&& forall|r: int|
        0 <= r < b.targets@.len() && #[trigger] b.targets@[r] is Node ==> node_answer::<V>(
            b,
            r,
            s0.arena,
            readings,
            a,
        )
    &&& forall|i: int|
        0 <= i < s0.arena.nodes@.len() && !b.targets@.contains(Target::Node(i as u32))
            ==> #[trigger] a.nodes@[i] == s0.arena.nodes@[i]
    &&& rows_primed::<V>(b, s0.slots@, readings, s0.params, slots, rngs)
    &&& forall|j: int|
        0 <= j < s0.slots@.len() && !in_group(b.groups@, j) ==> #[trigger] slots[j] == s0.slots@[j]
}

/// What a cycle's readings do to the statistics, by way of the slots and nodes with their
/// answers, the rows of the nodes, the nodes after each game, and the generator before each row.
pub open spec fn learns_by<V: Variant>(
    s0: Search<V>,
    readings: Seq<V::Reading>,
    s: Search<V>,
    slots: Seq<Slot<V::Stats, V::Prob>>,
    rows: Map<u32, usize>,
    arenas: Seq<Arena<V::Stats>>,
    rngs: Seq<Rng>,
) -> bool {
    &&& informed(s0, readings, slots, arenas[0], rngs)
    &&& rngs[0] == s0.rng
    &&& rngs.last() == s.rng
    &&& forall|n: u32| #[trigger]
        rows.contains_key(n) ==> rows[n] < s0.buffer.targets@.len()
            && s0.buffer.targets@[rows[n] as int] == Target::Node(n)
    &&& forall|n: u32| #[trigger]
        s0.buffer.targets@.contains(Target::Node(n)) ==> rows.contains_key(n)
    &&& waiters_backed::<V>(slots, readings, rows, s0.params, s.slots@, arenas)
    &&& arenas.last() == s.arena
}

/// What a cycle's readings do to the statistics: the answers are written where they belong, and
/// then every game that waited is backed up, in slot order, with what the model says of the
/// node it waited on.
#[verifier::opaque]
pub open spec fn learns<V: Variant>(
    s0: Search<V>,
    readings: Seq<V::Reading>,
    s: Search<V>,
) -> bool {
    exists|
        slots: Seq<Slot<V::Stats, V::Prob>>,
        rows: Map<u32, usize>,
        arenas: Seq<Arena<V::Stats>>,
        rngs: Seq<Rng>,
    | #[trigger]
        learns_by(s0, readings, s, slots, rows, arenas, rngs)
}

/// While the model is asked, each node has one row, and each game that waits on its root state
/// is in one group, once.
proof fn lemma_one_row_each<V: Variant>(s: Search<V>)
    requires
        s.wf(),
        s.asking(),
        s.buffer.groups@.len() <= usize::MAX,
    ensures
        rows_once(s.buffer, s.slots@.len() as int),
{
    let b = s.buffer;
    assert forall|r: int, j: int|
        0 <= r < b.targets@.len() && 0 <= j < s.slots@.len() && #[trigger] root_row_of(
            b.targets@[r],
            b,
            j,
        ) implies game_once(b, r, j) by {
        let k = b.targets@[r]->Root_0 as int;
        assert(root_row(s.slots@, b, b.targets@[r], r));
        let members = b.groups@[k]@;
        assert(group_ok(s.slots@, members));
        let m = members.index_of(j as u16);
        assert(members[m] == j);
        assert(once(members, m)) by {
            assert forall|q: int| 0 <= q < members.len() && q != m implies #[trigger] members[q]
                != members[m] by {
                if q < m {
                    assert(members[q] < members[m]);
                } else {
                    assert(members[m] < members[q]);
                }
            }
        }
        assert forall|q: int| 0 <= q < b.targets@.len() && q != r implies !root_row_of(
            #[trigger] b.targets@[q],
            b,
            j,
        ) by {
            if root_row_of(b.targets@[q], b, j) {
                let k2 = b.targets@[q]->Root_0 as int;
                assert(root_row(s.slots@, b, b.targets@[q], q));
                assert(b.targets@[q] != b.targets@[r]);
                assert(k2 != k);
                let others = b.groups@[k2]@;
                assert(group_ok(s.slots@, others));
                let m2 = others.index_of(j as u16);
                assert(others[m2] == j);
                assert(group_key(s.slots@, b.groups@, k) == s.slots@[j].root.key);
                assert(group_key(s.slots@, b.groups@, k2) == s.slots@[j].root.key);
            }
        }
    }
}

/// The games that have an answer are those in the groups.
proof fn lemma_all_answered<S, P>(slots: Seq<Slot<S, P>>, b: Buffer)
    requires
        root_rows(slots, b),
        b.groups@.len() <= usize::MAX,
    ensures
        forall|j: int| #[trigger]
            answered_before(b, b.targets@.len() as int, j) <==> in_group(b.groups@, j),
{
    let n = b.targets@.len() as int;
    assert forall|j: int| #[trigger] answered_before(b, n, j) <==> in_group(b.groups@, j) by {
        if answered_before(b, n, j) {
            let q = choose|q: int| 0 <= q < n && root_row_of(#[trigger] b.targets@[q], b, j);
            assert(root_row(slots, b, b.targets@[q], q));
            let k = b.targets@[q]->Root_0;
            assert(b.groups@[k as int]@.contains(j as u16));
        }
        if in_group(b.groups@, j) {
            let k = choose|k: int|
                0 <= k < b.groups@.len() && (#[trigger] b.groups@[k])@.contains(j as u16);
            assert(b.targets@.contains(Target::Root(k as usize)));
            let q = b.targets@.index_of(Target::Root(k as usize));
            assert(root_row_of(b.targets@[q], b, j));
        }
    }
}

impl<V: Variant> Search<V> {
    /// Write the model's output where it belongs, and back up every game whose awaited node
    /// was evaluated.
    fn absorb(&mut self, readings: &Vec<V::Reading>)
        requires
            old(self).wf(),
            old(self).asking(),
            readings@.len() >= old(self).buffer.targets@.len(),
        ensures
            final(self).wf(),
            final(self).settled(),
            final(self).same_games(old(self)),
            forall|j: int|
                0 <= j < old(self).slots@.len() ==> absorbed(
                    old(self).slots@[j],
                    #[trigger] final(self).slots@[j],
                    old(self).buffer,
                    j,
                ),
            forall|i: int| #[trigger]
                final(self).arena.is_live(i) <==> old(self).arena.is_live(i),
            forall|i: int| #[trigger]
                old(self).arena.is_live(i) ==> node_answered(
                    old(self).arena.nodes@[i],
                    final(self).arena.nodes@[i],
                ),
            final(self).arena.live == old(self).arena.live,
            final(self).arena.capacity == old(self).arena.capacity,
            final(self).diag == old(self).diag,
            final(self).buffer == old(self).buffer,
            learns(*old(self), readings@, *final(self)),
    {
        let ghost s0 = *self;
        proof {
            lemma_rows_named(s0);
        }
        let groups: usize = self.buffer.groups.len();
        assert(s0.buffer.groups@.len() == groups);
        proof {
            lemma_one_row_each(s0);
        }
        let rows = scatter::<V>(
            &mut self.slots,
            &mut self.arena,
            &self.buffer,
            readings,
            &self.params,
            &mut self.rng,
        );
        let ghost s1 = *self;
        proof {
            lemma_all_answered(s0.slots@, s0.buffer);
            lemma_answered(s0.arena, s1.arena);
            lemma_scattered(s0, s1, rows@, readings@.len());
        }
        back_up_waiters::<V>(&mut self.slots, &mut self.arena, readings, &rows, &self.params);
        proof {
            lemma_absorbed(s0, s1, *self);
            let arenas = choose|arenas: Seq<Arena<V::Stats>>| #[trigger]
                waiters_backed::<V>(
                    s1.slots@,
                    readings@,
                    rows@,
                    s0.params,
                    self.slots@,
                    arenas,
                ) && arenas[0] == s1.arena && arenas.last() == self.arena;
            let rngs = choose|rngs: Seq<Rng>| #[trigger]
                rows_primed::<V>(
                    s0.buffer,
                    s0.slots@,
                    readings@,
                    s0.params,
                    s1.slots@,
                    rngs,
                ) && rngs[0] == s0.rng && rngs.last() == s1.rng;
            assert(informed(s0, readings@, s1.slots@, s1.arena, rngs));
            assert(learns_by(s0, readings@, *self, s1.slots@, rows@, arenas, rngs));
            reveal(learns);
        }
    }
}

/// Every row is for a node or a group that there is.
proof fn lemma_rows_named<V: Variant>(s: Search<V>)
    requires
        s.wf(),
        s.asking(),
    ensures
        forall|r: int|
            0 <= r < s.buffer.targets@.len() ==> match #[trigger] s.buffer.targets@[r] {
                Target::Node(n) => s.arena.is_live(n as int),
                Target::Root(k) => k < s.buffer.groups@.len() && forall|m: int|
                    0 <= m < s.buffer.groups@[k as int]@.len() ==> (
                    #[trigger] s.buffer.groups@[k as int]@[m]) < s.slots@.len(),
            },
{
    assert forall|r: int| 0 <= r < s.buffer.targets@.len() implies match #[trigger] s.buffer.targets@[r] {
        Target::Node(n) => s.arena.is_live(n as int),
        Target::Root(k) => k < s.buffer.groups@.len() && forall|m: int|
            0 <= m < s.buffer.groups@[k as int]@.len() ==> (
            #[trigger] s.buffer.groups@[k as int]@[m]) < s.slots@.len(),
    } by {
        assert(node_row(s.arena, s.buffer, s.buffer.targets@[r], r));
        assert(root_row(s.slots@, s.buffer, s.buffer.targets@[r], r));
        if let Target::Root(k) = s.buffer.targets@[r] {
            let members = s.buffer.groups@[k as int]@;
            assert(group_ok(s.slots@, members));
            assert forall|m: int| 0 <= m < members.len() implies (#[trigger] members[m])
                < s.slots@.len() by {}
        }
    }
}

/// After the answers are written, every game that waits can be backed up.
proof fn lemma_scattered<V: Variant>(
    s0: Search<V>,
    s1: Search<V>,
    rows: Map<u32, usize>,
    n: nat,
)
    requires
        s0.wf(),
        s0.asking(),
        n >= s0.buffer.targets@.len(),
        forall|i: int| #[trigger] s1.arena.is_live(i) <==> s0.arena.is_live(i),
        s1.slots@.len() == s0.slots@.len(),
        forall|j: int|
            0 <= j < s0.slots@.len() ==> slot_answered(s0.slots@[j], #[trigger] s1.slots@[j]),
        forall|x: u32| #[trigger]
            s0.buffer.targets@.contains(Target::Node(x)) ==> rows.contains_key(x),
        forall|x: u32| #[trigger]
            rows.contains_key(x) ==> rows[x] < s0.buffer.targets@.len(),
    ensures
        forall|j: int|
            0 <= j < s1.slots@.len() ==> {
                let s = #[trigger] s1.slots@[j];
                &&& root_ok(s.root)
                &&& path_live(s, s1.arena)
                &&& s.waiting_on is None ==> s.path.steps@.len() == 0
                &&& s.waiting_on matches Some(x) ==> rows.contains_key(x) && rows[x] < n
                    && s.sim_count < u32::MAX
            },
{
    assert forall|j: int| 0 <= j < s1.slots@.len() implies {
        let s = #[trigger] s1.slots@[j];
        &&& root_ok(s.root)
        &&& path_live(s, s1.arena)
        &&& s.waiting_on is None ==> s.path.steps@.len() == 0
        &&& s.waiting_on matches Some(x) ==> rows.contains_key(x) && rows[x] < n && s.sim_count
            < u32::MAX
    } by {
        let t = s0.slots@[j];
        assert(slot_answered(t, s1.slots@[j]));
        assert(seated(t, s0.cfg));
        assert(awaits(t, s0.arena, s0.buffer.targets@, s0.cfg));
        if let Some(x) = t.waiting_on {
            lemma_path_live(t.root, s0.arena, t.path.steps@, s0.arena.nodes@[x as int].key);
            assert(s0.buffer.targets@.contains(Target::Node(x)));
            assert(path_live(s1.slots@[j], s1.arena)) by {
                assert forall|k: int| 0 <= k < t.path.steps@.len() implies {
                    let y = (#[trigger] t.path.steps@[k]).node;
                    y == ROOT || s1.arena.is_live(y as int)
                } by {
                    let y = t.path.steps@[k].node;
                    assert(y == ROOT || s0.arena.is_live(y as int));
                }
            }
        }
    }
}

/// A cycle's readings settle the search.
proof fn lemma_absorbed<V: Variant>(s0: Search<V>, s1: Search<V>, s2: Search<V>)
    requires
        s0.wf(),
        s0.asking(),
        s1 == (Search { slots: s1.slots, arena: s1.arena, rng: s1.rng, ..s0 }),
        s2 == (Search { slots: s2.slots, arena: s2.arena, ..s1 }),
        arena_answered(s0.arena, s1.arena),
        forall|i: int|
            0 <= i < s0.arena.nodes@.len() ==> pending((#[trigger] s1.arena.nodes@[i]).flags) == (
            pending(s0.arena.nodes@[i].flags) && !s0.buffer.targets@.contains(
                Target::Node(i as u32),
            )),
        s1.slots@.len() == s0.slots@.len(),
        forall|j: int|
            0 <= j < s0.slots@.len() ==> slot_answered(s0.slots@[j], #[trigger] s1.slots@[j])
                && s1.slots@[j].root.pending == (s0.slots@[j].root.pending && !answered_before(
                s0.buffer,
                s0.buffer.targets@.len() as int,
                j,
            )),
        forall|j: int| #[trigger]
            answered_before(s0.buffer, s0.buffer.targets@.len() as int, j) <==> in_group(
                s0.buffer.groups@,
                j,
            ),
        arena_ok(s2.arena),
        arena_same_but_stats(s1.arena, s2.arena),
        s2.slots@.len() == s1.slots@.len(),
        forall|j: int|
            0 <= j < s1.slots@.len() ==> slot_backed(s1.slots@[j], #[trigger] s2.slots@[j]),
    ensures
        s2.wf(),
        s2.settled(),
        s2.same_games(&s0),
        forall|j: int|
            0 <= j < s0.slots@.len() ==> absorbed(
                s0.slots@[j],
                #[trigger] s2.slots@[j],
                s0.buffer,
                j,
            ),
        forall|i: int| #[trigger] s2.arena.is_live(i) <==> s0.arena.is_live(i),
        forall|i: int| #[trigger]
            s0.arena.is_live(i) ==> node_answered(s0.arena.nodes@[i], s2.arena.nodes@[i]),
        s2.arena.live == s0.arena.live,
        s2.arena.capacity == s0.arena.capacity,
{
    assert forall|i: int| #[trigger] s2.arena.is_live(i) <==> s0.arena.is_live(i) by {}
    assert forall|i: int| #[trigger] s0.arena.is_live(i) implies node_answered(
        s0.arena.nodes@[i],
        s2.arena.nodes@[i],
    ) && !pending(s2.arena.nodes@[i].flags) by {
        assert(node_answered(s0.arena.nodes@[i], s1.arena.nodes@[i]));
        assert(same_but_stats(s1.arena.nodes@[i], s2.arena.nodes@[i]));
        assert(pending(s1.arena.nodes@[i].flags) == (pending(s0.arena.nodes@[i].flags)
            && !s0.buffer.targets@.contains(Target::Node(i as u32))));
    }
    assert forall|j: int| 0 <= j < s0.slots@.len() implies absorbed(
        s0.slots@[j],
        #[trigger] s2.slots@[j],
        s0.buffer,
        j,
    ) && seated(s2.slots@[j], s2.cfg) by {
        assert(seated(s0.slots@[j], s0.cfg));
        assert(awaits(s0.slots@[j], s0.arena, s0.buffer.targets@, s0.cfg));
        assert(slot_answered(s0.slots@[j], s1.slots@[j]));
        assert(slot_backed(s1.slots@[j], s2.slots@[j]));
    }
    assert(claimed(s2.arena, s2.cfg.g as int)) by {
        assert forall|i: int| #[trigger] s2.arena.is_live(i) implies s2.arena.nodes@[i].id_count > 0
            && claims_below(s2.arena.nodes@[i], s2.cfg.g as int) by {
            assert(s0.arena.is_live(i));
            assert(node_answered(s0.arena.nodes@[i], s2.arena.nodes@[i]));
            assert(s2.arena.nodes@[i].listed() =~= s0.arena.nodes@[i].listed());
        }
    }
    assert forall|j: int| 0 <= j < s2.slots@.len() implies history_ok(
        (#[trigger] s2.histories@[j])@,
        j,
        s2.slots@[j].root.game,
    ) by {
        assert(history_ok(s0.histories@[j]@, j, s0.slots@[j].root.game));
        assert(absorbed(s0.slots@[j], s2.slots@[j], s0.buffer, j));
    }
}

impl<V: Variant> Search<V> {
    /// Advance the first `t` ready games by one move, then sweep and reseed; any others remain
    /// ready for a later step. The order is mandatory: moves first, so the sweep knows every
    /// game's new root; sweep next, so a finished game's ids are gone before its slot is
    /// reused; seeding last.
    pub fn step(&mut self) -> (records: Vec<StepRecord<V::Target>>)
        requires
            old(self).wf(),
            old(self).settled(),
        ensures
            final(self).wf(),
            final(self).settled(),
            stepped(*old(self), *final(self), records@),
    {
        let ghost s0 = *self;
        let (stepping, finished, records) = play_ready::<V>(
            &mut self.slots,
            &mut self.histories,
            &self.cfg,
            &mut self.rng,
            &mut self.scratch,
        );
        let ghost s1 = *self;
        adopt_roots::<V>(
            &mut self.slots,
            &self.arena,
            &stepping,
            &finished,
            &self.params,
            &mut self.rng,
        );
        let ghost s2 = *self;
        sweep(&mut self.arena, &self.slots, &stepping, &finished, &mut self.diag);
        let ghost s3 = *self;
        reseed::<V>(
            &mut self.slots,
            &mut self.histories,
            &mut self.completed,
            &mut self.diag,
            &self.params,
            &mut self.rng,
        );
        self.diag.steps = self.diag.steps.wrapping_add(1);
        proof {
            assert forall|j: int|
                0 <= j < s0.slots@.len() && !s2.slots@[j].game_over implies #[trigger] self.slots@[j]
                == s2.slots@[j] by {
                assert(reseeded_at(
                    s3.slots@,
                    s3.histories@,
                    self.slots@,
                    self.histories@,
                    self.completed@,
                    s3.completed@.len() as int,
                    j,
                ));
            }
            let moving = choose|rngs: Seq<Rng>| #[trigger]
                moves_drawn::<V>(s0.slots@, s0.cfg, records@, rngs) && rngs[0] == s0.rng
                    && rngs.last() == s1.rng;
            let adopting = choose|rngs: Seq<Rng>| #[trigger]
                roots_adopted::<V>(
                    s2.slots@,
                    s1.arena,
                    going_on(stepping@, finished@),
                    s1.params,
                    rngs,
                ) && rngs[0] == s1.rng && rngs.last() == s2.rng;
            let seeding = choose|rngs: Seq<Rng>| #[trigger]
                slots_seeded::<V>(self.slots@, overs(s3.slots@), s3.params, rngs) && rngs[0]
                    == s3.rng && rngs.last() == self.rng;
            assert forall|j: int| 0 <= j < s0.slots@.len() implies !(
            #[trigger] s0.slots@[j]).game_over by {
                assert(seated(s0.slots@[j], s0.cfg));
            }
            lemma_stats_stepped(
                s0,
                s1,
                s2,
                *self,
                stepping@,
                finished@,
                records@,
                moving,
                adopting,
                seeding,
            );
            assert forall|j: int| 0 <= j < s0.slots@.len() implies #[trigger] completed_at(
                s0,
                *self,
                records@,
                j,
            ) by {
                lemma_completed(s0, s1, s3, *self, stepping@, finished@, records@, j);
            }
            lemma_stepped(s0, s1, s2, s3, *self, stepping@, finished@, records@);
        }
        records
    }
}

/// What a step does with the generator, by way of its states: first the moves are drawn, in
/// slot order, then the roots of the games that go on get their noise, then those of the slots
/// that are reseeded.
pub open spec fn stats_stepped_by<V: Variant>(
    s0: Search<V>,
    s: Search<V>,
    records: Seq<StepRecord<V::Target>>,
    moving: Seq<Rng>,
    adopting: Seq<Rng>,
    seeding: Seq<Rng>,
) -> bool {
    let ends = enders(s0.slots@, s0.cfg, records);
    let on = going_on(steppers(s0.slots@, s0.cfg), ends);
    &&& moves_drawn::<V>(s0.slots@, s0.cfg, records, moving)
    &&& roots_adopted::<V>(s.slots@, s0.arena, on, s0.params, adopting)
    &&& slots_seeded::<V>(s.slots@, ends, s0.params, seeding)
    &&& moving[0] == s0.rng
    &&& adopting[0] == moving.last()
    &&& seeding[0] == adopting.last()
    &&& seeding.last() == s.rng
}

/// What a step does to the statistics: a game's record holds the target of its root, and the
/// move was drawn from it; a root that is adopted or reseeded has statistics of its own, with
/// its own noise.
#[verifier::opaque]
pub open spec fn stats_stepped<V: Variant>(
    s0: Search<V>,
    s: Search<V>,
    records: Seq<StepRecord<V::Target>>,
) -> bool {
    exists|moving: Seq<Rng>, adopting: Seq<Rng>, seeding: Seq<Rng>| #[trigger]
        stats_stepped_by(s0, s, records, moving, adopting, seeding)
}

/// The game of slot `j`, if it ends, is kept whole, in slot order among those that end.
pub open spec fn completed_at<V: Variant>(
    s0: Search<V>,
    s: Search<V>,
    records: Seq<StepRecord<V::Target>>,
    j: int,
) -> bool {
    let at = s0.completed@.len() + ends_below(s0.slots@, s0.cfg, records, j as nat);
    ends_now(s0.slots@, s0.cfg, records, j) ==> {
        &&& at < s.completed@.len()
        &&& kept_whole(
            s0.histories@[j]@,
            records[ready_below(s0.slots@, s0.cfg, j as nat) as int],
            s.completed@[at as int]@,
        )
    }
}

/// Who moves and who ends, by the records.
proof fn lemma_who<V: Variant>(
    s0: Search<V>,
    s1: Search<V>,
    stepping: Seq<bool>,
    finished: Seq<bool>,
    records: Seq<StepRecord<V::Target>>,
)
    requires
        stepping.len() == s0.slots@.len(),
        finished.len() == s0.slots@.len(),
        forall|j: int|
            0 <= j < s0.slots@.len() ==> #[trigger] played_at(
                s0.slots@,
                s0.histories@,
                s0.cfg,
                s1.slots@,
                s1.histories@,
                stepping,
                finished,
                records,
                j,
            ),
    ensures
        stepping == steppers(s0.slots@, s0.cfg),
        finished == enders(s0.slots@, s0.cfg, records),
{
    assert forall|j: int| 0 <= j < s0.slots@.len() implies stepping[j] == steppers(
        s0.slots@,
        s0.cfg,
    )[j] && finished[j] == enders(s0.slots@, s0.cfg, records)[j] by {
        assert(played_at(
            s0.slots@,
            s0.histories@,
            s0.cfg,
            s1.slots@,
            s1.histories@,
            stepping,
            finished,
            records,
            j,
        ));
    }
    assert(stepping =~= steppers(s0.slots@, s0.cfg));
    assert(finished =~= enders(s0.slots@, s0.cfg, records));
}

/// The phases of a step add up to what it does to the statistics.
proof fn lemma_stats_stepped<V: Variant>(
    s0: Search<V>,
    s1: Search<V>,
    s2: Search<V>,
    s4: Search<V>,
    stepping: Seq<bool>,
    finished: Seq<bool>,
    records: Seq<StepRecord<V::Target>>,
    moving: Seq<Rng>,
    adopting: Seq<Rng>,
    seeding: Seq<Rng>,
)
    requires
        stepping.len() == s0.slots@.len(),
        finished.len() == s0.slots@.len(),
        s2.slots@.len() == s0.slots@.len(),
        s4.slots@.len() == s0.slots@.len(),
        forall|j: int| 0 <= j < s0.slots@.len() ==> !(#[trigger] s0.slots@[j]).game_over,
        forall|j: int|
            0 <= j < s0.slots@.len() ==> #[trigger] played_at(
                s0.slots@,
                s0.histories@,
                s0.cfg,
                s1.slots@,
                s1.histories@,
                stepping,
                finished,
                records,
                j,
            ),
        forall|j: int|
            0 <= j < s0.slots@.len() ==> (if stepping[j] && !finished[j] {
                adopted(s1.slots@[j], #[trigger] s2.slots@[j], s0.arena)
            } else {
                s2.slots@[j] == s1.slots@[j]
            }),
        forall|j: int|
            0 <= j < s0.slots@.len() && !s2.slots@[j].game_over ==> #[trigger] s4.slots@[j]
                == s2.slots@[j],
        moves_drawn::<V>(s0.slots@, s0.cfg, records, moving),
        moving[0] == s0.rng,
        roots_adopted::<V>(
            s2.slots@,
            s0.arena,
            going_on(stepping, finished),
            s0.params,
            adopting,
        ),
        adopting[0] == moving.last(),
        slots_seeded::<V>(s4.slots@, overs(s2.slots@), s0.params, seeding),
        seeding[0] == adopting.last(),
        seeding.last() == s4.rng,
    ensures
        stats_stepped(s0, s4, records),
        forall|j: int|
            0 <= j < s0.slots@.len() ==> (#[trigger] s2.slots@[j]).game_over == ends_now(
                s0.slots@,
                s0.cfg,
                records,
                j,
            ),
{
    lemma_who(s0, s1, stepping, finished, records);
    let n = s0.slots@.len();
    let on = going_on(stepping, finished);
    assert forall|j: int| 0 <= j < n implies (#[trigger] s2.slots@[j]).game_over == finished[j] by {
        assert(played_at(
            s0.slots@,
            s0.histories@,
            s0.cfg,
            s1.slots@,
            s1.histories@,
            stepping,
            finished,
            records,
            j,
        ));
        assert(!s0.slots@[j].game_over);
    }
    assert(overs(s2.slots@) =~= finished);
    assert forall|j: int| 0 <= j < n implies #[trigger] adopted_at::<V>(
        s4.slots@,
        s0.arena,
        on,
        s0.params,
        adopting,
        j,
    ) by {
        assert(adopted_at::<V>(s2.slots@, s0.arena, on, s0.params, adopting, j));
        assert(s2.slots@[j].game_over == finished[j]);
        if on[j] {
            assert(s4.slots@[j] == s2.slots@[j]);
        }
    }
    assert(roots_adopted::<V>(s4.slots@, s0.arena, on, s0.params, adopting));
    assert(stats_stepped_by(s0, s4, records, moving, adopting, seeding));
    reveal(stats_stepped);
}

/// A game that ends is kept whole.
proof fn lemma_completed<V: Variant>(
    s0: Search<V>,
    s1: Search<V>,
    s3: Search<V>,
    s4: Search<V>,
    stepping: Seq<bool>,
    finished: Seq<bool>,
    records: Seq<StepRecord<V::Target>>,
    j: int,
)
    requires
        0 <= j < s0.slots@.len(),
        s3.slots@.len() == s0.slots@.len(),
        s3.histories == s1.histories,
        s3.completed == s0.completed,
        played_at(
            s0.slots@,
            s0.histories@,
            s0.cfg,
            s1.slots@,
            s1.histories@,
            stepping,
            finished,
            records,
            j,
        ),
        forall|i: int|
            0 <= i < s0.slots@.len() ==> (#[trigger] s3.slots@[i]).game_over == ends_now(
                s0.slots@,
                s0.cfg,
                records,
                i,
            ),
        reseeded_at(
            s3.slots@,
            s3.histories@,
            s4.slots@,
            s4.histories@,
            s4.completed@,
            s3.completed@.len() as int,
            j,
        ),
    ensures
        completed_at(s0, s4, records, j),
{
    lemma_over(s0.slots@, s0.cfg, records, s3.slots@, j as nat);
    assert(s3.slots@[j].game_over == ends_now(s0.slots@, s0.cfg, records, j));
}

/// What a step does.
pub open spec fn stepped<V: Variant>(
    s0: Search<V>,
    s: Search<V>,
    records: Seq<StepRecord<V::Target>>,
) -> bool {
    let ends = ends_below(s0.slots@, s0.cfg, records, s0.slots@.len());
    &&& s == (Search {
        slots: s.slots,
        arena: s.arena,
        histories: s.histories,
        completed: s.completed,
        rng: s.rng,
        scratch: s.scratch,
        diag: s.diag,
        ..s0
    })
    &&& records.len() == min_nat(
        ready_below(s0.slots@, s0.cfg, s0.slots@.len()),
        s0.cfg.t as nat,
    )
    &&& forall|j: int|
        0 <= j < s0.slots@.len() ==> #[trigger] stepped_at(
            s0.slots@,
            s0.histories@,
            s0.cfg,
            s0.arena,
            s.slots@,
            s.histories@,
            records,
            j,
        )
    &&& swept(
        s.slots@,
        steppers(s0.slots@, s0.cfg),
        enders(s0.slots@, s0.cfg, records),
        s0.arena,
        s.arena,
    )
    &&& s.completed@.len() == s0.completed@.len() + ends
    &&& forall|k: int|
        0 <= k < s0.completed@.len() ==> #[trigger] s.completed@[k] == s0.completed@[k]
    &&& forall|j: int|
        0 <= j < s0.slots@.len() ==> #[trigger] completed_at(s0, s, records, j)
    &&& s.diag.steps == s0.diag.steps.wrapping_add(1)
    &&& s.diag.games_finished == s0.diag.games_finished.wrapping_add(ends as u64)
    &&& s.diag.nodes_deleted == s0.diag.nodes_deleted.wrapping_add(
        (s0.arena.live - s.arena.live) as u64,
    )
    &&& tally_of(s.diag) == nodes_tally(
        s.slots@,
        steppers(s0.slots@, s0.cfg),
        enders(s0.slots@, s0.cfg, records),
        tally_of(s0.diag),
        s0.arena.nodes@,
        s0.arena.nodes@.len(),
    )
    &&& step_keeps(s0.diag, s.diag)
    &&& stats_stepped(s0, s, records)
}

/// The counters that no step touches.
pub open spec fn step_keeps(d0: Diagnostics, d: Diagnostics) -> bool {
    d == (Diagnostics {
        steps: d.steps,
        games_finished: d.games_finished,
        nodes_deleted: d.nodes_deleted,
        reach_tested: d.reach_tested,
        reach_kept: d.reach_kept,
        id_histogram: d.id_histogram,
        max_id_count: d.max_id_count,
        full_node_survivors: d.full_node_survivors,
        ..d0
    })
}

/// The phases of a step add up to it.
proof fn lemma_stepped<V: Variant>(
    s0: Search<V>,
    s1: Search<V>,
    s2: Search<V>,
    s3: Search<V>,
    s4: Search<V>,
    stepping: Seq<bool>,
    finished: Seq<bool>,
    records: Seq<StepRecord<V::Target>>,
)
    requires
        s0.wf(),
        s0.settled(),
        stats_stepped(s0, s4, records),
        forall|j: int|
            0 <= j < s0.slots@.len() ==> #[trigger] completed_at(s0, s4, records, j),
        s1 == (Search {
            slots: s1.slots,
            histories: s1.histories,
            rng: s1.rng,
            scratch: s1.scratch,
            ..s0
        }),
        s1.scratch.wf(),
        s1.slots@.len() == s0.slots@.len(),
        s1.histories@.len() == s0.slots@.len(),
        stepping.len() == s0.slots@.len(),
        finished.len() == s0.slots@.len(),
        records.len() == min_nat(
            ready_below(s0.slots@, s0.cfg, s0.slots@.len()),
            s0.cfg.t as nat,
        ),
        forall|j: int|
            0 <= j < s0.slots@.len() ==> #[trigger] played_at(
                s0.slots@,
                s0.histories@,
                s0.cfg,
                s1.slots@,
                s1.histories@,
                stepping,
                finished,
                records,
                j,
            ),
        s2 == (Search { slots: s2.slots, rng: s2.rng, ..s1 }),
        s2.slots@.len() == s1.slots@.len(),
        forall|j: int|
            0 <= j < s1.slots@.len() ==> (if stepping[j] && !finished[j] {
                adopted(s1.slots@[j], #[trigger] s2.slots@[j], s1.arena)
            } else {
                s2.slots@[j] == s1.slots@[j]
            }),
        s3 == (Search { arena: s3.arena, diag: s3.diag, ..s2 }),
        swept(s2.slots@, stepping, finished, s2.arena, s3.arena),
        s3.diag.wf(),
        s3.diag.nodes_deleted == s2.diag.nodes_deleted.wrapping_add(
            (s2.arena.live - s3.arena.live) as u64,
        ),
        tally_of(s3.diag) == nodes_tally(
            s2.slots@,
            stepping,
            finished,
            tally_of(s2.diag),
            s2.arena.nodes@,
            s2.arena.nodes@.len(),
        ),
        s3.diag.steps == s2.diag.steps,
        s3.diag.games_finished == s2.diag.games_finished,
        step_keeps(s2.diag, s3.diag),
        s4 == (Search {
            slots: s4.slots,
            histories: s4.histories,
            completed: s4.completed,
            diag: s4.diag,
            rng: s4.rng,
            ..s3
        }),
        s4.slots@.len() == s3.slots@.len(),
        s4.histories@.len() == s3.slots@.len(),
        s4.completed@.len() == s3.completed@.len() + over_below(s3.slots@, s3.slots@.len()),
        forall|k: int|
            0 <= k < s3.completed@.len() ==> #[trigger] s4.completed@[k] == s3.completed@[k],
        forall|k: int|
            s3.completed@.len() <= k < s4.completed@.len() ==> of_game_over(
                s3.slots@,
                s3.histories@,
                (#[trigger] s4.completed@[k])@,
            ),
        forall|j: int|
            0 <= j < s3.slots@.len() ==> #[trigger] reseeded_at(
                s3.slots@,
                s3.histories@,
                s4.slots@,
                s4.histories@,
                s4.completed@,
                s3.completed@.len() as int,
                j,
            ),
        s4.diag.wf(),
        s4.diag.games_finished == s3.diag.games_finished.wrapping_add(
            over_below(s3.slots@, s3.slots@.len()) as u64,
        ),
        s4.diag.steps == s3.diag.steps.wrapping_add(1),
        s4.diag == (Diagnostics {
            steps: s4.diag.steps,
            games_finished: s4.diag.games_finished,
            ..s3.diag
        }),
    ensures
        s4.wf(),
        s4.settled(),
        stepped(s0, s4, records),
{
    let g = s0.slots@.len();
    assert forall|j: int| 0 <= j < g implies ({
        &&& stepping[j] == steps_now(s0.slots@, s0.cfg, j)
        &&& finished[j] == ends_now(s0.slots@, s0.cfg, records, j)
        &&& (#[trigger] s2.slots@[j]).game_over == finished[j]
        &&& stepped_at(
            s0.slots@,
            s0.histories@,
            s0.cfg,
            s0.arena,
            s4.slots@,
            s4.histories@,
            records,
            j,
        )
        &&& seated(s4.slots@[j], s4.cfg)
        &&& history_ok(s4.histories@[j]@, j, s4.slots@[j].root.game)
        &&& s4.slots@[j].waiting_on is None
        &&& s4.slots@[j].path.steps@.len() == 0
        &&& !finished[j] ==> s4.slots@[j] == s2.slots@[j]
        &&& finished[j] ==> history_done(s1.histories@[j]@)
    }) by {
        lemma_stepped_slot(s0, s1, s2, s3, s4, stepping, finished, records, j);
    }
    lemma_over(s0.slots@, s0.cfg, records, s2.slots@, g);
    assert(stepping =~= steppers(s0.slots@, s0.cfg)) by {
        assert forall|j: int| 0 <= j < g implies stepping[j] == steppers(s0.slots@, s0.cfg)[j] by {
            assert(s2.slots@[j].game_over == finished[j]);
        }
    }
    assert(finished =~= enders(s0.slots@, s0.cfg, records)) by {
        assert forall|j: int| 0 <= j < g implies finished[j] == enders(
            s0.slots@,
            s0.cfg,
            records,
        )[j] by {
            assert(s2.slots@[j].game_over == finished[j]);
        }
    }
    lemma_swept_same(s2.slots@, s4.slots@, stepping, finished, s0.arena, s3.arena);
    lemma_tally_same(
        s2.slots@,
        s4.slots@,
        stepping,
        finished,
        tally_of(s0.diag),
        s0.arena,
        s0.arena.nodes@.len(),
    );
    lemma_sweep_leaves(s2.slots@, stepping, finished, s0.arena, s3.arena);
    lemma_swept_ok(s2.slots@, stepping, finished, s0.arena, s3.arena);
    assert forall|j: int| 0 <= j < s4.slots@.len() implies seated(
        #[trigger] s4.slots@[j],
        s4.cfg,
    ) && s4.slots@[j].waiting_on is None && s4.slots@[j].path.steps@.len() == 0 by {
        assert(s2.slots@[j].game_over == finished[j]);
    }
    assert forall|j: int| 0 <= j < s4.slots@.len() implies history_ok(
        (#[trigger] s4.histories@[j])@,
        j,
        s4.slots@[j].root.game,
    ) by {
        assert(s2.slots@[j].game_over == finished[j]);
    }
    assert forall|k: int| 0 <= k < s4.completed@.len() implies history_done(
        (#[trigger] s4.completed@[k])@,
    ) by {
        if k < s3.completed@.len() {
            assert(s4.completed@[k] == s0.completed@[k]);
        } else {
            let j = choose|j: int|
                0 <= j < s3.slots@.len() && s3.slots@[j].game_over && (
                #[trigger] s3.histories@[j])@ == s4.completed@[k]@;
            assert(s2.slots@[j].game_over == finished[j]);
        }
    }
    assert forall|j: int| 0 <= j < g implies #[trigger] stepped_at(
        s0.slots@,
        s0.histories@,
        s0.cfg,
        s0.arena,
        s4.slots@,
        s4.histories@,
        records,
        j,
    ) by {
        assert(s2.slots@[j].game_over == finished[j]);
    }
}

/// A step, for one slot.
proof fn lemma_stepped_slot<V: Variant>(
    s0: Search<V>,
    s1: Search<V>,
    s2: Search<V>,
    s3: Search<V>,
    s4: Search<V>,
    stepping: Seq<bool>,
    finished: Seq<bool>,
    records: Seq<StepRecord<V::Target>>,
    j: int,
)
    requires
        s0.wf(),
        s0.settled(),
        0 <= j < s0.slots@.len(),
        s1.arena == s0.arena,
        s4.cfg == s0.cfg,
        s3.histories == s1.histories,
        s3.slots == s2.slots,
        played_at(
            s0.slots@,
            s0.histories@,
            s0.cfg,
            s1.slots@,
            s1.histories@,
            stepping,
            finished,
            records,
            j,
        ),
        if stepping[j] && !finished[j] {
            adopted(s1.slots@[j], s2.slots@[j], s1.arena)
        } else {
            s2.slots@[j] == s1.slots@[j]
        },
        reseeded_at(
            s3.slots@,
            s3.histories@,
            s4.slots@,
            s4.histories@,
            s4.completed@,
            s3.completed@.len() as int,
            j,
        ),
    ensures
        stepping[j] == steps_now(s0.slots@, s0.cfg, j),
        finished[j] == ends_now(s0.slots@, s0.cfg, records, j),
        s2.slots@[j].game_over == finished[j],
        stepped_at(
            s0.slots@,
            s0.histories@,
            s0.cfg,
            s0.arena,
            s4.slots@,
            s4.histories@,
            records,
            j,
        ),
        seated(s4.slots@[j], s4.cfg),
        history_ok(s4.histories@[j]@, j, s4.slots@[j].root.game),
        s4.slots@[j].waiting_on is None,
        s4.slots@[j].path.steps@.len() == 0,
        !finished[j] ==> s4.slots@[j] == s2.slots@[j],
        finished[j] ==> history_done(s1.histories@[j]@),
{
    assert(seated(s0.slots@[j], s0.cfg));
    assert(history_ok(s0.histories@[j]@, j, s0.slots@[j].root.game));
    assert(s0.slots@[j].waiting_on is None && s0.slots@[j].path.steps@.len() == 0);
    if stepping[j] {
        let r = records[ready_below(s0.slots@, s0.cfg, j as nat) as int];
        lemma_record_ok(s0.slots@[j].root.game, r, s1.slots@[j].root.game);
        if finished[j] {
            lemma_history_done(s1.histories@[j]@, j, s1.slots@[j].root.game);
        }
    }
}

/// The sweep goes by the roots of the games that go on.
proof fn lemma_swept_same<S, P>(
    s: Seq<Slot<S, P>>,
    t: Seq<Slot<S, P>>,
    stepping: Seq<bool>,
    finished: Seq<bool>,
    a: Arena<S>,
    b: Arena<S>,
)
    requires
        a.wf(),
        claimed(a, s.len() as int),
        t.len() == s.len(),
        finished.len() == s.len(),
        forall|j: int| 0 <= j < s.len() && !finished[j] ==> #[trigger] t[j] == s[j],
        swept(s, stepping, finished, a, b),
    ensures
        swept(t, stepping, finished, a, b),
{
    assert forall|i: int| 0 <= i < a.nodes@.len() implies #[trigger] swept_at(
        t,
        stepping,
        finished,
        a,
        b,
        i,
    ) by {
        assert(swept_at(s, stepping, finished, a, b, i));
        if a.is_live(i) {
            let n = a.nodes@[i];
            assert forall|id: u16| #[trigger] n.listed().contains(id) implies stale(
                s,
                stepping,
                finished,
                n.game.cells@,
                id,
            ) == stale(t, stepping, finished, n.game.cells@, id) by {
                assert(id < s.len());
                if !finished[id as int] {
                    assert(t[id as int] == s[id as int]);
                }
            }
            assert(kept(s, stepping, finished, n) == kept(t, stepping, finished, n)) by {
                if kept(s, stepping, finished, n) {
                    let id = choose|id: u16| #[trigger]
                        n.listed().contains(id) && !stale(
                            s,
                            stepping,
                            finished,
                            n.game.cells@,
                            id,
                        );
                    assert(n.listed().contains(id) && !stale(
                        t,
                        stepping,
                        finished,
                        n.game.cells@,
                        id,
                    ));
                }
                if kept(t, stepping, finished, n) {
                    let id = choose|id: u16| #[trigger]
                        n.listed().contains(id) && !stale(
                            t,
                            stepping,
                            finished,
                            n.game.cells@,
                            id,
                        );
                    assert(n.listed().contains(id) && !stale(
                        s,
                        stepping,
                        finished,
                        n.game.cells@,
                        id,
                    ));
                }
            }
            if b.is_live(i) {
                assert(pruned(t, stepping, finished, n, b.nodes@[i])) by {
                    assert(pruned(s, stepping, finished, n, b.nodes@[i]));
                    let list = n.listed();
                    assert forall|m: int| 0 <= m < list.len() implies (#[trigger] list[m])
                        < s.len() by {
                        assert(list.contains(list[m]));
                    }
                    lemma_lists_same(
                        s,
                        t,
                        stepping,
                        finished,
                        n.game.cells@,
                        list,
                        n.id_cursor,
                        (0, 0),
                        list.len(),
                    );
                    assert forall|id: u16| #[trigger]
                        b.nodes@[i].listed().contains(id) <==> n.listed().contains(id) && !stale(
                            t,
                            stepping,
                            finished,
                            n.game.cells@,
                            id,
                        ) by {
                        if n.listed().contains(id) {
                            assert(stale(s, stepping, finished, n.game.cells@, id) == stale(
                                t,
                                stepping,
                                finished,
                                n.game.cells@,
                                id,
                            ));
                        }
                    }
                }
            }
        }
    }
}

/// The sweep keeps the arena in order, and no node waits that did not wait before.
proof fn lemma_swept_ok<S, P>(
    s: Seq<Slot<S, P>>,
    stepping: Seq<bool>,
    finished: Seq<bool>,
    a: Arena<S>,
    b: Arena<S>,
)
    requires
        arena_ok(a),
        swept(s, stepping, finished, a, b),
    ensures
        arena_ok(b),
        forall|i: int| #[trigger]
            b.is_live(i) ==> pending(b.nodes@[i].flags) == pending(a.nodes@[i].flags),
{
    assert forall|i: int| #[trigger] b.is_live(i) implies node_ok(b.nodes@[i]) && pending(
        b.nodes@[i].flags,
    ) == pending(a.nodes@[i].flags) by {
        assert(a.is_live(i));
        assert(swept_at(s, stepping, finished, a, b, i));
    }
}

/// So many times true.
pub open spec fn all_true(n: nat) -> Seq<bool> {
    Seq::new(n, |j: int| true)
}

impl<V: Variant> Search<V> {
    /// A search over fresh games at the opening, which get their roots' noise in slot order
    /// from the generator that the seed gives.
    pub fn new(cfg: Config, params: V::Params, seed: u64) -> (s: Self)
        requires
            cfg.g <= MAX_GAMES,
            fits(cfg.node_capacity),
        ensures
            s.wf(),
            s.settled(),
            s.cfg == cfg,
            s.params == params,
            forall|i: int| 0 <= i < cfg.g ==> fresh(#[trigger] s.slots@[i]),
            exists|rngs: Seq<Rng>| #[trigger]
                slots_seeded::<V>(s.slots@, all_true(cfg.g as nat), params, rngs)
                    && rngs[0].state() == seeded(seed) && rngs.last() == s.rng,
            s.arena.live == 0,
            s.arena.nodes@.len() == 0,
            s.arena.capacity == cfg.node_capacity,
            s.arena.overflows == 0,
            claims_reach(s.slots@, s.arena),
            s.completed@.len() == 0,
            s.buffer.targets@.len() == 0,
            s.buffer.groups@.len() == 0,
            s.diag.blank(),
    {
        let mut rng = Rng::new(seed);
        let ghost all = all_true(cfg.g as nat);
        let ghost mut rngs: Seq<Rng> = seq![rng];
        let mut slots: Vec<Slot<V::Stats, V::Prob>> = Vec::new();
        let mut histories: Vec<Vec<StepRecord<V::Target>>> = Vec::new();
        let mut i: usize = 0;
        while i < cfg.g
            invariant
                i <= cfg.g,
                slots@.len() == i,
                histories@.len() == i,
                forall|j: int| 0 <= j < i ==> fresh(#[trigger] slots@[j]),
                forall|j: int| 0 <= j < i ==> (#[trigger] histories@[j])@.len() == 0,
                all == all_true(cfg.g as nat),
                rngs.len() == i + 1,
                rngs[0].state() == seeded(seed),
                rngs[i as int] == rng,
                forall|j: int|
                    0 <= j < i ==> #[trigger] seeded_at::<V>(slots@, all, params, rngs, j),
            decreases cfg.g - i,
        {
            let ghost here = slots@;
            let ghost past = rngs;
            let mut slot: Slot<V::Stats, V::Prob> = Slot::default();
            seed_slot::<V>(&mut slot, &params, &mut rng);
            slots.push(slot);
            proof {
                rngs = rngs.push(rng);
                assert forall|j: int| 0 <= j < i + 1 implies #[trigger] seeded_at::<V>(
                    slots@,
                    all,
                    params,
                    rngs,
                    j,
                ) by {
                    if j < i {
                        assert(seeded_at::<V>(here, all, params, past, j));
                        assert(slots@[j] == here[j]);
                    }
                }
            }
            histories.push(Vec::new());
            i = i + 1;
        }
        assert(slots_seeded::<V>(slots@, all, params, rngs));
        let s = Search {
            arena: Arena::new(&cfg),
            slots,
            diag: Diagnostics::new(),
            buffer: Buffer::new(cfg.b),
            histories,
            completed: Vec::new(),
            rng,
            scratch: Scratch::new(),
            cfg,
            params,
        };
        assert forall|j: int| 0 <= j < s.slots@.len() implies seated(
            #[trigger] s.slots@[j],
            s.cfg,
        ) by {
            assert(fresh(s.slots@[j]));
        }
        assert forall|j: int| 0 <= j < s.slots@.len() implies history_ok(
            (#[trigger] s.histories@[j])@,
            j,
            s.slots@[j].root.game,
        ) by {
            assert(fresh(s.slots@[j]));
        }
        s
    }

    /// Games that have done their share of simulations and are waiting to move.
    pub fn ready(&self) -> (n: usize)
        ensures
            n == ready_below(self.slots@, self.cfg, self.slots@.len()),
    {
        let mut n: usize = 0;
        let mut i: usize = 0;
        while i < self.slots.len()
            invariant
                i <= self.slots@.len(),
                n <= i,
                n == ready_below(self.slots@, self.cfg, i as nat),
            decreases self.slots@.len() - i,
        {
            if self.slots[i].ready(&self.cfg) {
                n = n + 1;
            }
            i = i + 1;
        }
        n
    }

    /// The second half of a cycle: write the model's readings of the buffer's rows, one each,
    /// where they belong, back up every game that waited, and step if enough games are ready.
    /// Returns the training records from the step, if one happened.
    pub fn complete_evaluation(&mut self, readings: &Vec<V::Reading>) -> (records: Vec<
        StepRecord<V::Target>,
    >)
        requires
            old(self).wf(),
            old(self).asking(),
            readings@.len() >= old(self).buffer.targets@.len(),
        ensures
            final(self).wf(),
            final(self).settled(),
            final(self).diag.cycles == old(self).diag.cycles.wrapping_add(1),
            exists|mid: Search<V>| #[trigger]
                completes(*old(self), readings@, mid, *final(self), records@),
    {
        let ghost s0 = *self;
        self.absorb(readings);
        let ghost told = *self;
        self.diag.cycles = self.diag.cycles.wrapping_add(1);
        let ghost mid = *self;
        proof {
            assert(learns(s0, readings@, mid)) by {
                reveal(learns);
                let (slots, rows, arenas, rngs) = choose|
                    slots: Seq<Slot<V::Stats, V::Prob>>,
                    rows: Map<u32, usize>,
                    arenas: Seq<Arena<V::Stats>>,
                    rngs: Seq<Rng>,
                | #[trigger]
                    learns_by(s0, readings@, told, slots, rows, arenas, rngs);
                assert(learns_by(s0, readings@, mid, slots, rows, arenas, rngs));
            }
            assert forall|j: int| 0 <= j < s0.slots@.len() implies absorbed(
                s0.slots@[j],
                #[trigger] mid.slots@[j],
                s0.buffer,
                j,
            ) by {}
            assert(mid.wf() && mid.settled());
        }
        if self.ready() >= self.cfg.t {
            let records = self.step();
            assert(completes(s0, readings@, mid, *self, records@));
            records
        } else {
            let records: Vec<StepRecord<V::Target>> = Vec::new();
            assert(completes(s0, readings@, mid, *self, records@));
            records
        }
    }

    /// Forget all shared nodes and root statistics, as after a network update: every root is
    /// to be evaluated anew. Games, histories and the random stream stay as they are. What was
    /// in flight is dropped.
    pub fn clear_for_new_model(&mut self)
        requires
            old(self).wf(),
        ensures
            final(self).wf(),
            final(self).settled(),
            final(self).same_games(old(self)),
            final(self).rng == old(self).rng,
            final(self).diag == old(self).diag,
            final(self).arena.live == 0,
            final(self).arena.nodes@.len() == 0,
            final(self).arena.capacity == old(self).arena.capacity,
            final(self).arena.overflows == old(self).arena.overflows,
            claims_reach(final(self).slots@, final(self).arena),
            final(self).buffer.targets@.len() == 0,
            forall|j: int|
                0 <= j < old(self).slots@.len() ==> flushed(
                    old(self).slots@[j],
                    #[trigger] final(self).slots@[j],
                ),
    {
        let ghost s0 = *self;
        self.arena.clear();
        self.buffer.clear();
        let mut i: usize = 0;
        while i < self.slots.len()
            invariant
                i <= self.slots@.len(),
                s0 == *old(self),
                self.slots@.len() == s0.slots@.len(),
                *self == (Search {
                    slots: self.slots,
                    arena: self.arena,
                    buffer: self.buffer,
                    ..s0
                }),
                self.arena.wf(),
                self.arena.nodes@.len() == 0,
                self.arena.live == 0,
                self.arena.capacity == s0.arena.capacity,
                self.arena.overflows == s0.arena.overflows,
                self.buffer.wf(),
                self.buffer.positions@.len() == s0.buffer.positions@.len(),
                self.buffer.targets@.len() == 0,
                forall|j: int| 0 <= j < i ==> flushed(s0.slots@[j], #[trigger] self.slots@[j]),
                forall|j: int| i <= j < s0.slots@.len() ==> #[trigger] self.slots@[j] == s0.slots@[j],
            decreases self.slots@.len() - i,
        {
            self.slots[i].root.stats = V::Stats::default();
            self.slots[i].root.pending = true;
            self.slots[i].sim_count = 0;
            self.slots[i].path.clear();
            self.slots[i].waiting_on = None;
            i = i + 1;
        }
        assert forall|j: int| 0 <= j < self.slots@.len() implies seated(
            #[trigger] self.slots@[j],
            self.cfg,
        ) by {
            assert(seated(s0.slots@[j], s0.cfg));
            assert(flushed(s0.slots@[j], self.slots@[j]));
        }
        assert forall|j: int| 0 <= j < self.slots@.len() implies history_ok(
            (#[trigger] self.histories@[j])@,
            j,
            self.slots@[j].root.game,
        ) by {
            assert(history_ok(s0.histories@[j]@, j, s0.slots@[j].root.game));
            assert(flushed(s0.slots@[j], self.slots@[j]));
        }
    }

    /// The histories of the games that have ended since they were last taken, in the order in
    /// which they ended.
    pub fn take_completed_histories(&mut self) -> (done: Vec<Vec<StepRecord<V::Target>>>)
        ensures
            done@ == old(self).completed@,
            final(self).completed@.len() == 0,
            *final(self) == (Search { completed: final(self).completed, ..*old(self) }),
            old(self).wf() ==> final(self).wf(),
            old(self).settled() ==> final(self).settled(),
            old(self).asking() ==> final(self).asking(),
    {
        let ghost s0 = *self;
        let mut done: Vec<Vec<StepRecord<V::Target>>> = Vec::new();
        std::mem::swap(&mut done, &mut self.completed);
        proof {
            if s0.wf() {
                assert forall|j: int| 0 <= j < self.slots@.len() implies seated(
                    #[trigger] self.slots@[j],
                    self.cfg,
                ) by {
                    assert(seated(s0.slots@[j], s0.cfg));
                }
            }
        }
        done
    }
}

/// What completing an evaluation does: the readings settle the search, and then, if at least
/// `t` games are ready, a step moves the first `t` of them.
pub open spec fn completes<V: Variant>(
    s0: Search<V>,
    readings: Seq<V::Reading>,
    mid: Search<V>,
    s: Search<V>,
    records: Seq<StepRecord<V::Target>>,
) -> bool {
    &&& mid.wf()
    &&& mid.settled()
    &&& mid.same_games(&s0)
    &&& mid.buffer == s0.buffer
    &&& mid.diag == (Diagnostics { cycles: s0.diag.cycles.wrapping_add(1), ..s0.diag })
    &&& learns(s0, readings, mid)
    &&& forall|j: int|
        0 <= j < s0.slots@.len() ==> absorbed(s0.slots@[j], #[trigger] mid.slots@[j], s0.buffer, j)
    &&& forall|i: int| #[trigger] mid.arena.is_live(i) <==> s0.arena.is_live(i)
    &&& forall|i: int| #[trigger]
        s0.arena.is_live(i) ==> node_answered(s0.arena.nodes@[i], mid.arena.nodes@[i])
    &&& if ready_below(mid.slots@, mid.cfg, mid.slots@.len()) >= mid.cfg.t {
        stepped(mid, s, records)
    } else {
        s == mid && records.len() == 0
    }
}

/// A slot after a flush: its root state is to be evaluated anew, and nothing is in flight.
pub open spec fn flushed<S: Default, P>(before: Slot<S, P>, after: Slot<S, P>) -> bool {
    &&& after.root.game == before.root.game
    &&& after.root.key == before.root.key
    &&& after.root.pending
    &&& call_ensures(S::default, (), after.root.stats)
    &&& after.sim_count == 0
    &&& after.path.steps@.len() == 0
    &&& after.waiting_on is None
    &&& after.occupied == before.occupied
    &&& after.game_over == before.game_over
    &&& after.descents == before.descents
    &&& after.last_depth == before.last_depth
}

// ---------------------------------------------------------------------------------- laws

/// A search never holds more nodes than its configuration allows.
pub proof fn lemma_within_budget<V: Variant>(s: Search<V>)
    requires
        s.wf(),
    ensures
        s.arena.live <= s.cfg.node_capacity,
        s.arena.nodes@.len() <= s.cfg.node_capacity,
{
}

/// Between cycles every slot has a game in play that waits for nothing and has not done more
/// than its share, and every node is used by some game.
pub proof fn lemma_between_cycles<V: Variant>(s: Search<V>)
    requires
        s.wf(),
        s.settled(),
    ensures
        forall|j: int|
            0 <= j < s.slots@.len() ==> {
                &&& (#[trigger] s.slots@[j]).occupied
                &&& !s.slots@[j].game_over
                &&& s.slots@[j].waiting_on is None
                &&& s.slots@[j].path.steps@.len() == 0
                &&& s.slots@[j].sim_count <= s.cfg.s
            },
        forall|i: int| #[trigger]
            s.arena.is_live(i) ==> s.arena.nodes@[i].id_count > 0 && !pending(
                s.arena.nodes@[i].flags,
            ),
        s.arena.live <= s.cfg.node_capacity,
{
    assert forall|j: int| 0 <= j < s.slots@.len() implies {
        &&& (#[trigger] s.slots@[j]).occupied
        &&& !s.slots@[j].game_over
        &&& s.slots@[j].waiting_on is None
        &&& s.slots@[j].path.steps@.len() == 0
        &&& s.slots@[j].sim_count <= s.cfg.s
    } by {
        assert(seated(s.slots@[j], s.cfg));
    }
}

/// Once at least `t` games are ready, a step emits exactly `t` records.
pub proof fn lemma_step_emits_t<V: Variant>(
    s0: Search<V>,
    s: Search<V>,
    records: Seq<StepRecord<V::Target>>,
)
    requires
        stepped(s0, s, records),
        ready_below(s0.slots@, s0.cfg, s0.slots@.len()) >= s0.cfg.t,
    ensures
        records.len() == s0.cfg.t,
{
}

/// A game that is ready but not among the first `t` that are stays ready for a later step.
pub proof fn lemma_others_stay_ready<V: Variant>(
    s0: Search<V>,
    s: Search<V>,
    records: Seq<StepRecord<V::Target>>,
    j: int,
)
    requires
        stepped(s0, s, records),
        0 <= j < s0.slots@.len(),
        s0.slots@[j].is_ready(s0.cfg),
        !steps_now(s0.slots@, s0.cfg, j),
    ensures
        s.slots@[j].is_ready(s.cfg),
{
    assert(stepped_at(
        s0.slots@,
        s0.histories@,
        s0.cfg,
        s0.arena,
        s.slots@,
        s.histories@,
        records,
        j,
    ));
}

/// After a step, a node is kept only by games that are in play, and by a game that moved only
/// if it can still reach it.
pub proof fn lemma_step_keeps_reachable<V: Variant>(
    s0: Search<V>,
    s: Search<V>,
    records: Seq<StepRecord<V::Target>>,
    i: int,
    id: u16,
)
    requires
        s0.wf(),
        s.wf(),
        stepped(s0, s, records),
        s.arena.is_live(i),
        s.arena.nodes@[i].listed().contains(id),
    ensures
        id < s.slots@.len(),
        steps_now(s0.slots@, s0.cfg, id as int) ==> reachable(
            s.slots@[id as int].root.game.cells@,
            s.arena.nodes@[i].game.cells@,
        ),
{
    lemma_sweep_leaves(
        s.slots@,
        steppers(s0.slots@, s0.cfg),
        enders(s0.slots@, s0.cfg, records),
        s0.arena,
        s.arena,
    );
    assert(claims_below(s.arena.nodes@[i], s.slots@.len() as int));
}

/// A step keeps every node only for games that can still reach it.
pub proof fn lemma_step_keeps_reach<V: Variant>(
    s0: Search<V>,
    s: Search<V>,
    records: Seq<StepRecord<V::Target>>,
)
    requires
        s0.wf(),
        s.wf(),
        stepped(s0, s, records),
        claims_reach(s0.slots@, s0.arena),
    ensures
        claims_reach(s.slots@, s.arena),
{
    assert forall|i: int, id: u16|
        #![trigger s.arena.is_live(i), s.arena.nodes@[i].listed().contains(id)]
        s.arena.is_live(i) && s.arena.nodes@[i].listed().contains(id) implies reachable(
        s.slots@[id as int].root.game.cells@,
        s.arena.nodes@[i].game.cells@,
    ) by {
        lemma_step_keeps_reachable(s0, s, records, i, id);
        if !steps_now(s0.slots@, s0.cfg, id as int) {
            assert(stepped_at(
                s0.slots@,
                s0.histories@,
                s0.cfg,
                s0.arena,
                s.slots@,
                s.histories@,
                records,
                id as int,
            ));
            assert(swept_at(
                s.slots@,
                steppers(s0.slots@, s0.cfg),
                enders(s0.slots@, s0.cfg, records),
                s0.arena,
                s.arena,
                i,
            ));
            assert(s0.arena.nodes@[i].listed().contains(id));
        }
    }
}

/// Completing an evaluation keeps every node only for games that can still reach it.
pub proof fn lemma_completion_keeps_reach<V: Variant>(
    s0: Search<V>,
    readings: Seq<V::Reading>,
    mid: Search<V>,
    s: Search<V>,
    records: Seq<StepRecord<V::Target>>,
)
    requires
        s0.wf(),
        s.wf(),
        completes(s0, readings, mid, s, records),
        claims_reach(s0.slots@, s0.arena),
    ensures
        claims_reach(s.slots@, s.arena),
{
    assert(claims_reach(mid.slots@, mid.arena)) by {
        assert forall|i: int, id: u16|
            #![trigger mid.arena.is_live(i), mid.arena.nodes@[i].listed().contains(id)]
            mid.arena.is_live(i) && mid.arena.nodes@[i].listed().contains(id) implies reachable(
            mid.slots@[id as int].root.game.cells@,
            mid.arena.nodes@[i].game.cells@,
        ) by {
            assert(s0.arena.is_live(i));
            assert(node_answered(s0.arena.nodes@[i], mid.arena.nodes@[i]));
            assert(s0.arena.nodes@[i].listed() =~= mid.arena.nodes@[i].listed());
            assert(claims_below(s0.arena.nodes@[i], s0.cfg.g as int));
            assert(mid.slots@[id as int].root.game == s0.slots@[id as int].root.game);
        }
    }
    if ready_below(mid.slots@, mid.cfg, mid.slots@.len()) >= mid.cfg.t {
        lemma_step_keeps_reach(mid, s, records);
    }
}

/// A search whose games are all fresh builds no node in its first collection: it queues the
/// roots.
pub proof fn lemma_fresh_queues_roots<V: Variant>(s: Search<V>)
    requires
        forall|j: int| 0 <= j < s.slots@.len() ==> fresh(#[trigger] s.slots@[j]),
    ensures
        none_descends(s, s.slots@.len() as int),
{
}

} // verus!
