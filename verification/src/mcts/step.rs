//! Moving games on: draw a move, adopt the new root, and reseed the slots of finished games.
use vstd::prelude::*;

use crate::balance::{lemma_move_takes, lemma_playable_bound, opening};
use crate::board::SQUARES;
use crate::game::{
    any_playable, lemma_moves_open, lemma_open_one, squares_of, Game,
};
use crate::legal::{cell_of, legal_cell, lemma_cell_of, LEGAL_WORDS};
use crate::mcts::arena::Arena;
use crate::mcts::collect::seated;
use crate::mcts::config::Config;
use crate::mcts::descent::{lemma_playing_step, playing, root_ok};
use crate::mcts::diagnostics::Diagnostics;
use crate::mcts::record::{
    board_outcome, history_done, history_ok, lemma_history_on, replay, StepRecord,
};
use crate::mcts::slot::{Root, Slot};
use crate::mcts::stats::{enroot, masks, masks_of, roots};
use crate::mcts::variant::{draw, draws, Variant};
use crate::moves::moved;
use crate::rng::Rng;
use crate::scratch::Scratch;
use crate::zobrist;
use crate::zobrist::{hash_of, is_state};

verus! {

// ---------------------------------------------------------------------------------- seeding

/// A slot with a fresh game at the opening, whose root is not evaluated.
pub open spec fn fresh<S, P>(s: Slot<S, P>) -> bool {
    &&& s.occupied
    &&& !s.game_over
    &&& s.root.game.cells@ == opening()
    &&& s.root.game.move_count == 0
    &&& s.root.key == zobrist::OPENING
    &&& s.root.pending
    &&& s.sim_count == 0
    &&& s.descents == 0
    &&& s.path.steps@.len() == 0
    &&& s.waiting_on is None
    &&& root_ok(s.root)
    &&& !s.root.game.finished
}

/// The opening can be searched.
pub proof fn lemma_opening_plays(g: Game)
    requires
        g.wf(),
        g.cells@ == opening(),
        g.move_count == 0,
    ensures
        playing(g),
        !g.finished,
        hash_of(squares_of(g.cells@)) == zobrist::OPENING,
{
    let o = opening();
    lemma_cell_of(0);
    lemma_cell_of(4);
    assert(g.may_play(cell_of(0), 0));
    assert(g.may_play(cell_of(4), 1));
    lemma_open_one(o, true, 0, 0);
    lemma_open_one(o, true, 1, 4);
    lemma_playable_bound(o);
    let s = squares_of(o);
    assert forall|k: int| 0 <= k < SQUARES implies is_state(#[trigger] s[k]) by {
        lemma_cell_of(k);
    }
    zobrist::lemma_opening_hash(SQUARES as nat);
}

/// The statistics of a root in position `g`, made from `base`. `rngs` is the generator before
/// and after.
pub open spec fn rooted<V: Variant>(
    g: Game,
    base: V::Stats,
    params: V::Params,
    rngs: (Rng, Rng),
    stats: V::Stats,
) -> bool {
    exists|legal: [[u64; LEGAL_WORDS]; 2]| #[trigger]
        masks_of(g, legal) && roots::<V>((base, rngs.0), legal, params, (stats, rngs.1))
}

/// The statistics of a root in position `g`, made from fresh ones.
pub open spec fn rooted_fresh<V: Variant>(
    g: Game,
    params: V::Params,
    rngs: (Rng, Rng),
    stats: V::Stats,
) -> bool {
    exists|base: V::Stats| #[trigger]
        call_ensures(<V::Stats as Default>::default, (), base) && rooted::<V>(
            g,
            base,
            params,
            rngs,
            stats,
        )
}

/// The statistics of an adopted root: made from a copy of those of the node for it, or from
/// fresh ones where there is none.
pub open spec fn rerooted<V: Variant>(
    root: Root<V::Stats>,
    a: Arena<V::Stats>,
    params: V::Params,
    rngs: (Rng, Rng),
) -> bool {
    if a.has(root.key) {
        exists|base: V::Stats| #[trigger]
            cloned::<V::Stats>(a.nodes@[a.index@[root.key] as int].stats, base) && rooted::<V>(
                root.game,
                base,
                params,
                rngs,
                root.stats,
            )
    } else {
        rooted_fresh::<V>(root.game, params, rngs, root.stats)
    }
}

/// Put a slot back to a fresh game at the opening, with an unevaluated root.
pub fn seed_slot<V: Variant>(slot: &mut Slot<V::Stats, V::Prob>, params: &V::Params, rng: &mut Rng)
    ensures
        fresh(*final(slot)),
        rooted_fresh::<V>(
            final(slot).root.game,
            *params,
            (*old(rng), *final(rng)),
            final(slot).root.stats,
        ),
{
    slot.root.game = Game::new();
    proof {
        lemma_opening_plays(slot.root.game);
    }
    slot.root.key = zobrist::hash(&slot.root.game.squares());
    slot.root.stats = V::Stats::default();
    slot.root.pending = true;
    slot.occupied = true;
    slot.game_over = false;
    slot.sim_count = 0;
    slot.descents = 0;
    slot.path.clear();
    slot.waiting_on = None;
    let legal = masks(&slot.root.game);
    let ghost base = slot.root.stats;
    let ghost r0 = *rng;
    // with no priors yet this is pure noise, which is what stops thousands of identical roots
    // from all choosing the same square
    enroot::<V>(&mut slot.root.stats, legal, params, rng);
    assert(roots::<V>((base, r0), legal, *params, (slot.root.stats, *rng)));
    assert(rooted::<V>(slot.root.game, base, *params, (r0, *rng), slot.root.stats));
}

// ----------------------------------------------------------------------------------- moving

/// A game moved from `before` to `after`, as its record says: the position it moved from, a
/// move legal there, and the outcome if the move ended the game.
pub open spec fn moved_on<T>(before: Game, r: StepRecord<T>, after: Game) -> bool {
    &&& r.cells@ == squares_of(before.cells@)
    &&& r.played@[0] < SQUARES
    &&& r.played@[1] < SQUARES
    &&& before.may_play(cell_of(r.played@[0] as int), 0)
    &&& before.may_play(cell_of(r.played@[1] as int), 1)
    &&& after.cells@ == moved(
        before.cells@,
        cell_of(r.played@[0] as int),
        cell_of(r.played@[1] as int),
    )
    &&& after.move_count == before.move_count + 1
    &&& r.finished == after.finished
    &&& r.values@ == (if after.finished {
        board_outcome(after.cells@)
    } else {
        seq![0i8, 0i8]
    })
}

/// A slot whose game has just moved: the root is the new position, with the old statistics,
/// and the count of simulations starts again.
pub open spec fn slot_moved<S, P, T>(
    before: Slot<S, P>,
    r: StepRecord<T>,
    after: Slot<S, P>,
) -> bool {
    &&& moved_on(before.root.game, r, after.root.game)
    &&& root_ok(after.root)
    &&& after.root.pending == before.root.pending
    &&& after.occupied == before.occupied
    &&& after.game_over == r.finished
    &&& after.sim_count == 0
    &&& after.path.steps@.len() == 0
    &&& after.waiting_on is None
}

/// The target that a record holds is that of the root, and its moves were drawn from it:
/// player 0's, which leaves the generator at `mid`, then player 1's.
pub open spec fn record_drawn_by<V: Variant>(
    root: Root<V::Stats>,
    r: StepRecord<V::Target>,
    rngs: (Rng, Rng),
    legal: [[u64; LEGAL_WORDS]; 2],
    mid: Rng,
) -> bool {
    &&& masks_of(root.game, legal)
    &&& call_ensures(V::target, (&root.stats, legal), r.policy)
    &&& draws::<V>(r.policy, legal@[0], 0, rngs.0, mid, r.played@[0] as int)
    &&& draws::<V>(r.policy, legal@[1], 1, mid, rngs.1, r.played@[1] as int)
}

/// The target that a record holds is that of the root, and its moves were drawn from it.
/// `rngs` is the generator before and after.
pub open spec fn record_drawn<V: Variant>(
    root: Root<V::Stats>,
    r: StepRecord<V::Target>,
    rngs: (Rng, Rng),
) -> bool {
    exists|legal: [[u64; LEGAL_WORDS]; 2], mid: Rng| #[trigger]
        record_drawn_by::<V>(root, r, rngs, legal, mid)
}

/// The generator at slot `j` when the games move: from `rngs[j]` to `rngs[j + 1]` by the draws
/// of its move, if it moves.
pub open spec fn move_drawn_at<V: Variant>(
    slots: Seq<Slot<V::Stats, V::Prob>>,
    cfg: Config,
    records: Seq<StepRecord<V::Target>>,
    rngs: Seq<Rng>,
    j: int,
) -> bool {
    if steps_now(slots, cfg, j) {
        record_drawn::<V>(
            slots[j].root,
            records[ready_below(slots, cfg, j as nat) as int],
            (rngs[j], rngs[j + 1]),
        )
    } else {
        rngs[j + 1] == rngs[j]
    }
}

/// The moves drawn, in slot order.
pub open spec fn moves_drawn<V: Variant>(
    slots: Seq<Slot<V::Stats, V::Prob>>,
    cfg: Config,
    records: Seq<StepRecord<V::Target>>,
    rngs: Seq<Rng>,
) -> bool {
    &&& rngs.len() == slots.len() + 1
    &&& forall|j: int|
        0 <= j < slots.len() ==> #[trigger] move_drawn_at::<V>(slots, cfg, records, rngs, j)
}

/// Emit a game's target and move it on by a move drawn from it.
fn play_move<V: Variant>(
    id: u16,
    slot: &mut Slot<V::Stats, V::Prob>,
    rng: &mut Rng,
    scratch: &mut Scratch,
) -> (r: StepRecord<V::Target>)
    requires
        root_ok(old(slot).root),
        !old(slot).root.game.finished,
        !old(slot).game_over,
        old(scratch).wf(),
    ensures
        r.id == id,
        slot_moved(*old(slot), r, *final(slot)),
        record_drawn::<V>(old(slot).root, r, (*old(rng), *final(rng))),
        final(scratch).wf(),
{
    let ghost root = slot.root;
    let ghost r0 = *rng;
    let ghost g = slot.root.game;
    let legal: [[u64; LEGAL_WORDS]; 2] = masks(&slot.root.game);
    proof {
        lemma_moves_open(g.cells@, g.move_count == 0, 0, legal@[0]@);
        lemma_moves_open(g.cells@, g.move_count == 0, 1, legal@[1]@);
    }
    let policy = V::target(&slot.root.stats, legal);
    let first: usize = draw::<V>(&policy, legal[0], 0, rng);
    let ghost r1 = *rng;
    let second: usize = draw::<V>(&policy, legal[1], 1, rng);
    proof {
        lemma_cell_of(first as int);
        lemma_cell_of(second as int);
        lemma_move_takes(g.cells@, cell_of(first as int), cell_of(second as int));
        lemma_playable_bound(moved(g.cells@, cell_of(first as int), cell_of(second as int)));
    }
    let cells = slot.root.game.squares();
    slot.root.key = zobrist::step(slot.root.key, &cells, first, second);
    slot.root.game.action_step(legal_cell(first), legal_cell(second), scratch);
    proof {
        zobrist::lemma_step_matches_rehash(g.cells@, first as int, second as int);
        lemma_playing_step(g, slot.root.game, first as int, second as int);
    }
    slot.sim_count = 0;
    slot.path.clear();
    slot.waiting_on = None;
    let finished: bool = slot.root.game.finished;
    let values: [i8; 2] = if finished {
        slot.root.game.terminal_values()
    } else {
        [0, 0]
    };
    if finished {
        slot.game_over = true;
    }
    proof {
        let after = slot.root.game;
        if finished {
            assert(after.scores@ =~= seq![after.scores@[0], after.scores@[1]]);
        } else {
            assert(values@ =~= seq![0i8, 0i8]);
        }
    }
    let r = StepRecord {
        id,
        cells,
        policy,
        played: [first as u8, second as u8],
        finished,
        values,
    };
    assert(record_drawn_by::<V>(root, r, (r0, *rng), legal, r1));
    r
}

/// How many of the first `n` games are ready.
pub open spec fn ready_below<S, P: Copy>(slots: Seq<Slot<S, P>>, cfg: Config, n: nat) -> nat
    decreases n,
{
    if n == 0 {
        0
    } else {
        ready_below(slots, cfg, (n - 1) as nat) + (if slots[n - 1].is_ready(cfg) {
            1nat
        } else {
            0
        })
    }
}

/// Does the game of slot `j` move when the first `t` ready games move?
pub open spec fn steps_now<S, P: Copy>(slots: Seq<Slot<S, P>>, cfg: Config, j: int) -> bool {
    slots[j].is_ready(cfg) && ready_below(slots, cfg, j as nat) < cfg.t
}

/// What a step makes of slot `j` and its history.
pub open spec fn played_at<S, P: Copy, T: Clone>(
    before: Seq<Slot<S, P>>,
    h0: Seq<Vec<StepRecord<T>>>,
    cfg: Config,
    after: Seq<Slot<S, P>>,
    h: Seq<Vec<StepRecord<T>>>,
    stepping: Seq<bool>,
    finished: Seq<bool>,
    records: Seq<StepRecord<T>>,
    j: int,
) -> bool {
    let r = records[ready_below(before, cfg, j as nat) as int];
    &&& stepping[j] == steps_now(before, cfg, j)
    &&& !stepping[j] ==> after[j] == before[j] && h[j] == h0[j] && !finished[j]
    &&& stepping[j] ==> {
        &&& ready_below(before, cfg, j as nat) < records.len()
        &&& r.id == j
        &&& slot_moved(before[j], r, after[j])
        &&& finished[j] == r.finished
        &&& history_ok(h[j]@, j, after[j].root.game)
        &&& h[j]@.len() == h0[j]@.len() + 1
        &&& h[j]@.drop_last() == h0[j]@
        &&& h[j]@.last().same_but_policy(&r)
        &&& cloned::<T>(r.policy, h[j]@.last().policy)
    }
}

/// Move the first `t` ready games on. Returns who moved, who finished, and the records.
pub(crate) fn play_ready<V: Variant>(
    slots: &mut Vec<Slot<V::Stats, V::Prob>>,
    histories: &mut Vec<Vec<StepRecord<V::Target>>>,
    cfg: &Config,
    rng: &mut Rng,
    scratch: &mut Scratch,
) -> (r: (Vec<bool>, Vec<bool>, Vec<StepRecord<V::Target>>))
    requires
        old(slots)@.len() <= 65536,
        old(histories)@.len() == old(slots)@.len(),
        forall|j: int| 0 <= j < old(slots)@.len() ==> seated(#[trigger] old(slots)@[j], *cfg),
        forall|j: int|
            0 <= j < old(slots)@.len() ==> history_ok(
                (#[trigger] old(histories)@[j])@,
                j,
                old(slots)@[j].root.game,
            ),
        old(scratch).wf(),
    ensures
        final(slots)@.len() == old(slots)@.len(),
        final(histories)@.len() == old(slots)@.len(),
        r.0@.len() == old(slots)@.len(),
        r.1@.len() == old(slots)@.len(),
        r.2@.len() == min_nat(
            ready_below(old(slots)@, *cfg, old(slots)@.len()),
            cfg.t as nat,
        ),
        forall|j: int|
            0 <= j < old(slots)@.len() ==> #[trigger] played_at(
                old(slots)@,
                old(histories)@,
                *cfg,
                final(slots)@,
                final(histories)@,
                r.0@,
                r.1@,
                r.2@,
                j,
            ),
        exists|rngs: Seq<Rng>| #[trigger]
            moves_drawn::<V>(old(slots)@, *cfg, r.2@, rngs) && rngs[0] == *old(rng)
                && rngs.last() == *final(rng),
        final(scratch).wf(),
{
    let ghost mut rngs: Seq<Rng> = seq![*rng];
    let ghost s0 = slots@;
    let ghost h0 = histories@;
    let mut stepping: Vec<bool> = Vec::new();
    let mut finished: Vec<bool> = Vec::new();
    let mut records: Vec<StepRecord<V::Target>> = Vec::new();
    let mut i: usize = 0;
    while i < slots.len()
        invariant
            i <= slots@.len(),
            s0 == old(slots)@,
            h0 == old(histories)@,
            slots@.len() == s0.len(),
            s0.len() <= 65536,
            histories@.len() == s0.len(),
            h0.len() == s0.len(),
            forall|j: int| 0 <= j < s0.len() ==> seated(#[trigger] s0[j], *cfg),
            forall|j: int|
                0 <= j < s0.len() ==> history_ok((#[trigger] h0[j])@, j, s0[j].root.game),
            stepping@.len() == i,
            finished@.len() == i,
            records@.len() == min_nat(ready_below(s0, *cfg, i as nat), cfg.t as nat),
            forall|j: int|
                0 <= j < i ==> #[trigger] played_at(
                    s0,
                    h0,
                    *cfg,
                    slots@,
                    histories@,
                    stepping@,
                    finished@,
                    records@,
                    j,
                ),
            rngs.len() == i + 1,
            rngs[0] == *old(rng),
            rngs[i as int] == *rng,
            forall|j: int|
                0 <= j < i ==> #[trigger] move_drawn_at::<V>(s0, *cfg, records@, rngs, j),
            forall|j: int| i <= j < s0.len() ==> #[trigger] slots@[j] == s0[j],
            forall|j: int| i <= j < s0.len() ==> #[trigger] histories@[j] == h0[j],
            scratch.wf(),
        decreases slots@.len() - i,
    {
        let ghost s1 = slots@;
        let ghost h1 = histories@;
        let ghost t1 = stepping@;
        let ghost f1 = finished@;
        let ghost r1 = records@;
        assert(slots@[i as int] == s0[i as int]);
        assert(histories@[i as int] == h0[i as int]);
        assert(seated(s0[i as int], *cfg));
        assert(history_ok(h0[i as int]@, i as int, s0[i as int].root.game));
        if records.len() < cfg.t && slots[i].ready(cfg) {
            let r = play_move::<V>(i as u16, &mut slots[i], rng, scratch);
            let copy = r.clone();
            proof {
                lemma_history_on(
                    h0[i as int]@,
                    copy,
                    i as int,
                    s0[i as int].root.game,
                    slots@[i as int].root.game,
                );
            }
            histories[i].push(copy);
            stepping.push(true);
            finished.push(r.finished);
            records.push(r);
            proof {
                assert(histories@[i as int]@.drop_last() =~= h0[i as int]@);
                assert(records@[r1.len() as int] == r);
                assert(r1.len() == ready_below(s0, *cfg, i as nat));
            }
        } else {
            stepping.push(false);
            finished.push(false);
        }
        proof {
            assert forall|j: int| 0 <= j < i + 1 implies #[trigger] played_at(
                s0,
                h0,
                *cfg,
                slots@,
                histories@,
                stepping@,
                finished@,
                records@,
                j,
            ) by {
                if j < i {
                    assert(played_at(s0, h0, *cfg, s1, h1, t1, f1, r1, j));
                    assert(slots@[j] == s1[j]);
                    assert(histories@[j] == h1[j]);
                    assert(stepping@[j] == t1[j]);
                    assert(finished@[j] == f1[j]);
                    let q = ready_below(s0, *cfg, j as nat) as int;
                    if q < r1.len() {
                        assert(records@[q] == r1[q]);
                    }
                } else {
                    assert(stepping@[i as int] == steps_now(s0, *cfg, i as int));
                }
            }
            let past = rngs;
            rngs = rngs.push(*rng);
            assert forall|j: int| 0 <= j < i + 1 implies #[trigger] move_drawn_at::<V>(
                s0,
                *cfg,
                records@,
                rngs,
                j,
            ) by {
                if j < i {
                    assert(move_drawn_at::<V>(s0, *cfg, r1, past, j));
                    assert(played_at(s0, h0, *cfg, s1, h1, t1, f1, r1, j));
                    let q = ready_below(s0, *cfg, j as nat) as int;
                    if steps_now(s0, *cfg, j) {
                        assert(records@[q] == r1[q]);
                    }
                }
            }
            assert forall|j: int| i + 1 <= j < s0.len() implies #[trigger] slots@[j] == s0[j] by {
                assert(s1[j] == s0[j]);
            }
            assert forall|j: int| i + 1 <= j < s0.len() implies #[trigger] histories@[j] == h0[j] by {
                assert(h1[j] == h0[j]);
            }
        }
        i = i + 1;
    }
    assert(moves_drawn::<V>(old(slots)@, *cfg, records@, rngs));
    assert(rngs.last() == *rng);
    (stepping, finished, records)
}

pub open spec fn min_nat(a: nat, b: nat) -> nat {
    if a < b {
        a
    } else {
        b
    }
}

// --------------------------------------------------------------------------------- adopting

/// A slot that adopted its root: the position is the same, and the root waits for its
/// evaluation exactly if the search had no node for it.
pub open spec fn adopted<S, P>(before: Slot<S, P>, after: Slot<S, P>, a: Arena<S>) -> bool {
    &&& after.root.game == before.root.game
    &&& after.root.key == before.root.key
    &&& after.root.pending == !a.has(before.root.key)
    &&& after == (Slot { root: after.root, ..before })
}

/// Adopt a new root, inheriting the statistics of the node for it if the search already built
/// one, and fresh ones otherwise.
fn inherit<S: Clone + Default, P>(slot: &mut Slot<S, P>, arena: &Arena<S>)
    requires
        arena.wf(),
    ensures
        adopted(*old(slot), *final(slot), *arena),
        arena.has(old(slot).root.key) ==> cloned::<S>(
            arena.nodes@[arena.index@[old(slot).root.key] as int].stats,
            final(slot).root.stats,
        ),
        !arena.has(old(slot).root.key) ==> call_ensures(S::default, (), final(slot).root.stats),
{
    match arena.get(slot.root.key) {
        Some(node) => {
            assert(arena.is_live(node as int));
            slot.root.stats = arena.node(node).stats.clone();
            slot.root.pending = false;
        },
        None => {
            slot.root.stats = S::default();
            slot.root.pending = true;
        },
    }
}

/// The generator at slot `j` when roots are adopted: from `rngs[j]` to `rngs[j + 1]` by the
/// noise of its root, if it adopts one.
pub open spec fn adopted_at<V: Variant>(
    slots: Seq<Slot<V::Stats, V::Prob>>,
    a: Arena<V::Stats>,
    adopting: Seq<bool>,
    params: V::Params,
    rngs: Seq<Rng>,
    j: int,
) -> bool {
    if adopting[j] {
        rerooted::<V>(slots[j].root, a, params, (rngs[j], rngs[j + 1]))
    } else {
        rngs[j + 1] == rngs[j]
    }
}

/// Roots adopted, in slot order.
pub open spec fn roots_adopted<V: Variant>(
    slots: Seq<Slot<V::Stats, V::Prob>>,
    a: Arena<V::Stats>,
    adopting: Seq<bool>,
    params: V::Params,
    rngs: Seq<Rng>,
) -> bool {
    &&& rngs.len() == slots.len() + 1
    &&& forall|j: int|
        0 <= j < slots.len() ==> #[trigger] adopted_at::<V>(slots, a, adopting, params, rngs, j)
}

/// Who moved and goes on.
pub open spec fn going_on(stepping: Seq<bool>, finished: Seq<bool>) -> Seq<bool> {
    Seq::new(stepping.len(), |j: int| stepping[j] && !finished[j])
}

/// Let the games that moved and go on adopt their new roots.
pub(crate) fn adopt_roots<V: Variant>(
    slots: &mut Vec<Slot<V::Stats, V::Prob>>,
    arena: &Arena<V::Stats>,
    stepping: &Vec<bool>,
    finished: &Vec<bool>,
    params: &V::Params,
    rng: &mut Rng,
)
    requires
        arena.wf(),
        stepping@.len() == old(slots)@.len(),
        finished@.len() == old(slots)@.len(),
    ensures
        final(slots)@.len() == old(slots)@.len(),
        forall|j: int|
            0 <= j < old(slots)@.len() ==> (if stepping@[j] && !finished@[j] {
                adopted(old(slots)@[j], #[trigger] final(slots)@[j], *arena)
            } else {
                final(slots)@[j] == old(slots)@[j]
            }),
        exists|rngs: Seq<Rng>| #[trigger]
            roots_adopted::<V>(
                final(slots)@,
                *arena,
                going_on(stepping@, finished@),
                *params,
                rngs,
            ) && rngs[0] == *old(rng) && rngs.last() == *final(rng),
{
    let ghost on = going_on(stepping@, finished@);
    let ghost mut rngs: Seq<Rng> = seq![*rng];
    let ghost s0 = slots@;
    let mut i: usize = 0;
    while i < slots.len()
        invariant
            i <= slots@.len(),
            s0 == old(slots)@,
            slots@.len() == s0.len(),
            arena.wf(),
            stepping@.len() == s0.len(),
            finished@.len() == s0.len(),
            forall|j: int|
                0 <= j < i ==> (if stepping@[j] && !finished@[j] {
                    adopted(s0[j], #[trigger] slots@[j], *arena)
                } else {
                    slots@[j] == s0[j]
                }),
            on == going_on(stepping@, finished@),
            rngs.len() == i + 1,
            rngs[0] == *old(rng),
            rngs[i as int] == *rng,
            forall|j: int|
                0 <= j < i ==> #[trigger] adopted_at::<V>(
                    slots@,
                    *arena,
                    on,
                    *params,
                    rngs,
                    j,
                ),
            forall|j: int| i <= j < s0.len() ==> #[trigger] slots@[j] == s0[j],
        decreases slots@.len() - i,
    {
        let ghost here = slots@;
        let ghost past = rngs;
        if stepping[i] && !finished[i] {
            assert(slots@[i as int] == s0[i as int]);
            inherit(&mut slots[i], arena);
            let legal = masks(&slots[i].root.game);
            let ghost base = slots@[i as int].root.stats;
            let ghost r0 = *rng;
            enroot::<V>(&mut slots[i].root.stats, legal, params, rng);
            proof {
                let root = slots@[i as int].root;
                assert(roots::<V>((base, r0), legal, *params, (root.stats, *rng)));
                assert(rooted::<V>(root.game, base, *params, (r0, *rng), root.stats));
                assert(rerooted::<V>(root, *arena, *params, (r0, *rng)));
            }
        }
        proof {
            rngs = rngs.push(*rng);
            assert forall|j: int| 0 <= j < i + 1 implies #[trigger] adopted_at::<V>(
                slots@,
                *arena,
                on,
                *params,
                rngs,
                j,
            ) by {
                if j < i {
                    assert(adopted_at::<V>(here, *arena, on, *params, past, j));
                    assert(slots@[j] == here[j]);
                }
            }
        }
        i = i + 1;
    }
    assert(roots_adopted::<V>(slots@, *arena, on, *params, rngs));
}

// -------------------------------------------------------------------------------- reseeding

/// How many of the first `n` games are over.
pub open spec fn over_below<S, P>(slots: Seq<Slot<S, P>>, n: nat) -> nat
    decreases n,
{
    if n == 0 {
        0
    } else {
        over_below(slots, (n - 1) as nat) + (if slots[n - 1].game_over {
            1nat
        } else {
            0
        })
    }
}

/// What reseeding makes of slot `j` and its history: a game that is over makes way for a fresh
/// one, and its history is complete.
pub open spec fn reseeded_at<S, P, T>(
    before: Seq<Slot<S, P>>,
    h0: Seq<Vec<StepRecord<T>>>,
    after: Seq<Slot<S, P>>,
    h: Seq<Vec<StepRecord<T>>>,
    done: Seq<Vec<StepRecord<T>>>,
    from: int,
    j: int,
) -> bool {
    &&& !before[j].game_over ==> after[j] == before[j] && h[j] == h0[j]
    &&& before[j].game_over ==> {
        &&& fresh(after[j])
        &&& h[j]@.len() == 0
        &&& from + over_below(before, j as nat) < done.len()
        &&& done[from + over_below(before, j as nat)]@ == h0[j]@
    }
}

/// Is this the history of a game that is over?
pub open spec fn of_game_over<S, P, T>(
    slots: Seq<Slot<S, P>>,
    histories: Seq<Vec<StepRecord<T>>>,
    h: Seq<StepRecord<T>>,
) -> bool {
    exists|j: int| 0 <= j < slots.len() && slots[j].game_over && (#[trigger] histories[j])@ == h
}

/// The generator at slot `j` when slots are reseeded: from `rngs[j]` to `rngs[j + 1]` by the
/// noise of its root, if its game is over.
pub open spec fn seeded_at<V: Variant>(
    slots: Seq<Slot<V::Stats, V::Prob>>,
    over: Seq<bool>,
    params: V::Params,
    rngs: Seq<Rng>,
    j: int,
) -> bool {
    if over[j] {
        rooted_fresh::<V>(
            slots[j].root.game,
            params,
            (rngs[j], rngs[j + 1]),
            slots[j].root.stats,
        )
    } else {
        rngs[j + 1] == rngs[j]
    }
}

/// Slots reseeded, in slot order.
pub open spec fn slots_seeded<V: Variant>(
    slots: Seq<Slot<V::Stats, V::Prob>>,
    over: Seq<bool>,
    params: V::Params,
    rngs: Seq<Rng>,
) -> bool {
    &&& rngs.len() == slots.len() + 1
    &&& forall|j: int|
        0 <= j < slots.len() ==> #[trigger] seeded_at::<V>(slots, over, params, rngs, j)
}

/// Whose game is over.
pub open spec fn overs<S, P>(slots: Seq<Slot<S, P>>) -> Seq<bool> {
    Seq::new(slots.len(), |j: int| slots[j].game_over)
}

/// Reseed the slots of the games that are over. Reuse of a slot index is safe only because the
/// sweep just removed that id.
pub(crate) fn reseed<V: Variant>(
    slots: &mut Vec<Slot<V::Stats, V::Prob>>,
    histories: &mut Vec<Vec<StepRecord<V::Target>>>,
    completed: &mut Vec<Vec<StepRecord<V::Target>>>,
    diag: &mut Diagnostics,
    params: &V::Params,
    rng: &mut Rng,
)
    requires
        old(histories)@.len() == old(slots)@.len(),
        old(diag).wf(),
        old(slots)@.len() <= 65536,
    ensures
        final(slots)@.len() == old(slots)@.len(),
        final(histories)@.len() == old(slots)@.len(),
        final(completed)@.len() == old(completed)@.len() + over_below(
            old(slots)@,
            old(slots)@.len(),
        ),
        forall|k: int|
            0 <= k < old(completed)@.len() ==> #[trigger] final(completed)@[k] == old(
                completed,
            )@[k],
        forall|k: int|
            old(completed)@.len() <= k < final(completed)@.len() ==> of_game_over(
                old(slots)@,
                old(histories)@,
                (#[trigger] final(completed)@[k])@,
            ),
        forall|j: int|
            0 <= j < old(slots)@.len() ==> #[trigger] reseeded_at(
                old(slots)@,
                old(histories)@,
                final(slots)@,
                final(histories)@,
                final(completed)@,
                old(completed)@.len() as int,
                j,
            ),
        exists|rngs: Seq<Rng>| #[trigger]
            slots_seeded::<V>(final(slots)@, overs(old(slots)@), *params, rngs) && rngs[0] == *old(
                rng,
            ) && rngs.last() == *final(rng),
        final(diag).wf(),
        final(diag).games_finished == old(diag).games_finished.wrapping_add(
            over_below(old(slots)@, old(slots)@.len()) as u64,
        ),
        *final(diag) == (Diagnostics { games_finished: final(diag).games_finished, ..*old(diag) }),
{
    let ghost s0 = slots@;
    let ghost h0 = histories@;
    let ghost c0 = completed@;
    let ghost from = c0.len() as int;
    let ghost d0 = *diag;
    let ghost over = overs(s0);
    let ghost mut rngs: Seq<Rng> = seq![*rng];
    let mut i: usize = 0;
    while i < slots.len()
        invariant
            i <= slots@.len(),
            s0 == old(slots)@,
            h0 == old(histories)@,
            c0 == old(completed)@,
            from == c0.len(),
            d0 == *old(diag),
            slots@.len() == s0.len(),
            s0.len() <= 65536,
            histories@.len() == s0.len(),
            completed@.len() == c0.len() + over_below(s0, i as nat),
            over_below(s0, i as nat) <= i,
            forall|k: int| 0 <= k < c0.len() ==> #[trigger] completed@[k] == c0[k],
            forall|k: int|
                c0.len() <= k < completed@.len() ==> of_game_over(
                    s0,
                    h0,
                    (#[trigger] completed@[k])@,
                ),
            forall|j: int|
                0 <= j < i ==> #[trigger] reseeded_at(
                    s0,
                    h0,
                    slots@,
                    histories@,
                    completed@,
                    from,
                    j,
                ),
            over == overs(s0),
            rngs.len() == i + 1,
            rngs[0] == *old(rng),
            rngs[i as int] == *rng,
            forall|j: int|
                0 <= j < i ==> #[trigger] seeded_at::<V>(slots@, over, *params, rngs, j),
            forall|j: int| i <= j < s0.len() ==> #[trigger] slots@[j] == s0[j],
            forall|j: int| i <= j < s0.len() ==> #[trigger] histories@[j] == h0[j],
            diag.wf(),
            diag.games_finished == d0.games_finished.wrapping_add(
                over_below(s0, i as nat) as u64,
            ),
            *diag == (Diagnostics { games_finished: diag.games_finished, ..d0 }),
        decreases slots@.len() - i,
    {
        let ghost s1 = slots@;
        let ghost h1 = histories@;
        let ghost c1 = completed@;
        assert(slots@[i as int] == s0[i as int]);
        assert(histories@[i as int] == h0[i as int]);
        if slots[i].game_over {
            seed_slot::<V>(&mut slots[i], params, rng);
            let mut done: Vec<StepRecord<V::Target>> = Vec::new();
            std::mem::swap(&mut done, &mut histories[i]);
            completed.push(done);
            diag.games_finished = diag.games_finished.wrapping_add(1);
            assert(completed@[c1.len() as int]@ == h0[i as int]@);
        }
        proof {
            assert forall|j: int| 0 <= j < i + 1 implies #[trigger] reseeded_at(
                s0,
                h0,
                slots@,
                histories@,
                completed@,
                from,
                j,
            ) by {
                if j < i {
                    assert(reseeded_at(s0, h0, s1, h1, c1, from, j));
                    assert(slots@[j] == s1[j]);
                    assert(histories@[j] == h1[j]);
                    if s0[j].game_over {
                        let q = from + over_below(s0, j as nat);
                        assert(completed@[q] == c1[q]);
                    }
                }
            }
            let past = rngs;
            rngs = rngs.push(*rng);
            assert forall|j: int| 0 <= j < i + 1 implies #[trigger] seeded_at::<V>(
                slots@,
                over,
                *params,
                rngs,
                j,
            ) by {
                if j < i {
                    assert(seeded_at::<V>(s1, over, *params, past, j));
                    assert(slots@[j] == s1[j]);
                }
            }
            assert forall|k: int| c0.len() <= k < completed@.len() implies of_game_over(
                s0,
                h0,
                (#[trigger] completed@[k])@,
            ) by {
                if k < c1.len() {
                    assert(completed@[k] == c1[k]);
                } else {
                    assert(completed@[k]@ == h0[i as int]@);
                }
            }
            assert forall|j: int| i + 1 <= j < s0.len() implies #[trigger] slots@[j] == s0[j] by {
                assert(s1[j] == s0[j]);
            }
            assert forall|j: int| i + 1 <= j < s0.len() implies #[trigger] histories@[j] == h0[j] by {
                assert(h1[j] == h0[j]);
            }
        }
        i = i + 1;
    }
    assert(slots_seeded::<V>(slots@, over, *params, rngs));
}

/// The history of a game that is over is done.
pub(crate) proof fn lemma_history_done<T>(h: Seq<StepRecord<T>>, id: int, g: Game)
    requires
        history_ok(h, id, g),
        g.wf(),
        g.finished,
        h.len() > 0,
        h.last().values@ == board_outcome(g.cells@),
    ensures
        history_done(h),
{
    assert(h[h.len() - 1].finished);
    assert forall|j: int| 0 <= j < h.len() implies (#[trigger] h[j]).cells@ == squares_of(
        replay(h, j as nat),
    ) && h[j].id == h[0].id && (h[j].finished <==> j == h.len() - 1) by {
        assert(h[0].id == id);
    }
}

// ------------------------------------------------------------------------- what a step does

/// The record of a move from `before`: the position, a move legal there, whether the move ends
/// the game, and then its outcome.
pub open spec fn record_ok<T>(before: Game, r: StepRecord<T>) -> bool {
    let after = moved(before.cells@, cell_of(r.played@[0] as int), cell_of(r.played@[1] as int));
    &&& r.cells@ == squares_of(before.cells@)
    &&& r.played@[0] < SQUARES
    &&& r.played@[1] < SQUARES
    &&& before.may_play(cell_of(r.played@[0] as int), 0)
    &&& before.may_play(cell_of(r.played@[1] as int), 1)
    &&& r.finished <==> !any_playable(after)
    &&& r.values@ == (if r.finished {
        board_outcome(after)
    } else {
        seq![0i8, 0i8]
    })
}

/// Does the game of slot `j` end when the first `t` ready games move?
pub open spec fn ends_now<S, P: Copy, T>(
    slots: Seq<Slot<S, P>>,
    cfg: Config,
    records: Seq<StepRecord<T>>,
    j: int,
) -> bool {
    steps_now(slots, cfg, j) && records[ready_below(slots, cfg, j as nat) as int].finished
}

/// How many of the first `n` games end.
pub open spec fn ends_below<S, P: Copy, T>(
    slots: Seq<Slot<S, P>>,
    cfg: Config,
    records: Seq<StepRecord<T>>,
    n: nat,
) -> nat
    decreases n,
{
    if n == 0 {
        0
    } else {
        ends_below(slots, cfg, records, (n - 1) as nat) + (if ends_now(
            slots,
            cfg,
            records,
            n - 1,
        ) {
            1nat
        } else {
            0
        })
    }
}

/// Who moves.
pub open spec fn steppers<S, P: Copy>(slots: Seq<Slot<S, P>>, cfg: Config) -> Seq<bool> {
    Seq::new(slots.len(), |j: int| steps_now(slots, cfg, j))
}

/// Who ends.
pub open spec fn enders<S, P: Copy, T>(
    slots: Seq<Slot<S, P>>,
    cfg: Config,
    records: Seq<StepRecord<T>>,
) -> Seq<bool> {
    Seq::new(slots.len(), |j: int| ends_now(slots, cfg, records, j))
}

/// What a step makes of the slot of a game that moved and goes on: its root is the position
/// after the move, with no simulations yet, and it waits for its evaluation exactly if the
/// search had no node for it.
pub open spec fn goes_on<S, P, T>(
    before: Slot<S, P>,
    r: StepRecord<T>,
    after: Slot<S, P>,
    a: Arena<S>,
) -> bool {
    &&& moved_on(before.root.game, r, after.root.game)
    &&& after.root.pending == !a.has(after.root.key)
    &&& after.sim_count == 0
}

/// What a step makes of slot `j`: a game that did not move is left alone, one that moved on
/// has its new root and one more record in its history, and one that ended makes way for a
/// fresh one.
pub open spec fn stepped_at<S, P: Copy, T: Clone>(
    before: Seq<Slot<S, P>>,
    h0: Seq<Vec<StepRecord<T>>>,
    cfg: Config,
    a: Arena<S>,
    after: Seq<Slot<S, P>>,
    h: Seq<Vec<StepRecord<T>>>,
    records: Seq<StepRecord<T>>,
    j: int,
) -> bool {
    let q = ready_below(before, cfg, j as nat) as int;
    &&& !steps_now(before, cfg, j) ==> after[j] == before[j] && h[j] == h0[j]
    &&& steps_now(before, cfg, j) ==> {
        &&& q < records.len()
        &&& records[q].id == j
        &&& record_ok(before[j].root.game, records[q])
        &&& records[q].finished ==> fresh(after[j]) && h[j]@.len() == 0
        &&& !records[q].finished ==> {
            &&& goes_on(before[j], records[q], after[j], a)
            &&& h[j]@.len() == h0[j]@.len() + 1
            &&& h[j]@.drop_last() == h0[j]@
            &&& h[j]@.last().same_but_policy(&records[q])
            &&& cloned::<T>(records[q].policy, h[j]@.last().policy)
        }
    }
}

/// The moves of a game that ended, as they are kept: its history, and a copy of the record of
/// its last move.
pub open spec fn kept_whole<T: Clone>(
    history: Seq<StepRecord<T>>,
    r: StepRecord<T>,
    whole: Seq<StepRecord<T>>,
) -> bool {
    &&& whole.len() == history.len() + 1
    &&& whole.drop_last() == history
    &&& whole.last().same_but_policy(&r)
    &&& cloned::<T>(r.policy, whole.last().policy)
}

/// A game that moved on has a record of it.
pub proof fn lemma_record_ok<T>(before: Game, r: StepRecord<T>, after: Game)
    requires
        moved_on(before, r, after),
        after.wf(),
    ensures
        record_ok(before, r),
{
}

/// The games that are over after the moves are those that end.
pub proof fn lemma_over<S, P: Copy, T>(
    before: Seq<Slot<S, P>>,
    cfg: Config,
    records: Seq<StepRecord<T>>,
    after: Seq<Slot<S, P>>,
    n: nat,
)
    requires
        n <= before.len(),
        forall|j: int|
            0 <= j < n ==> (#[trigger] after[j]).game_over == ends_now(before, cfg, records, j),
    ensures
        over_below(after, n) == ends_below(before, cfg, records, n),
    decreases n,
{
    if n > 0 {
        lemma_over(before, cfg, records, after, (n - 1) as nat);
        assert(after[n - 1].game_over == ends_now(before, cfg, records, n - 1));
    }
}

} // verus!
