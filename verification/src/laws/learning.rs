//! What becomes of the model's readings.
use vstd::prelude::*;

use crate::board::{HW, PLAYABLE_SQUARE};
use crate::game::Game;
use crate::laws::search::{done_below, done_searching, lemma_done_below};
use crate::legal::{holds, lemma_bit_of, lemma_cell_of, LEGAL_WORDS};
use crate::mcts::arena::Arena;
use crate::mcts::buffer::{Buffer, Target};
use crate::mcts::collect::{in_group, node_row, root_rows, seated};
use crate::mcts::descent::node_ok;
use crate::mcts::record::StepRecord;
use crate::mcts::scatter::{group_primed, member_primed, node_answer, row_primed, waiter_backed_at};
use crate::mcts::search::{
    completes, informed, learns, learns_by, stats_stepped, stats_stepped_by, Search,
};
use crate::mcts::slot::Slot;
use crate::mcts::stats::{masks_of, primes, primes_root_by, slot_primed};
use crate::mcts::step::{move_drawn_at, ready_below, record_drawn_by, steps_now};
use crate::mcts::variant::Variant;
use crate::rng::Rng;

verus! {

/// Does a mask hold exactly the squares that a player may play, cell by cell?
pub open spec fn mask_fits(legal: [u64; LEGAL_WORDS], g: Game, player: int) -> bool {
    forall|c: int|
        0 <= c < HW && (c / 16 + c % 16) % 2 == 0 ==> (#[trigger] holds(legal@, c / 2)
            <==> g.cells@[c] == PLAYABLE_SQUARE && (g.move_count > 0 || (if player == 0 {
            c % 16 < 8
        } else {
            c % 16 >= 8
        })))
}

proof fn lemma_masks_fit(legal: [[u64; LEGAL_WORDS]; 2], g: Game)
    requires
        g.wf(),
        masks_of(g, legal),
    ensures
        mask_fits(legal@[0], g, 0),
        mask_fits(legal@[1], g, 1),
{
    assert forall|p: int, c: int|
        0 <= p < 2 && 0 <= c < HW && (c / 16 + c % 16) % 2 == 0 implies (#[trigger] holds(
        legal@[p]@,
        c / 2,
    ) <==> g.cells@[c] == PLAYABLE_SQUARE && (g.move_count > 0 || (if p == 0 {
        c % 16 < 8
    } else {
        c % 16 >= 8
    }))) by {
        lemma_bit_of(c);
        lemma_cell_of(c / 2);
        assert(holds(g.legal@, c / 2) <==> g.cells@[c] == PLAYABLE_SQUARE);
        if p == 0 {
            assert(g.is_mask(legal@[0]@, 0));
        } else {
            assert(p == 1 && g.is_mask(legal@[1]@, 1));
        }
    }
}

/// A reading adopted in a position: player 0's priors with player 0's mask, then player 1's
/// with player 1's.
pub open spec fn adopts<V: Variant>(
    g: Game,
    before: V::Stats,
    reading: V::Reading,
    legal: [[u64; LEGAL_WORDS]; 2],
    after: V::Stats,
) -> bool {
    &&& mask_fits(legal@[0], g, 0)
    &&& mask_fits(legal@[1], g, 1)
    &&& exists|mid: V::Stats| {
        &&& #[trigger] call_ensures(V::set_priors, (before, &reading, legal@[0], 0usize), mid)
        &&& call_ensures(V::set_priors, (mid, &reading, legal@[1], 1usize), after)
    }
}

/// How the statistics came about.
proof fn lemma_learnt<V: Variant>(
    s0: Search<V>,
    readings: Seq<V::Reading>,
    records: Seq<StepRecord<V::Target>>,
    s: Search<V>,
    r: int,
    j: int,
)
    requires
        exists|mid: Search<V>| #[trigger] completes(s0, readings, mid, s, records),
        s0.wf(),
        s0.asking(),
        0 <= r < s0.buffer.targets@.len(),
        0 <= j < s0.slots@.len(),
    ensures
        s0.buffer.targets@[r] matches Target::Node(n) ==> exists|
            legal: [[u64; LEGAL_WORDS]; 2],
            after: V::Stats,
        | #[trigger]
            adopts::<V>(
                s0.arena.nodes@[n as int].game,
                s0.arena.nodes@[n as int].stats,
                readings[r],
                legal,
                after,
            ),
        s0.buffer.targets@[r] matches Target::Root(k) ==> s0.buffer.groups@[k as int]@.contains(
            j as u16,
        ) ==> exists|
            legal: [[u64; LEGAL_WORDS]; 2],
            mid: V::Stats,
            after: V::Stats,
            rng: Rng,
            next: Rng,
        |
            #[trigger] adopts::<V>(
                s0.slots@[j].root.game,
                s0.slots@[j].root.stats,
                readings[r],
                legal,
                mid,
            ) && #[trigger] call_ensures(
                V::make_root,
                (mid, legal, &s0.params, rng),
                (after, next),
            ),
        s0.slots@[j].waiting_on matches Some(n) ==> s0.buffer.targets@[r] == Target::Node(n)
            ==> exists|value: V::Value| #[trigger] call_ensures(V::value, (&readings[r],), value),
{
    let mid = choose|mid: Search<V>| #[trigger] completes(s0, readings, mid, s, records);
    reveal(learns);
    let (slots, rows, arenas, rngs) = choose|
        slots: Seq<Slot<V::Stats, V::Prob>>,
        rows: Map<u32, usize>,
        arenas: Seq<Arena<V::Stats>>,
        rngs: Seq<Rng>,
    | #[trigger]
        learns_by(s0, readings, mid, slots, rows, arenas, rngs);
    let b = s0.buffer;
    match b.targets@[r] {
        Target::Node(n) => {
            assert(node_row(s0.arena, b, b.targets@[r], r));
            assert(node_answer::<V>(b, r, s0.arena, readings, arenas[0]));
            let node = s0.arena.nodes@[n as int];
            let after = arenas[0].nodes@[n as int].stats;
            let legal = choose|legal: [[u64; LEGAL_WORDS]; 2]| #[trigger]
                masks_of(node.game, legal) && primes::<V>(node.stats, legal, readings[r], after);
            assert(node_ok(node));
            lemma_masks_fit(legal, node.game);
            assert(adopts::<V>(node.game, node.stats, readings[r], legal, after));
            if s0.slots@[j].waiting_on == Some(n) {
                assert(b.targets@.contains(Target::Node(n)));
                assert(rows.contains_key(n));
                let q = rows[n] as int;
                assert(b.targets@[q] == b.targets@[r]);
                assert(q == r);
                assert(waiter_backed_at::<V>(
                    slots,
                    readings,
                    rows,
                    s0.params,
                    mid.slots@,
                    arenas,
                    j,
                ));
                assert(slots[j].waiting_on == s0.slots@[j].waiting_on) by {
                    lemma_slot_waits(s0, readings, slots, arenas[0], rngs, j);
                }
            }
        },
        Target::Root(k) => {
            if b.groups@[k as int]@.contains(j as u16) {
                assert(row_primed::<V>(
                    b,
                    s0.slots@,
                    readings,
                    s0.params,
                    slots,
                    rngs,
                    r,
                ));
                let at = lemma_member::<V>(
                    b,
                    s0.slots@,
                    readings,
                    s0.params,
                    slots,
                    rngs,
                    r,
                    k,
                    j,
                );
                let root = s0.slots@[j].root;
                assert(seated(s0.slots@[j], s0.cfg));
                let (legal, between) = choose|
                    legal: [[u64; LEGAL_WORDS]; 2],
                    between: V::Stats,
                | #[trigger]
                    primes_root_by::<V>(
                        root.game,
                        (root.stats, at.0),
                        readings[r],
                        s0.params,
                        (slots[j].root.stats, at.1),
                        legal,
                        between,
                    );
                lemma_masks_fit(legal, root.game);
                assert(adopts::<V>(root.game, root.stats, readings[r], legal, between));
                assert(call_ensures(
                    V::make_root,
                    (between, legal, &s0.params, at.0),
                    (slots[j].root.stats, at.1),
                ));
            }
        },
    }
}

/// A game in the group of row `r` has had the row's reading.
proof fn lemma_member<V: Variant>(
    b: Buffer,
    before: Seq<Slot<V::Stats, V::Prob>>,
    readings: Seq<V::Reading>,
    params: V::Params,
    slots: Seq<Slot<V::Stats, V::Prob>>,
    rngs: Seq<Rng>,
    r: int,
    k: usize,
    j: int,
) -> (at: (Rng, Rng))
    requires
        row_primed::<V>(b, before, readings, params, slots, rngs, r),
        b.targets@[r] == Target::Root(k),
        0 <= j < 65536,
        b.groups@[k as int]@.contains(j as u16),
    ensures
        slot_primed::<V>(before[j], readings[r], params, at, slots[j]),
{
    let members = b.groups@[k as int]@;
    let inner = choose|inner: Seq<Rng>| #[trigger]
        group_primed::<V>(before, members, readings[r], params, slots, inner) && inner[0]
            == rngs[r] && inner.last() == rngs[r + 1];
    let m = members.index_of(j as u16);
    assert(members[m] == j as u16);
    assert(member_primed::<V>(before, members, readings[r], params, slots, inner, m));
    (inner[m], inner[m + 1])
}

/// Answering roots leaves alone what games wait on.
#[verifier::spinoff_prover]
proof fn lemma_slot_waits<V: Variant>(
    s0: Search<V>,
    readings: Seq<V::Reading>,
    slots: Seq<Slot<V::Stats, V::Prob>>,
    a: Arena<V::Stats>,
    rngs: Seq<Rng>,
    j: int,
)
    requires
        informed(s0, readings, slots, a, rngs),
        root_rows(s0.slots@, s0.buffer),
        0 <= j < s0.slots@.len() <= 65536,
    ensures
        slots[j].waiting_on == s0.slots@[j].waiting_on,
{
    let b = s0.buffer;
    if in_group(b.groups@, j) {
        let k = choose|k: int|
            0 <= k < b.groups@.len() && (#[trigger] b.groups@[k])@.contains(j as u16);
        assert(k < b.groups.len());
        let ku = k as usize;
        assert(b.targets@.contains(Target::Root(ku)));
        let r = b.targets@.index_of(Target::Root(ku));
        assert(b.targets@[r] == Target::Root(ku));
        assert(row_primed::<V>(b, s0.slots@, readings, s0.params, slots, rngs, r));
        lemma_member::<V>(b, s0.slots@, readings, s0.params, slots, rngs, r, ku, j);
    }
}

/// Each row's reading goes where the row came from. A node adopts the reading of its own row,
/// and so does the root of every game in a row's group, which then gets noise of its own. A
/// game that waited on a node is backed up with the value in the reading of that node's row.
pub proof fn lemma_readings_placed<V: Variant>(
    search: &mut Search<V>,
    readings: Vec<V::Reading>,
    records: Vec<StepRecord<V::Target>>,
    r: int,
    j: int,
)
    requires
        call_ensures(Search::<V>::complete_evaluation, (search, &readings), records),
        old(search).wf(),
        old(search).asking(),
        0 <= r < old(search).buffer.targets@.len(),
        0 <= j < old(search).slots@.len(),
    ensures
        ({
            let s0 = *old(search);
            let waits = s0.slots@[j];
            match s0.buffer.targets@[r] {
                Target::Node(n) => {
                    let node = s0.arena.nodes@[n as int];
                    &&& exists|legal: [[u64; LEGAL_WORDS]; 2], after: V::Stats| #[trigger]
                        adopts::<V>(node.game, node.stats, readings@[r], legal, after)
                    &&& waits.waiting_on == Some(n) ==> exists|value: V::Value| #[trigger]
                        call_ensures(V::value, (&readings@[r],), value)
                },
                Target::Root(k) => s0.buffer.groups@[k as int]@.contains(j as u16) ==> exists|
                    legal: [[u64; LEGAL_WORDS]; 2],
                    mid: V::Stats,
                    after: V::Stats,
                    rng: Rng,
                    next: Rng,
                |
                    #[trigger] adopts::<V>(
                        waits.root.game,
                        waits.root.stats,
                        readings@[r],
                        legal,
                        mid,
                    ) && #[trigger] call_ensures(
                        V::make_root,
                        (mid, legal, &s0.params, rng),
                        (after, next),
                    ),
            }
        }),
{
    lemma_learnt(*old(search), readings@, records@, *final(search), r, j);
}

/// The record of a game that moves holds the training target of the game's own root, made with
/// masks of exactly the squares open there, and its moves are squares of those masks.
pub proof fn lemma_record_targets<V: Variant>(
    search: &mut Search<V>,
    records: Vec<StepRecord<V::Target>>,
    j: int,
)
    requires
        call_ensures(Search::<V>::step, (search,), records),
        old(search).wf(),
        0 <= j < old(search).slots@.len(),
        done_searching(old(search).slots@[j], old(search).cfg.s),
        done_below(old(search).slots@, old(search).cfg.s, j as nat) < old(
            search,
        ).cfg.t,
    ensures
        ({
            let root = old(search).slots@[j].root;
            let r = records@[done_below(
                old(search).slots@,
                old(search).cfg.s,
                j as nat,
            )];
            exists|legal: [[u64; LEGAL_WORDS]; 2]| {
                &&& mask_fits(legal@[0], root.game, 0)
                &&& mask_fits(legal@[1], root.game, 1)
                &&& #[trigger] call_ensures(V::target, (&root.stats, legal), r.policy)
                &&& holds(legal@[0]@, r.played@[0] as int)
                &&& holds(legal@[1]@, r.played@[1] as int)
            }
        }),
{
    let s0 = *old(search);
    lemma_done_below(s0.slots@, s0.cfg, j as nat);
    reveal(stats_stepped);
    let (moving, adopting, seeding) = choose|
        moving: Seq<Rng>,
        adopting: Seq<Rng>,
        seeding: Seq<Rng>,
    | #[trigger]
        stats_stepped_by(s0, *final(search), records@, moving, adopting, seeding);
    assert(move_drawn_at::<V>(s0.slots@, s0.cfg, records@, moving, j));
    assert(steps_now(s0.slots@, s0.cfg, j));
    let root = s0.slots@[j].root;
    let r = records@[ready_below(s0.slots@, s0.cfg, j as nat) as int];
    let (legal, mid) = choose|legal: [[u64; LEGAL_WORDS]; 2], mid: Rng| #[trigger]
        record_drawn_by::<V>(root, r, (moving[j], moving[j + 1]), legal, mid);
    assert(seated(s0.slots@[j], s0.cfg));
    lemma_masks_fit(legal, root.game);
    assert(call_ensures(V::target, (&root.stats, legal), r.policy));
}

} // verus!
