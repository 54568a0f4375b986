//! What a search does for its games, cycle by cycle.
use vstd::prelude::*;

use crate::board::{
    HW, NON_PLAYABLE_SQUARE, PLAYABLE_SQUARE, PLAYER_0_MARK, PLAYER_1_MARK, REMOVED_SQUARE,
};
use crate::game::Game;
use crate::laws::rules::lemma_moved_cell;
use crate::legal::{cell_of, lemma_bit_of, lemma_cell_of};
use crate::mcts::arena::Node;
use crate::mcts::buffer::Target;
use crate::mcts::collect::{group_ok, node_row, root_row, seated};
use crate::mcts::config::Config;
use crate::mcts::record::{board_outcome, StepRecord};
use crate::mcts::search::{
    absorbed, collected, completed_at, completes, flushed, stepped, visited, Search,
};
use crate::mcts::slot::Slot;
use crate::mcts::step::{
    enders, ends_below, ends_now, fresh, ready_below, record_ok, stepped_at, steppers, steps_now,
};
use crate::mcts::sweep::{claims_below, swept_at};
use crate::mcts::train::Trainer;
use crate::mcts::variant::Variant;
use crate::moves::moved;
use crate::reach::{may_become, reachable};
use crate::score::{lemma_score_bound, score_of};
use crate::sums::{lemma_sum_eq, sum_to, unit};

verus! {

/// Is a game done with its simulations: in play, with exactly as many as were asked for?
pub open spec fn done_searching<S, P>(s: Slot<S, P>, sims: u32) -> bool {
    s.occupied && !s.game_over && s.sim_count == sims
}

/// How many of the first `n` games are done with their simulations.
pub open spec fn done_below<S, P>(slots: Seq<Slot<S, P>>, sims: u32, n: nat) -> int {
    sum_to(|k: int| unit(done_searching(slots[k], sims)), n)
}

pub(crate) proof fn lemma_done_below<S, P: Copy>(slots: Seq<Slot<S, P>>, cfg: Config, n: nat)
    ensures
        ready_below(slots, cfg, n) == done_below(slots, cfg.s, n),
    decreases n,
{
    if n > 0 {
        lemma_done_below(slots, cfg, (n - 1) as nat);
    }
}

/// A slot says it is ready exactly if its game is done with its simulations, and that it can be
/// collected if it is in play, waits for nothing and is short of simulations.
pub proof fn lemma_slot_says<S, P: Copy>(s: Slot<S, P>, cfg: Config, ready: bool, eligible: bool)
    requires
        call_ensures(Slot::<S, P>::ready, (&s, &cfg), ready),
        call_ensures(Slot::<S, P>::collectable, (&s, &cfg), eligible),
    ensures
        ready <==> s.occupied && !s.game_over && s.sim_count == cfg.s,
        eligible <==> s.occupied && !s.game_over && s.waiting_on is None && s.sim_count < cfg.s,
{
}

/// The number of games ready to move is the number that are done with their simulations.
pub proof fn lemma_ready_counted<V: Variant>(s: Search<V>, n: usize)
    requires
        call_ensures(Search::<V>::ready, (&s,), n),
    ensures
        n == sum_to(
            |k: int|
                unit(
                    s.slots@[k].occupied && !s.slots@[k].game_over && s.slots@[k].sim_count
                        == s.cfg.s,
                ),
            s.slots@.len(),
        ),
{
    lemma_done_below(s.slots@, s.cfg, s.slots@.len());
    let f = |k: int| unit(done_searching(s.slots@[k], s.cfg.s));
    let g = |k: int|
        unit(s.slots@[k].occupied && !s.slots@[k].game_over && s.slots@[k].sim_count == s.cfg.s);
    assert forall|k: int| 0 <= k < s.slots@.len() implies #[trigger] f(k) == g(k) by {}
    lemma_sum_eq(f, g, s.slots@.len());
}

// ------------------------------------------------------------------------------------- moves

/// The record of a move, by cells: the position it was made in, two squares open to their
/// players, whether it left anything to play, and if not who won.
pub open spec fn tells<T>(r: StepRecord<T>, g: Game, x: int) -> bool {
    let a0 = r.played@[0] as int;
    let a1 = r.played@[1] as int;
    let c0 = 2 * a0 + (a0 / 8) % 2;
    let c1 = 2 * a1 + (a1 / 8) % 2;
    &&& (x / 16 + x % 16) % 2 == 0 ==> r.cells@[x / 2] == g.cells@[x]
    &&& g.cells@[c0] == PLAYABLE_SQUARE
    &&& g.cells@[c1] == PLAYABLE_SQUARE
    &&& g.move_count == 0 ==> c0 % 16 < 8 && c1 % 16 >= 8
    &&& r.finished ==> left_by(g.cells@, c0, c1, x) != PLAYABLE_SQUARE
    &&& !r.finished ==> exists|y: int|
        0 <= y < HW && #[trigger] left_by(g.cells@, c0, c1, y) == PLAYABLE_SQUARE
    &&& !r.finished ==> r.values@[0] == 0 && r.values@[1] == 0
}

/// What a cell holds after two squares are played: a mark where one was, nothing to play where
/// both were one, nor diagonally next to it, and else what it held.
pub open spec fn left_by(cells: Seq<i8>, c0: int, c1: int, x: int) -> i8 {
    if c0 == c1 {
        if x == c0 || (x / 16 - c0 / 16 == 1 || x / 16 - c0 / 16 == -1) && (x % 16 - c0 % 16 == 1
            || x % 16 - c0 % 16 == -1) {
            REMOVED_SQUARE
        } else {
            cells[x]
        }
    } else if x == c0 {
        PLAYER_0_MARK
    } else if x == c1 {
        PLAYER_1_MARK
    } else {
        cells[x]
    }
}

proof fn lemma_tells<T>(r: StepRecord<T>, g: Game, x: int)
    requires
        record_ok(g, r),
        0 <= x < HW,
    ensures
        tells(r, g, x),
        r.finished ==> {
            let after = moved(
                g.cells@,
                2 * (r.played@[0] as int) + (r.played@[0] as int / 8) % 2,
                2 * (r.played@[1] as int) + (r.played@[1] as int / 8) % 2,
            );
            let p = score_of(after, PLAYER_0_MARK);
            let q = score_of(after, PLAYER_1_MARK);
            &&& r.values@[0] == 1 <==> p > q
            &&& r.values@[0] == -1 <==> p < q
            &&& r.values@[0] == 0 <==> p == q
            &&& r.values@[1] == -r.values@[0]
        },
{
    let c0 = cell_of(r.played@[0] as int);
    let c1 = cell_of(r.played@[1] as int);
    lemma_cell_of(r.played@[0] as int);
    lemma_cell_of(r.played@[1] as int);
    lemma_bit_of(x);
    let after = moved(g.cells@, c0, c1);
    assert forall|y: int| 0 <= y < HW implies #[trigger] after[y] == left_by(
        g.cells@,
        c0,
        c1,
        y,
    ) by {
        lemma_moved_cell(g.cells@, c0, c1, y);
    }
    lemma_score_bound(after, PLAYER_0_MARK);
    lemma_score_bound(after, PLAYER_1_MARK);
    if !r.finished {
        let y = choose|y: int| 0 <= y < HW && #[trigger] after[y] == PLAYABLE_SQUARE;
        assert(left_by(g.cells@, c0, c1, y) == PLAYABLE_SQUARE);
    } else {
        assert(after[x] != PLAYABLE_SQUARE);
        assert(r.values@ == board_outcome(after));
    }
}

/// What a step does for game `j`, in plain terms. The first `t` games in slot order that are
/// done with their simulations move, and no other game changes. A game that moves has a record
/// of it; if it goes on, its root is the position after the move, with no simulations yet, and
/// its history ends with the move; if it ends, a game at the opening takes its place.
#[verifier::spinoff_prover]
proof fn lemma_stepped_slot<V: Variant>(
    s0: Search<V>,
    s: Search<V>,
    records: Seq<StepRecord<V::Target>>,
    j: int,
    x: int,
)
    requires
        stepped(s0, s, records),
        s0.wf(),
        0 <= j < s0.slots@.len(),
        0 <= x < HW,
    ensures
        ({
            let total = done_below(s0.slots@, s0.cfg.s, s0.slots@.len());
            let rank = done_below(s0.slots@, s0.cfg.s, j as nat);
            let moves = done_searching(s0.slots@[j], s0.cfg.s) && rank < s0.cfg.t;
            let g = s0.slots@[j].root.game;
            &&& records.len() == (if total < s0.cfg.t {
                total
            } else {
                s0.cfg.t as int
            })
            &&& !moves ==> s.slots@[j] == s0.slots@[j] && s.histories@[j] == s0.histories@[j]
            &&& moves ==> {
                let r = records[rank];
                let after = s.slots@[j].root.game;
                let a0 = r.played@[0] as int;
                let a1 = r.played@[1] as int;
                &&& rank < records.len()
                &&& r.id == j
                &&& tells(r, g, x)
                &&& !r.finished ==> {
                    &&& after.cells@[x] == left_by(
                        g.cells@,
                        2 * a0 + (a0 / 8) % 2,
                        2 * a1 + (a1 / 8) % 2,
                        x,
                    )
                    &&& after.move_count == g.move_count + 1
                    &&& s.slots@[j].sim_count == 0
                    &&& s.slots@[j].root.pending <==> forall|i: int| #[trigger]
                        s0.arena.is_live(i) ==> s0.arena.nodes@[i].key != s.slots@[j].root.key
                    &&& s.histories@[j]@.len() == s0.histories@[j]@.len() + 1
                    &&& s.histories@[j]@.drop_last() == s0.histories@[j]@
                    &&& s.histories@[j]@.last().id == j
                    &&& s.histories@[j]@.last().cells == r.cells
                    &&& s.histories@[j]@.last().played == r.played
                }
                &&& r.finished ==> {
                    &&& after.cells@[x] == (if (x / 16 + x % 16) % 2 == 0 {
                        PLAYABLE_SQUARE
                    } else {
                        NON_PLAYABLE_SQUARE
                    })
                    &&& after.move_count == 0
                    &&& s.slots@[j].sim_count == 0
                    &&& s.slots@[j].root.pending
                    &&& s.histories@[j]@.len() == 0
                }
            }
        }),
{
    lemma_done_below(s0.slots@, s0.cfg, s0.slots@.len());
    lemma_done_below(s0.slots@, s0.cfg, j as nat);
    assert(stepped_at(
        s0.slots@,
        s0.histories@,
        s0.cfg,
        s0.arena,
        s.slots@,
        s.histories@,
        records,
        j,
    ));
    let g = s0.slots@[j].root.game;
    assert(seated(s0.slots@[j], s0.cfg));
    if steps_now(s0.slots@, s0.cfg, j) {
        let r = records[ready_below(s0.slots@, s0.cfg, j as nat) as int];
        lemma_tells(r, g, x);
        lemma_cell_of(r.played@[0] as int);
        lemma_cell_of(r.played@[1] as int);
        if !r.finished {
            lemma_moved_cell(
                g.cells@,
                cell_of(r.played@[0] as int),
                cell_of(r.played@[1] as int),
                x,
            );
            let key = s.slots@[j].root.key;
            if s0.arena.has(key) {
                assert(s0.arena.is_live(s0.arena.index@[key] as int));
            }
        }
    }
}

/// A step moves the first `t` games, in slot order, that are done with their simulations. No
/// other game changes. Each that moves has a record: the position, two squares open to their
/// players, whether the game ended. One that goes on has the position after the move as its
/// root, with no simulations yet, and one that ended makes way for a game at the opening.
pub proof fn lemma_step_moves<V: Variant>(
    search: &mut Search<V>,
    records: Vec<StepRecord<V::Target>>,
    j: int,
    x: int,
)
    requires
        call_ensures(Search::<V>::step, (search,), records),
        old(search).wf(),
        0 <= j < old(search).slots@.len(),
        0 <= x < HW,
    ensures
        ({
            let slots = old(search).slots@;
            let cfg = old(search).cfg;
            let total = done_below(slots, cfg.s, slots.len());
            let rank = done_below(slots, cfg.s, j as nat);
            let moves = done_searching(slots[j], cfg.s) && rank < cfg.t;
            let now = final(search).slots@[j];
            let g = slots[j].root.game;
            &&& records@.len() == (if total < cfg.t {
                total
            } else {
                cfg.t as int
            })
            &&& !moves ==> now == slots[j] && final(search).histories@[j] == old(
                search,
            ).histories@[j]
            &&& moves ==> {
                let r = records@[rank];
                let a0 = r.played@[0] as int;
                let a1 = r.played@[1] as int;
                &&& r.id == j
                &&& tells(r, g, x)
                &&& !r.finished ==> {
                    &&& now.root.game.cells@[x] == left_by(
                        g.cells@,
                        2 * a0 + (a0 / 8) % 2,
                        2 * a1 + (a1 / 8) % 2,
                        x,
                    )
                    &&& now.root.game.move_count == g.move_count + 1
                    &&& now.sim_count == 0
                    &&& final(search).histories@[j]@.len() == old(search).histories@[j]@.len() + 1
                    &&& final(search).histories@[j]@.last().played == r.played
                }
                &&& r.finished ==> {
                    &&& now.root.game.cells@[x] == (if (x / 16 + x % 16) % 2 == 0 {
                        PLAYABLE_SQUARE
                    } else {
                        NON_PLAYABLE_SQUARE
                    })
                    &&& now.root.game.move_count == 0
                    &&& now.sim_count == 0
                    &&& final(search).histories@[j]@.len() == 0
                }
            }
        }),
{
    lemma_stepped_slot(*old(search), *final(search), records@, j, x);
}

/// The record of a game that ended says who won: the player whose marks score more on the board
/// that the last move left.
pub proof fn lemma_step_winner<V: Variant>(
    search: &mut Search<V>,
    records: Vec<StepRecord<V::Target>>,
    j: int,
)
    requires
        call_ensures(Search::<V>::step, (search,), records),
        old(search).wf(),
        0 <= j < old(search).slots@.len(),
        done_searching(old(search).slots@[j], old(search).cfg.s),
        done_below(old(search).slots@, old(search).cfg.s, j as nat) < old(search).cfg.t,
        records@[done_below(old(search).slots@, old(search).cfg.s, j as nat)].finished,
    ensures
        ({
            let r = records@[done_below(old(search).slots@, old(search).cfg.s, j as nat)];
            let after = moved(
                old(search).slots@[j].root.game.cells@,
                2 * (r.played@[0] as int) + (r.played@[0] as int / 8) % 2,
                2 * (r.played@[1] as int) + (r.played@[1] as int / 8) % 2,
            );
            let p = score_of(after, PLAYER_0_MARK);
            let q = score_of(after, PLAYER_1_MARK);
            &&& r.values@[0] == 1 <==> p > q
            &&& r.values@[0] == -1 <==> p < q
            &&& r.values@[0] == 0 <==> p == q
            &&& r.values@[1] == -r.values@[0]
        }),
{
    let s0 = *old(search);
    lemma_done_below(s0.slots@, s0.cfg, j as nat);
    assert(stepped_at(
        s0.slots@,
        s0.histories@,
        s0.cfg,
        s0.arena,
        final(search).slots@,
        final(search).histories@,
        records@,
        j,
    ));
    lemma_tells(
        records@[ready_below(s0.slots@, s0.cfg, j as nat) as int],
        s0.slots@[j].root.game,
        0,
    );
}

/// A game that ended is kept whole: its history so far and its last move, behind the games that
/// were kept before and those that ended in slots before it.
pub proof fn lemma_step_keeps_game<V: Variant>(
    search: &mut Search<V>,
    records: Vec<StepRecord<V::Target>>,
    j: int,
)
    requires
        call_ensures(Search::<V>::step, (search,), records),
        old(search).wf(),
        0 <= j < old(search).slots@.len(),
        done_searching(old(search).slots@[j], old(search).cfg.s),
        done_below(old(search).slots@, old(search).cfg.s, j as nat) < old(search).cfg.t,
        records@[done_below(old(search).slots@, old(search).cfg.s, j as nat)].finished,
    ensures
        exists|at: int| {
            let whole = (#[trigger] final(search).completed@[at])@;
            let r = records@[done_below(old(search).slots@, old(search).cfg.s, j as nat)];
            &&& old(search).completed@.len() <= at < final(search).completed@.len()
            &&& whole.len() == old(search).histories@[j]@.len() + 1
            &&& whole.drop_last() == old(search).histories@[j]@
            &&& whole.last().played == r.played
            &&& whole.last().values == r.values
            &&& whole.last().cells == r.cells
        },
        forall|k: int|
            0 <= k < old(search).completed@.len() ==> #[trigger] final(search).completed@[k] == old(
                search,
            ).completed@[k],
{
    let s0 = *old(search);
    lemma_done_below(s0.slots@, s0.cfg, j as nat);
    assert(completed_at(s0, *final(search), records@, j));
    assert(ends_now(s0.slots@, s0.cfg, records@, j));
    let at = s0.completed@.len() + ends_below(s0.slots@, s0.cfg, records@, j as nat);
    let whole = final(search).completed@[at as int]@;
    assert(whole.len() > 0);
}

/// After a step a node is there exactly if it was and some game on its list still has business
/// with it: one that did not end, and, if it moved, whose new root has on every cell what the
/// node has, an open square, or one that the node has removed. Its list has just those games.
#[verifier::spinoff_prover]
pub proof fn lemma_step_sweeps<V: Variant>(
    search: &mut Search<V>,
    records: Vec<StepRecord<V::Target>>,
    i: int,
    id: u16,
)
    requires
        call_ensures(Search::<V>::step, (search,), records),
        old(search).wf(),
        final(search).wf(),
        old(search).arena.is_live(i),
        old(search).arena.nodes@[i].listed().contains(id),
    ensures
        ({
            let slots = old(search).slots@;
            let cfg = old(search).cfg;
            let rank = done_below(slots, cfg.s, id as nat);
            let moves = done_searching(slots[id as int], cfg.s) && rank < cfg.t;
            let ended = moves && records@[rank].finished;
            let root = final(search).slots@[id as int].root.game.cells@;
            let node = old(search).arena.nodes@[i].game.cells@;
            let stays = !ended && (moves ==> forall|x: int|
                0 <= x < HW ==> #[trigger] node[x] == root[x] || root[x] == PLAYABLE_SQUARE
                    || node[x] == REMOVED_SQUARE);
            &&& stays ==> final(search).arena.is_live(i)
            &&& final(search).arena.is_live(i) ==> {
                let n = final(search).arena.nodes@[i];
                &&& n.ids@.take(n.id_count as int).contains(id) <==> stays
                &&& n.key == old(search).arena.nodes@[i].key
                &&& n.game == old(search).arena.nodes@[i].game
                &&& n.stats == old(search).arena.nodes@[i].stats
            }
        }),
{
    let s0 = *old(search);
    let s = *final(search);
    let n = s0.arena.nodes@[i];
    assert(claims_below(n, s0.cfg.g as int));
    assert(id < s0.slots@.len());
    lemma_done_below(s0.slots@, s0.cfg, id as nat);
    let moving = steppers(s0.slots@, s0.cfg);
    let ending = enders(s0.slots@, s0.cfg, records@);
    assert(swept_at(s.slots@, moving, ending, s0.arena, s.arena, i));
    assert(moving[id as int] == steps_now(s0.slots@, s0.cfg, id as int));
    assert(ending[id as int] == ends_now(s0.slots@, s0.cfg, records@, id as int));
    let root = s.slots@[id as int].root.game.cells@;
    let node = n.game.cells@;
    assert(reachable(root, node) <==> forall|x: int|
        0 <= x < HW ==> #[trigger] node[x] == root[x] || root[x] == PLAYABLE_SQUARE || node[x]
            == REMOVED_SQUARE) by {
        if reachable(root, node) {
            assert forall|x: int| 0 <= x < HW implies #[trigger] node[x] == root[x] || root[x]
                == PLAYABLE_SQUARE || node[x] == REMOVED_SQUARE by {
                assert(may_become(root[x], node[x]));
            }
        }
        if forall|x: int|
            0 <= x < HW ==> #[trigger] node[x] == root[x] || root[x] == PLAYABLE_SQUARE || node[x]
                == REMOVED_SQUARE {
            assert forall|x: int| 0 <= x < HW implies may_become(
                #[trigger] root[x],
                node[x],
            ) by {
                assert(node[x] == node[x]);
            }
        }
    }
}

// ------------------------------------------------------------------------------------ cycles

/// What the readings of a cycle leave game `k` with: one simulation more if it waited.
pub open spec fn sims_after<S, P>(s: Slot<S, P>) -> int {
    s.sim_count + (if s.waiting_on is Some {
        1int
    } else {
        0
    })
}

/// How many of the first `n` games are done once the readings of a cycle are in.
pub open spec fn done_after<S, P>(slots: Seq<Slot<S, P>>, sims: u32, n: nat) -> int {
    sum_to(
        |k: int| unit(slots[k].occupied && !slots[k].game_over && sims_after(slots[k]) == sims),
        n,
    )
}

proof fn lemma_done_after<S, P: Copy>(
    before: Seq<Slot<S, P>>,
    after: Seq<Slot<S, P>>,
    sims: u32,
    n: nat,
)
    requires
        n <= before.len(),
        forall|k: int|
            0 <= k < n ==> {
                &&& (#[trigger] after[k]).occupied == before[k].occupied
                &&& after[k].game_over == before[k].game_over
                &&& after[k].sim_count == sims_after(before[k])
            },
    ensures
        done_below(after, sims, n) == done_after(before, sims, n),
    decreases n,
{
    if n > 0 {
        lemma_done_after(before, after, sims, (n - 1) as nat);
        assert(after[n - 1].occupied == before[n - 1].occupied);
    }
}

/// Completing a cycle gives every game that waited one simulation more. Games move exactly if
/// then at least `t` are done with theirs, and then the first `t` of those do; a game that does
/// not move stays where it is and waits for nothing. Every cycle is counted once.
#[verifier::spinoff_prover]
pub proof fn lemma_cycle_completes<V: Variant>(
    search: &mut Search<V>,
    readings: Vec<V::Reading>,
    records: Vec<StepRecord<V::Target>>,
    j: int,
    x: int,
)
    requires
        call_ensures(Search::<V>::complete_evaluation, (search, &readings), records),
        old(search).wf(),
        0 <= j < old(search).slots@.len(),
        0 <= x < HW,
    ensures
        ({
            let slots = old(search).slots@;
            let cfg = old(search).cfg;
            let enough = done_after(slots, cfg.s, slots.len()) >= cfg.t;
            let rank = done_after(slots, cfg.s, j as nat);
            let moves = enough && slots[j].occupied && !slots[j].game_over && sims_after(slots[j])
                == cfg.s && rank < cfg.t;
            let now = final(search).slots@[j];
            &&& records@.len() == (if enough {
                cfg.t as int
            } else {
                0
            })
            &&& !moves ==> {
                &&& now.sim_count == sims_after(slots[j])
                &&& now.root.game == slots[j].root.game
                &&& now.root.key == slots[j].root.key
                &&& final(search).histories@[j] == old(search).histories@[j]
            }
            &&& moves ==> {
                let r = records@[rank];
                &&& r.id == j
                &&& tells(r, slots[j].root.game, x)
                &&& now.sim_count == 0
            }
        }),
        final(search).diag.cycles == old(search).diag.cycles.wrapping_add(1),
{
    let s0 = *old(search);
    let mid = choose|mid: Search<V>| #[trigger]
        completes(s0, readings@, mid, *final(search), records@);
    assert forall|k: int| 0 <= k < s0.slots@.len() implies {
        &&& (#[trigger] mid.slots@[k]).occupied == s0.slots@[k].occupied
        &&& mid.slots@[k].game_over == s0.slots@[k].game_over
        &&& mid.slots@[k].sim_count == sims_after(s0.slots@[k])
    } by {
        assert(absorbed(s0.slots@[k], mid.slots@[k], s0.buffer, k));
    }
    let n = s0.slots@.len();
    lemma_done_after(s0.slots@, mid.slots@, s0.cfg.s, n);
    lemma_done_after(s0.slots@, mid.slots@, s0.cfg.s, j as nat);
    lemma_done_below(mid.slots@, mid.cfg, n);
    lemma_done_below(mid.slots@, mid.cfg, j as nat);
    assert(absorbed(s0.slots@[j], mid.slots@[j], s0.buffer, j));
    assert(mid.slots@[j].root.game == s0.slots@[j].root.game);
    if ready_below(mid.slots@, mid.cfg, mid.slots@.len()) >= mid.cfg.t {
        lemma_stepped_slot(mid, *final(search), records@, j, x);
    }
}

/// A root that waited for its evaluation in one of the groups of the buffer has it once the
/// readings are in, unless its game moves at once; any other root is as evaluated as it was.
pub proof fn lemma_roots_answered<V: Variant>(
    search: &mut Search<V>,
    readings: Vec<V::Reading>,
    records: Vec<StepRecord<V::Target>>,
    j: int,
)
    requires
        call_ensures(Search::<V>::complete_evaluation, (search, &readings), records),
        old(search).wf(),
        0 <= j < old(search).slots@.len(),
        records@.len() == 0,
        old(search).cfg.t > 0,
    ensures
        final(search).slots@[j].root.pending <==> old(search).slots@[j].root.pending && forall|k: int|
            0 <= k < old(search).buffer.groups@.len() ==> !(
            #[trigger] old(search).buffer.groups@[k])@.contains(j as u16),
{
    let s0 = *old(search);
    let mid = choose|mid: Search<V>| #[trigger]
        completes(s0, readings@, mid, *final(search), records@);
    assert(absorbed(s0.slots@[j], mid.slots@[j], s0.buffer, j));
    assert(*final(search) == mid);
}

/// What is queued for the model: at most as many positions as the buffer is wide. A row for a
/// node holds the position of a node that awaits its evaluation, and a row for a group the
/// position of the root that all games of the group sit on. No node has two rows.
pub proof fn lemma_queued<V: Variant>(search: &mut Search<V>, n: usize, q: int, x: int)
    requires
        call_ensures(Search::<V>::prepare_evaluation, (search,), n),
        old(search).wf(),
        old(search).settled(),
        0 <= q < n,
        0 <= x < HW,
        (x / 16 + x % 16) % 2 == 0,
    ensures
        n <= old(search).cfg.b,
        ({
            let b = final(search).buffer;
            let shown = b.positions@[q]@[x / 2];
            match b.targets@[q] {
                Target::Node(i) => {
                    let node = final(search).arena.nodes@[i as int];
                    &&& shown == node.game.cells@[x]
                    &&& b.scores@[q] == node.game.scores
                    &&& node.flags & 1 != 0
                    &&& forall|r: int|
                        0 <= r < n && r != q ==> #[trigger] b.targets@[r] != Target::Node(i)
                },
                Target::Root(k) => {
                    let first = b.groups@[k as int]@[0] as int;
                    let root = final(search).slots@[first].root;
                    &&& shown == root.game.cells@[x]
                    &&& b.scores@[q] == root.game.scores
                    &&& root.game == old(search).slots@[first].root.game
                    &&& forall|m: int|
                        0 <= m < b.groups@[k as int]@.len() ==> {
                            let other = final(search).slots@[
                                (#[trigger] b.groups@[k as int]@[m]) as int
                            ].root;
                            other.key == root.key && other.pending
                        }
                },
            }
        }),
{
    let s = *final(search);
    let b = s.buffer;
    assert(node_row(s.arena, b, b.targets@[q], q));
    assert(root_row(s.slots@, b, b.targets@[q], q));
    lemma_bit_of(x);
    if let Target::Root(k) = b.targets@[q] {
        assert(group_ok(s.slots@, b.groups@[k as int]@));
        let first = b.groups@[k as int]@[0] as int;
        assert(b.groups@[k as int]@[0] < s.slots@.len());
    }
}

/// A game that is not collected is not touched: the games after the last one the walk came to
/// keep their roots and simulations, and they are passed over only once the buffer is full.
pub proof fn lemma_walk_leaves<V: Variant>(search: &mut Search<V>, n: usize, j: int)
    requires
        call_ensures(Search::<V>::prepare_evaluation, (search,), n),
        old(search).wf(),
        0 <= j < old(search).slots@.len(),
    ensures
        final(search).slots@[j].root.game == old(search).slots@[j].root.game,
        final(search).histories == old(search).histories,
        old(search).slots@[j].sim_count == old(search).cfg.s ==> final(search).slots@[j].sim_count
            == old(search).cfg.s && final(search).slots@[j].waiting_on == old(
            search,
        ).slots@[j].waiting_on,
        n < old(search).cfg.b && old(search).slots@[j].root.pending && old(
            search,
        ).slots@[j].sim_count < old(search).cfg.s && old(search).slots@[j].waiting_on is None
            ==> exists|k: int|
            0 <= k < final(search).buffer.groups@.len() && (
            #[trigger] final(search).buffer.groups@[k])@.contains(j as u16),
{
    let s0 = *old(search);
    let s = *final(search);
    let end = choose|end: int| #[trigger] collected(s0, s, end);
    assert(seated(s0.slots@[j], s0.cfg));
    if j < end {
        assert(visited(
            (Slot { descents: 0, ..s0.slots@[j] }),
            s.slots@[j],
            s.arena,
            s.buffer,
            s.cfg,
            j,
        ));
    } else {
        assert(s.slots@[j] == (Slot { descents: 0, ..s0.slots@[j] }));
    }
}

/// A new model starts from no nodes: every root is to be evaluated again with no simulations,
/// and games, histories and the generator stay.
pub proof fn lemma_starts_afresh<V: Variant>(search: &mut Search<V>, j: int)
    requires
        call_ensures(Search::<V>::clear_for_new_model, (search,), ()),
        0 <= j < old(search).slots@.len(),
    ensures
        final(search).arena.live == 0,
        final(search).slots@[j].root.game == old(search).slots@[j].root.game,
        final(search).slots@[j].root.pending,
        final(search).slots@[j].sim_count == 0,
        final(search).slots@[j].waiting_on is None,
        final(search).histories == old(search).histories,
        final(search).rng == old(search).rng,
{
    assert(flushed(old(search).slots@[j], final(search).slots@[j]));
}

/// Advancing a trainer adds the records of the cycle behind those it has: as many as `t` if
/// enough games are done, and else none.
pub proof fn lemma_records_added<V: Variant>(
    trainer: &mut Trainer<V>,
    readings: Vec<V::Reading>,
    count: usize,
    k: int,
)
    requires
        call_ensures(Trainer::<V>::advance, (trainer, &readings), count),
        0 <= k < old(trainer).records@.len(),
    ensures
        final(trainer).records@[k] == old(trainer).records@[k],
        final(trainer).records@.len() == old(trainer).records@.len() + count,
        ({
            let slots = old(trainer).search.slots@;
            let cfg = old(trainer).search.cfg;
            count == (if done_after(slots, cfg.s, slots.len()) >= cfg.t {
                cfg.t
            } else {
                0
            })
        }),
{
    let s0 = old(trainer).search;
    let r0 = old(trainer).records@;
    assert(final(trainer).records@.take(r0.len() as int)[k] == final(trainer).records@[k]);
    let new = final(trainer).records@.skip(r0.len() as int);
    let (mid, s) = choose|mid: Search<V>, s: Search<V>| #[trigger]
        completes(s0, readings@, mid, s, new) && final(trainer).search == (Search {
            completed: final(trainer).search.completed,
            ..s
        }) && final(trainer).finished_games == old(trainer).finished_games.wrapping_add(
            s.completed@.len() as usize,
        );
    assert(new.len() == count);
    assert forall|k: int| 0 <= k < s0.slots@.len() implies {
        &&& (#[trigger] mid.slots@[k]).occupied == s0.slots@[k].occupied
        &&& mid.slots@[k].game_over == s0.slots@[k].game_over
        &&& mid.slots@[k].sim_count == sims_after(s0.slots@[k])
    } by {
        assert(absorbed(s0.slots@[k], mid.slots@[k], s0.buffer, k));
    }
    lemma_done_after(s0.slots@, mid.slots@, s0.cfg.s, s0.slots@.len());
    lemma_done_below(mid.slots@, mid.cfg, mid.slots@.len());
}

proof fn lemma_ends_counted<S, P: Copy, T>(
    slots: Seq<Slot<S, P>>,
    cfg: Config,
    records: Seq<StepRecord<T>>,
    n: nat,
)
    requires
        n <= slots.len(),
    ensures
        ends_below(slots, cfg, records, n) == sum_to(
            |k: int| unit(records[k].finished),
            (if ready_below(slots, cfg, n) < cfg.t {
                ready_below(slots, cfg, n)
            } else {
                cfg.t as nat
            }),
        ),
    decreases n,
{
    if n > 0 {
        lemma_ends_counted(slots, cfg, records, (n - 1) as nat);
    }
}

/// A step counts itself, the games that its records finish, each of which is handed out
/// whole, and the nodes that it gave up.
pub proof fn lemma_step_counted<V: Variant>(
    search: &mut Search<V>,
    records: Vec<StepRecord<V::Target>>,
)
    requires
        call_ensures(Search::<V>::step, (search,), records),
        old(search).wf(),
        final(search).wf(),
    ensures
        ({
            let was = old(search).diag;
            let now = final(search).diag;
            let ended = sum_to(|k: int| unit(records@[k].finished), records@.len());
            &&& now.steps == was.steps.wrapping_add(1)
            &&& now.games_finished == was.games_finished.wrapping_add(ended as u64)
            &&& final(search).completed@.len() == old(search).completed@.len() + ended
            &&& now.nodes_deleted == was.nodes_deleted.wrapping_add(
                (old(search).arena.live - final(search).arena.live) as u64,
            )
            &&& now.cycles == was.cycles
            &&& now.descents == was.descents
            &&& now.root_evals == was.root_evals
        }),
{
    lemma_ends_counted(
        old(search).slots@,
        old(search).cfg,
        records@,
        old(search).slots@.len(),
    );
}

/// A search begins with every game at the opening, its root still to be evaluated, no nodes and
/// nothing counted.
pub proof fn lemma_search_opens<V: Variant>(
    cfg: Config,
    params: V::Params,
    seed: u64,
    s: Search<V>,
    j: int,
    x: int,
)
    requires
        call_ensures(Search::<V>::new, (cfg, params, seed), s),
        0 <= j < cfg.g,
        0 <= x < HW,
    ensures
        s.cfg == cfg,
        s.params == params,
        s.slots@.len() == cfg.g,
        s.slots@[j].root.game.cells@[x] == (if (x / 16 + x % 16) % 2 == 0 {
            PLAYABLE_SQUARE
        } else {
            NON_PLAYABLE_SQUARE
        }),
        s.slots@[j].root.game.move_count == 0,
        s.slots@[j].root.pending,
        s.slots@[j].sim_count == 0,
        s.slots@[j].waiting_on is None,
        s.slots@[j].path.steps@.len() == 0,
        s.histories@[j]@.len() == 0,
        s.arena.live == 0,
        s.completed@.len() == 0,
        s.diag.steps == 0,
        s.diag.descents == 0,
        s.diag.games_finished == 0,
{
    assert(fresh(s.slots@[j]));
}

/// With a new model the games stay where they are, and all that was learnt from the one before
/// goes: nodes, statistics, simulations and collected records.
pub proof fn lemma_model_replaced<V: Variant>(trainer: &mut Trainer<V>, j: int)
    requires
        call_ensures(Trainer::<V>::network_update, (trainer,), ()),
        0 <= j < old(trainer).search.slots@.len(),
    ensures
        final(trainer).search.slots@[j].root.game == old(trainer).search.slots@[j].root.game,
        final(trainer).search.slots@[j].root.pending,
        final(trainer).search.slots@[j].sim_count == 0,
        final(trainer).search.slots@[j].waiting_on is None,
        final(trainer).search.histories == old(trainer).search.histories,
        final(trainer).search.rng == old(trainer).search.rng,
        final(trainer).search.arena.live == 0,
        final(trainer).search.buffer.targets@.len() == 0,
        final(trainer).records@.len() == 0,
        final(trainer).model_calls == 0,
        final(trainer).evaluated == 0,
        final(trainer).finished_games == 0,
{
    assert(flushed(old(trainer).search.slots@[j], final(trainer).search.slots@[j]));
}

/// What a search hands out it no longer has, and nothing else of it changes.
pub proof fn lemma_handed_out<V: Variant>(
    search: &mut Search<V>,
    done: Vec<Vec<StepRecord<V::Target>>>,
)
    requires
        call_ensures(Search::<V>::take_completed_histories, (search,), done),
    ensures
        done@ == old(search).completed@,
        final(search).completed@.len() == 0,
        final(search).histories == old(search).histories,
        final(search).slots == old(search).slots,
        final(search).arena == old(search).arena,
{
}

} // verus!
