//! The nodes of a search: who is recorded on them, how moves are chosen there, and what a
//! value does to them.
use vstd::prelude::*;

use crate::board::{HW, PLAYABLE_SQUARE, SQUARES};
use crate::game::{may_play_on, squares_of, Game};
use crate::legal::{cell_of, holds, lemma_bit_of, lemma_cell_of, LEGAL_WORDS};
use crate::mcts::arena::{
    lemma_swap_removed, lemma_touch_lists, touch_list, used_slots, Arena, IdWrite, Node,
};
use crate::mcts::buffer::{Buffer, Target};
use crate::mcts::descent::{back_up, descend, descended, game_at, on_path, step_ok, Descent};
use crate::mcts::slot::Slot;
use crate::mcts::stats::{counts, counts_of, lemma_whole_path, masks, prime, stats_of};
use crate::mcts::variant::{
    draw, draw_weighed, draws_by, pick, select, selects, selects_by, weighed, Choice, MaskIter,
    Variant,
};
use crate::rng::Rng;
use crate::scratch::Scratch;
use crate::sums::{lemma_sum_eq, sum_to, unit};

verus! {

// --------------------------------------------------------------------------------- recording

/// Recording a game on a node: it is listed, and so is every other game as before but for one
/// that made way. One makes way exactly if 64 others were listed, and that is answered.
pub proof fn lemma_recorded_on<S>(a: &mut Arena<S>, i: u32, id: u16, r: IdWrite, x: u16)
    requires
        call_ensures(Arena::<S>::touch, (a, i, id), r),
        old(a).nodes@[i as int].wf(),
    ensures
        ({
            let before = old(a).nodes@[i as int].ids@.take(old(a).nodes@[i as int].id_count as int);
            let after = final(a).nodes@[i as int].ids@.take(
                final(a).nodes@[i as int].id_count as int,
            );
            &&& after.contains(id)
            &&& r is Present <==> before.contains(id)
            &&& r is Appended <==> !before.contains(id) && before.len() < 64
            &&& x != id ==> (after.contains(x) <==> before.contains(x) && r != IdWrite::Displaced(
                x,
            ))
            &&& r matches IdWrite::Displaced(y) ==> before.contains(y) && before.len() == 64
            &&& after.len() == before.len() + (if r is Appended {
                1int
            } else {
                0
            })
        }),
{
    let n = old(a).nodes@[i as int];
    let before = n.listed();
    let after = touch_list(n, id);
    assert(final(a).nodes@[i as int].listed() == after);
    lemma_touch_lists(n, id);
    if before.contains(id) {
        assert(after == before);
    } else if n.id_count < 64 {
        if before.contains(x) {
            let k = before.index_of(x);
            assert(after[k] == x);
        }
        if after.contains(x) && x != id {
            let k = after.index_of(x);
            assert(before[k] == x);
        }
    } else {
        let c = n.id_cursor as int;
        let y = n.ids@[c];
        assert(before[c] == y);
        assert(before.contains(y));
        if before.contains(x) && x != y {
            let k = before.index_of(x);
            assert(after[k] == x);
        }
        if after.contains(x) && x != id {
            let k = after.index_of(x);
            assert(after[k] == x && k != c);
            assert(before[k] == x);
            assert(x != y);
        }
    }
}

/// Games make way in turn: the next to make way stands one place on from the one before it, and
/// in the first place after the last.
pub proof fn lemma_in_turn<S>(
    a: &mut Arena<S>,
    b: &mut Arena<S>,
    i: u32,
    first: u16,
    second: u16,
    x: u16,
    y: u16,
)
    requires
        call_ensures(Arena::<S>::touch, (a, i, first), IdWrite::Displaced(x)),
        call_ensures(Arena::<S>::touch, (b, i, second), IdWrite::Displaced(y)),
        *old(b) == *final(a),
        old(a).wf(),
        old(a).is_live(i as int),
    ensures
        ({
            let k = old(a).nodes@[i as int].id_cursor as int;
            let next = if k == 63 {
                0
            } else {
                k + 1
            };
            &&& x == old(a).nodes@[i as int].ids@[k]
            &&& final(a).nodes@[i as int].ids@[k] == first
            &&& y == final(a).nodes@[i as int].ids@[next]
            &&& final(b).nodes@[i as int].ids@[next] == second
        }),
{
    let n = old(a).nodes@[i as int];
    let m = final(a).nodes@[i as int];
    let k = n.id_cursor as int;
    assert(m.listed() == n.listed().update(k, first));
    assert(m.listed()[k] == first);
    assert(m.listed().len() == 64);
    let c = m.id_cursor as int;
    assert(0 <= i < final(a).nodes@.len());
    assert(m.wf());
    assert(y == m.ids@[c]);
    assert(0 <= i < final(b).nodes@.len());
    assert(final(b).nodes@[i as int].wf());
    assert(final(b).nodes@[i as int].listed() == m.listed().update(c, second));
    assert(final(b).nodes@[i as int].listed()[c] == second);
    assert(final(b).nodes@[i as int].listed().len() == 64);
}

/// Dropping a game from a node takes that game off its list and no other.
pub proof fn lemma_dropped_from<S>(a: &mut Arena<S>, i: u32, id: u16, r: bool, x: u16)
    requires
        call_ensures(Arena::<S>::drop_id, (a, i, id), r),
        old(a).nodes@[i as int].wf(),
    ensures
        ({
            let before = old(a).nodes@[i as int].ids@.take(old(a).nodes@[i as int].id_count as int);
            let after = final(a).nodes@[i as int].ids@.take(
                final(a).nodes@[i as int].id_count as int,
            );
            &&& r <==> before.contains(id)
            &&& after.contains(x) <==> before.contains(x) && x != id
            &&& after.len() == before.len() - (if r {
                1int
            } else {
                0
            })
        }),
{
    let list = old(a).nodes@[i as int].listed();
    if r {
        lemma_swap_removed(list, list.index_of(id));
        assert(list[list.index_of(id)] == id);
    }
}

/// A node is unused exactly if no game is listed on it.
pub proof fn lemma_unused<S>(a: Arena<S>, i: u32, r: bool, x: u16)
    requires
        call_ensures(Arena::<S>::is_unused, (&a, i), r),
        a.nodes@[i as int].wf(),
    ensures
        r ==> !a.nodes@[i as int].ids@.take(a.nodes@[i as int].id_count as int).contains(x),
        !r ==> a.nodes@[i as int].ids@.take(a.nodes@[i as int].id_count as int).len() > 0,
{
}

/// A node that is added is found under its key, holds its game and lists the one game that uses
/// it; what was found before is still found, in the same slot. None is added exactly if there
/// are as many as there may be.
pub proof fn lemma_added_found<S: Default>(
    a: &mut Arena<S>,
    key: u64,
    game: Game,
    flags: u8,
    id: u16,
    r: Option<u32>,
    before: Arena<S>,
    after: Arena<S>,
    other: u64,
    was: Option<u32>,
    now: Option<u32>,
)
    requires
        call_ensures(Arena::<S>::insert, (a, key, game, flags, id), r),
        before == *old(a),
        after == *final(a),
        call_ensures(Arena::<S>::get, (&before, other), was),
        old(a).wf(),
        final(a).wf(),
        !old(a).has(key),
        call_ensures(Arena::<S>::get, (&after, other), now),
    ensures
        r is None <==> old(a).live == old(a).capacity,
        other != key || r is None ==> now == was,
        other == key && r is Some ==> now == r,
        r matches Some(i) ==> {
            let n = final(a).nodes@[i as int];
            &&& n.key == key
            &&& n.game == game
            &&& n.flags == flags
            &&& n.id_count == 1
            &&& n.ids@[0] == id
            &&& final(a).live == old(a).live + 1
        },
{
    if let Some(i) = r {
        let n = final(a).nodes@[i as int];
        assert(n.listed() == seq![id]);
        assert(n.listed().len() == 1);
        assert(n.listed()[0] == id);
        assert(final(a).is_live(i as int));
        if let Some(j) = was {
            assert(old(a).is_live(j as int));
            assert(final(a).is_live(j as int));
            assert(final(a).nodes@[j as int] == old(a).nodes@[j as int]);
        }
        if let Some(j) = now {
            assert(final(a).is_live(j as int));
            assert(final(a).nodes@[j as int].key == other);
            assert(final(a).index@[other] == j);
        }
    }
}

/// A node that is removed is no longer found, and all others are.
pub proof fn lemma_removed_lost<S>(
    a: &mut Arena<S>,
    i: u32,
    before: Arena<S>,
    after: Arena<S>,
    other: u64,
    was: Option<u32>,
    now: Option<u32>,
)
    requires
        call_ensures(Arena::<S>::remove, (a, i), ()),
        before == *old(a),
        after == *final(a),
        call_ensures(Arena::<S>::get, (&before, other), was),
        call_ensures(Arena::<S>::get, (&after, other), now),
        old(a).wf(),
        final(a).wf(),
        i < old(a).nodes@.len(),
    ensures
        was == Some(i) ==> now is None,
        was != Some(i) ==> now == was,
{
    if let Some(j) = was {
        assert(old(a).is_live(j as int));
        assert(old(a).index@[other] == j);
        if j != i {
            assert(final(a).is_live(j as int));
            assert(final(a).nodes@[j as int].key == other);
            assert(final(a).index@[other] == j);
        }
    }
    if let Some(j) = now {
        assert(final(a).is_live(j as int));
        assert(old(a).is_live(j as int) && j != i);
        assert(final(a).nodes@[j as int].key == other);
        assert(old(a).nodes@[j as int].key == other);
        assert(old(a).index@[other] == j);
        assert(final(a).index@[other] == j);
    }
}

/// The slots in use come in order, each once, and are those of nodes that some game is listed
/// on.
pub proof fn lemma_slots_in_use<S>(a: Arena<S>, r: Vec<u32>, i: int)
    requires
        call_ensures(Arena::<S>::live_slots, (&a,), r),
        a.wf(),
        0 <= i < a.nodes@.len(),
    ensures
        r@.contains(i as u32) <==> a.nodes@[i].id_count > 0,
        forall|j: int, k: int| 0 <= j < k < r@.len() ==> r@[j] < r@[k],
{
    lemma_used(a.nodes@, a.nodes@.len(), i);
}

proof fn lemma_used<S>(nodes: Seq<Node<S>>, n: nat, i: int)
    requires
        n <= nodes.len() <= u32::MAX,
        0 <= i,
        i <= u32::MAX,
    ensures
        ({
            let r = used_slots(nodes, n);
            &&& r.contains(i as u32) <==> i < n && nodes[i].id_count > 0
            &&& forall|j: int, k: int| 0 <= j < k < r.len() ==> r[j] < r[k]
            &&& forall|j: int| 0 <= j < r.len() ==> (#[trigger] r[j]) < n
        }),
    decreases n,
{
    if n > 0 {
        lemma_used(nodes, (n - 1) as nat, i);
        let rest = used_slots(nodes, (n - 1) as nat);
        let r = used_slots(nodes, n);
        if rest.contains(i as u32) {
            let k = rest.index_of(i as u32);
            assert(r[k] == i as u32);
        }
        if i == n - 1 && nodes[i].id_count > 0 {
            assert(r[r.len() - 1] == i as u32);
        }
        if r.contains(i as u32) && i != n - 1 {
            let k = r.index_of(i as u32);
            assert(r[k] == i as u32);
            if k < rest.len() {
                assert(rest[k] == i as u32);
            }
        }
    }
}

// ---------------------------------------------------------------------------------- choosing

/// The verdicts on the squares of a mask come to the last favourable one, or to the last square
/// of the mask where none is.
pub proof fn lemma_picked(legal: [u64; LEGAL_WORDS], verdicts: Vec<bool>, square: usize, k: int)
    requires
        call_ensures(pick, (legal, &verdicts), square),
        0 <= k < 128,
    ensures
        square < 128,
        holds(legal@, square as int),
        verdicts@[k] ==> verdicts@[square as int] && k <= square,
        !verdicts@[square as int] && holds(legal@, k) ==> k <= square,
{
}

/// A walk over a mask gives its squares in order and leaves none out.
pub proof fn lemma_next_square(m: &mut MaskIter, r: Option<usize>, k: int)
    requires
        call_ensures(MaskIter::next, (m,), r),
        old(m).at <= k < 128,
        holds(old(m).words@, k),
    ensures
        r matches Some(s) && s <= k && s >= old(m).at && holds(old(m).words@, s as int)
            && final(m).at == s + 1,
        final(m).words == old(m).words,
{
}

/// One player's move is selected: the rule is opened on that player's mask and weighs every
/// square of it in board order and no other. The move is the last with a favourable verdict, or
/// the last of the mask where there is none, with the probability the rule gives it then.
pub open spec fn move_selected<V: Variant>(
    before: (V::Stats, Rng),
    legal: [u64; LEGAL_WORDS],
    player: usize,
    params: V::Params,
    after: (V::Stats, Rng),
    c: Choice<V::Prob>,
) -> bool {
    let a = c.action as int;
    exists|states: Seq<(V::Stats, V::Scan)>, verdicts: Seq<bool>| {
        &&& states[0].0 == before.0
        &&& states[128].0 == after.0
        &&& call_ensures(
            V::open,
            (&before.0, legal, player, &params, before.1),
            (states[0].1, after.1),
        )
        &&& #[trigger] squares_weighed::<V>(legal, player, states, verdicts)
        &&& holds(legal@, a)
        &&& forall|k: int|
            0 <= k < 128 ==> (#[trigger] verdicts[k] ==> verdicts[a] && k <= a) && (!verdicts[a]
                && holds(legal@, k) ==> k <= a)
        &&& call_ensures(V::prob, (&states[128].1, c.action as usize), c.prob)
    }
}

/// The rule has weighed every square of a mask, in board order, and no other.
pub open spec fn squares_weighed<V: Variant>(
    legal: [u64; LEGAL_WORDS],
    player: usize,
    states: Seq<(V::Stats, V::Scan)>,
    verdicts: Seq<bool>,
) -> bool {
    forall|k: int|
        0 <= k < 128 ==> #[trigger] square_weighed::<V>(
            holds(legal@, k),
            k as usize,
            player,
            states[k],
            states[k + 1],
            verdicts[k],
        )
}

/// The rule has weighed a square of the mask, and passed over any other.
pub open spec fn square_weighed<V: Variant>(
    held: bool,
    square: usize,
    player: usize,
    before: (V::Stats, V::Scan),
    after: (V::Stats, V::Scan),
    verdict: bool,
) -> bool {
    if held {
        call_ensures(
            V::weigh,
            (before.0, before.1, square, player),
            (after.0, after.1, verdict),
        )
    } else {
        after == before && !verdict
    }
}

pub(crate) proof fn lemma_move_selected<V: Variant>(
    before: (V::Stats, Rng),
    legal: [u64; LEGAL_WORDS],
    player: usize,
    params: V::Params,
    after: (V::Stats, Rng),
    c: Choice<V::Prob>,
)
    requires
        selects::<V>(before, legal, player, params, after, c),
    ensures
        move_selected::<V>(before, legal, player, params, after, c),
{
    let (states, verdicts) = choose|s: Seq<(V::Stats, V::Scan)>, v: Seq<bool>| #[trigger]
        selects_by::<V>(before, legal, player, params, after, c, s, v);
    assert(squares_weighed::<V>(legal, player, states, verdicts)) by {
        assert forall|k: int| 0 <= k < 128 implies #[trigger] square_weighed::<V>(
            holds(legal@, k),
            k as usize,
            player,
            states[k],
            states[k + 1],
            verdicts[k],
        ) by {
            assert(weighed::<V>(legal@, player, states, verdicts, k));
        }
    }
}

/// Player 0's move is selected first, from player 0's mask, and then player 1's from player
/// 1's, with the statistics and the generator as the first selection left them.
pub proof fn lemma_selects_in_turn<V: Variant>(
    stats: &mut V::Stats,
    legal: [[u64; LEGAL_WORDS]; 2],
    params: V::Params,
    rng: &mut Rng,
    c: [Choice<V::Prob>; 2],
)
    requires
        call_ensures(select::<V>, (stats, legal, &params, rng), c),
    ensures
        exists|mid: (V::Stats, Rng)| {
            &&& #[trigger] move_selected::<V>(
                (*old(stats), *old(rng)),
                legal@[0],
                0,
                params,
                mid,
                c@[0],
            )
            &&& move_selected::<V>(
                mid,
                legal@[1],
                1,
                params,
                (*final(stats), *final(rng)),
                c@[1],
            )
        },
{
    let before = (*old(stats), *old(rng));
    let after = (*final(stats), *final(rng));
    let mid = choose|mid: (V::Stats, Rng)| {
        &&& #[trigger] selects::<V>(before, legal@[0], 0, params, mid, c@[0])
        &&& selects::<V>(mid, legal@[1], 1, params, after, c@[1])
    };
    lemma_move_selected::<V>(before, legal@[0], 0, params, mid, c@[0]);
    lemma_move_selected::<V>(mid, legal@[1], 1, params, after, c@[1]);
}

/// A move drawn from a target: the rule is opened on the player's mask and weighs every square
/// of it in board order and no other; the move is the last with a favourable verdict, or the
/// last of the mask where there is none.
pub proof fn lemma_draws_from<V: Variant>(
    target: V::Target,
    legal: [u64; LEGAL_WORDS],
    player: usize,
    rng: &mut Rng,
    square: usize,
)
    requires
        call_ensures(draw::<V>, (&target, legal, player, rng), square),
    ensures
        exists|scans: Seq<V::Scan>, verdicts: Seq<bool>| {
            &&& call_ensures(
                V::open_draw,
                (&target, legal, player, *old(rng)),
                (scans[0], *final(rng)),
            )
            &&& #[trigger] draw_squares_weighed::<V>(target, legal, player, scans, verdicts)
            &&& holds(legal@, square as int)
            &&& forall|k: int|
                0 <= k < 128 ==> (#[trigger] verdicts[k] ==> verdicts[square as int] && k
                    <= square) && (!verdicts[square as int] && holds(legal@, k) ==> k <= square)
        },
{
    let (scans, verdicts) = choose|s: Seq<V::Scan>, v: Seq<bool>| #[trigger]
        draws_by::<V>(target, legal, player, *old(rng), *final(rng), square as int, s, v);
    assert(draw_squares_weighed::<V>(target, legal, player, scans, verdicts)) by {
        assert forall|k: int| 0 <= k < 128 implies if holds(legal@, k) {
            call_ensures(
                V::weigh_draw,
                (&target, scans[k], k as usize, player),
                (scans[k + 1], #[trigger] verdicts[k]),
            )
        } else {
            scans[k + 1] == scans[k] && !verdicts[k]
        } by {
            assert(draw_weighed::<V>(target, legal@, player, scans, verdicts, k));
        }
    }
}

/// The rule has weighed every square of a mask for a draw, in board order, and no other.
pub open spec fn draw_squares_weighed<V: Variant>(
    target: V::Target,
    legal: [u64; LEGAL_WORDS],
    player: usize,
    scans: Seq<V::Scan>,
    verdicts: Seq<bool>,
) -> bool {
    forall|k: int|
        0 <= k < 128 ==> if holds(legal@, k) {
            call_ensures(
                V::weigh_draw,
                (&target, scans[k], k as usize, player),
                (scans[k + 1], #[trigger] verdicts[k]),
            )
        } else {
            scans[k + 1] == scans[k] && !verdicts[k]
        }
}

/// Player 0's priors are adopted first, with player 0's mask, and then player 1's.
pub proof fn lemma_primes_in_turn<V: Variant>(
    stats: &mut V::Stats,
    legal: [[u64; LEGAL_WORDS]; 2],
    reading: V::Reading,
)
    requires
        call_ensures(prime::<V>, (stats, legal, &reading), ()),
    ensures
        exists|mid: V::Stats| {
            &&& #[trigger] call_ensures(
                V::set_priors,
                (*old(stats), &reading, legal@[0], 0usize),
                mid,
            )
            &&& call_ensures(V::set_priors, (mid, &reading, legal@[1], 1usize), *final(stats))
        },
{
}

/// The two players' masks of a position, cell by cell.
pub proof fn lemma_masks_of(g: Game, legal: [[u64; LEGAL_WORDS]; 2], i: int)
    requires
        call_ensures(masks, (&g,), legal),
        g.wf(),
        0 <= i < HW,
        (i / 16 + i % 16) % 2 == 0,
    ensures
        holds(legal@[0]@, i / 2) <==> g.cells@[i] == PLAYABLE_SQUARE && (g.move_count > 0 || i % 16
            < 8),
        holds(legal@[1]@, i / 2) <==> g.cells@[i] == PLAYABLE_SQUARE && (g.move_count > 0 || i % 16
            >= 8),
{
    lemma_bit_of(i);
    assert(holds(legal@[0]@, i / 2) <==> i / 2 < SQUARES && g.may_play(cell_of(i / 2), 0));
    assert(holds(legal@[1]@, i / 2) <==> i / 2 < SQUARES && g.may_play(cell_of(i / 2), 1));
}

/// How many of the squares of a board a player may take, by cells.
pub open spec fn takeable(cells: Seq<i8>, begun: bool, player: int) -> int {
    sum_to(
        |k: int|
            {
                let i = 2 * k + (k / 8) % 2;
                unit(
                    cells[i] == PLAYABLE_SQUARE && (begun || player == 0 && i % 16 < 8 || player
                        == 1 && i % 16 >= 8),
                )
            },
        80,
    )
}

pub(crate) proof fn lemma_takeable(g: Game, player: int)
    requires
        0 <= player < 2,
    ensures
        g.moves_open(player) == takeable(g.cells@, g.move_count > 0, player),
{
    let first = g.move_count == 0;
    let begun = g.move_count > 0;
    let f = |j: int| unit(may_play_on(g.cells@, first, cell_of(j), player));
    let h = |k: int|
        {
            let i = 2 * k + (k / 8) % 2;
            unit(
                g.cells@[i] == PLAYABLE_SQUARE && (begun || player == 0 && i % 16 < 8 || player == 1
                    && i % 16 >= 8),
            )
        };
    assert forall|k: int| 0 <= k < 80 implies #[trigger] f(k) == h(k) by {
        lemma_cell_of(k);
    }
    lemma_sum_eq(f, h, 80);
}

/// The two players' numbers of moves.
pub proof fn lemma_counts_of(g: Game, n: [u32; 2])
    requires
        call_ensures(counts, (&g,), n),
        g.wf(),
    ensures
        n@[0] == takeable(g.cells@, g.move_count > 0, 0),
        n@[1] == takeable(g.cells@, g.move_count > 0, 1),
{
    lemma_takeable(g, 0);
    lemma_takeable(g, 1);
}

// ----------------------------------------------------------------------------------- backups

/// The statistics at a step of a path: those of the root, or of the node there.
pub open spec fn stats_there<S>(root: S, nodes: Seq<Node<S>>, node: u32) -> S {
    if node == u32::MAX {
        root
    } else {
        nodes[node as int].stats
    }
}

/// Backing a value up a path: at each step whose node the path passes once, that value is
/// folded into the moves chosen there, with the numbers of moves of the position there; nodes
/// off the path keep their statistics. The game has one simulation more and waits for nothing.
#[verifier::spinoff_prover]
pub proof fn lemma_backed_up<V: Variant>(
    slot: &mut Slot<V::Stats, V::Prob>,
    arena: &mut Arena<V::Stats>,
    value: V::Value,
    params: V::Params,
    k: int,
    other: int,
)
    requires
        call_ensures(back_up::<V>, (slot, arena, value, &params), ()),
        old(slot).path.steps@.len() > 0,
        0 <= k < old(slot).path.steps@.len(),
        forall|j: int|
            0 <= j < old(slot).path.steps@.len() && j != k ==> (
            #[trigger] old(slot).path.steps@[j]).node != old(slot).path.steps@[k].node,
        old(slot).path.steps@[k].node == u32::MAX || old(arena).is_live(
            old(slot).path.steps@[k].node as int,
        ),
        forall|i: int| #[trigger] old(arena).is_live(i) <==> final(arena).is_live(i),
        0 <= other < old(arena).nodes@.len(),
        forall|j: int|
            0 <= j < old(slot).path.steps@.len() ==> (
            #[trigger] old(slot).path.steps@[j]).node != other,
    ensures
        ({
            let s = old(slot).path.steps@[k];
            let at_root = s.node == u32::MAX;
            let game = if at_root {
                old(slot).root.game
            } else {
                old(arena).nodes@[s.node as int].game
            };
            exists|n: [u32; 2]| {
                &&& n@[0] == takeable(game.cells@, game.move_count > 0, 0)
                &&& n@[1] == takeable(game.cells@, game.move_count > 0, 1)
                &&& #[trigger] call_ensures(
                    V::backup,
                    (
                        stats_there(old(slot).root.stats, old(arena).nodes@, s.node),
                        s.choice,
                        value,
                        n,
                        &params,
                    ),
                    stats_there(final(slot).root.stats, final(arena).nodes@, s.node),
                )
            }
        }),
        final(arena).nodes@[other] == old(arena).nodes@[other],
        final(slot).sim_count == old(slot).sim_count + 1,
        final(slot).waiting_on is None,
        final(slot).path.steps@.len() == 0,
        final(slot).root.game == old(slot).root.game,
{
    let steps = old(slot).path.steps@;
    let s = steps[k];
    let root = old(slot).root;
    let game = game_at(root, *old(arena), s.node);
    lemma_whole_path::<V>(
        root,
        *old(arena),
        steps,
        value,
        params,
        stats_of(root, *old(arena)),
        stats_of(final(slot).root, *final(arena)),
        k,
    );
    let n = choose|n: [u32; 2]| #[trigger]
        counts_of(game, n) && call_ensures(
            V::backup,
            (stats_of(root, *old(arena))[s.node], s.choice, value, n, &params),
            stats_of(final(slot).root, *final(arena))[s.node],
        );
    lemma_takeable(game, 0);
    lemma_takeable(game, 1);
    assert(stats_of(root, *old(arena))[s.node] == stats_there(
        old(slot).root.stats,
        old(arena).nodes@,
        s.node,
    ));
    assert(stats_of(final(slot).root, *final(arena))[s.node] == stats_there(
        final(slot).root.stats,
        final(arena).nodes@,
        s.node,
    ));
    assert(!on_path(steps, other));
}

// ---------------------------------------------------------------------------------- descents

/// How a descent ends. At a finished game it counts as a simulation, and nothing is left in
/// flight. At a node it waits for, the game is listed there and the node awaits its evaluation;
/// it is called fresh exactly if it was not there before. Given up, it leaves nothing behind.
#[verifier::spinoff_prover]
pub proof fn lemma_descent_ends<V: Variant>(
    id: u16,
    slot: &mut Slot<V::Stats, V::Prob>,
    arena: &mut Arena<V::Stats>,
    params: V::Params,
    rng: &mut Rng,
    scratch: &mut Scratch,
    r: Descent,
)
    requires
        call_ensures(descend::<V>, (id, slot, arena, &params, rng, scratch), r),
    ensures
        final(slot).root.game == old(slot).root.game,
        final(slot).root.key == old(slot).root.key,
        final(slot).sim_count == old(slot).sim_count + (if r is NoEntry {
            1int
        } else {
            0
        }),
        r matches Descent::Entry { node, fresh } ==> {
            let n = final(arena).nodes@[node as int];
            &&& final(slot).waiting_on == Some(node)
            &&& final(slot).path.steps@.len() > 0
            &&& final(slot).path.steps@[0].node == u32::MAX
            &&& n.ids@.take(n.id_count as int).contains(id)
            &&& n.flags & 1 != 0
            &&& fresh <==> !old(arena).is_live(node as int)
        },
        !(r is Entry) ==> final(slot).waiting_on is None && final(slot).path.steps@.len() == 0,
        r is Exhausted ==> old(arena).live == old(arena).capacity || final(slot).last_depth == 80,
{
    reveal(descended);
}

/// On the path that a descent leaves in flight, every move is one that its player may play in
/// the position it is chosen in.
#[verifier::spinoff_prover]
pub proof fn lemma_descent_legal<V: Variant>(
    id: u16,
    slot: &mut Slot<V::Stats, V::Prob>,
    arena: &mut Arena<V::Stats>,
    params: V::Params,
    rng: &mut Rng,
    scratch: &mut Scratch,
    r: Descent,
    k: int,
)
    requires
        call_ensures(descend::<V>, (id, slot, arena, &params, rng, scratch), r),
        r is Entry,
        0 <= k < final(slot).path.steps@.len(),
    ensures
        ({
            let s = final(slot).path.steps@[k];
            let g = if s.node == u32::MAX {
                final(slot).root.game
            } else {
                final(arena).nodes@[s.node as int].game
            };
            let a0 = s.choice@[0].action as int;
            let a1 = s.choice@[1].action as int;
            let c0 = 2 * a0 + (a0 / 8) % 2;
            let c1 = 2 * a1 + (a1 / 8) % 2;
            &&& g.cells@[c0] == PLAYABLE_SQUARE
            &&& g.cells@[c1] == PLAYABLE_SQUARE
            &&& g.move_count == 0 ==> c0 % 16 < 8 && c1 % 16 >= 8
        }),
{
    reveal(descended);
    let s = final(slot).path.steps@[k];
    assert(step_ok(final(slot).root, *final(arena), s));
}

/// A node waits for its evaluation exactly if the lowest of its flags is set.
pub proof fn lemma_waits<S>(n: Node<S>, r: bool)
    requires
        call_ensures(Node::<S>::is_pending, (&n,), r),
    ensures
        r <==> n.flags % 2 == 1,
{
    let f = n.flags;
    assert(f & 1 != 0 <==> f % 2 == 1) by (bit_vector);
}

/// A row of a buffer shows the squares of its game in board order and both scores, and keeps
/// who asked; the rows before stay.
pub proof fn lemma_row_added(b: &mut Buffer, game: Game, target: Target, i: int, r: int)
    requires
        call_ensures(Buffer::push, (b, &game, target), ()),
        0 <= i < HW,
        (i / 16 + i % 16) % 2 == 0,
        0 <= r < old(b).targets@.len(),
    ensures
        ({
            let row = old(b).targets@.len() as int;
            &&& final(b).targets@.len() == row + 1
            &&& final(b).targets@[row] == target
            &&& final(b).positions@[row]@[i / 2] == game.cells@[i]
            &&& final(b).scores@[row] == game.scores
            &&& final(b).targets@[r] == old(b).targets@[r]
            &&& final(b).positions@[r] == old(b).positions@[r]
            &&& final(b).scores@[r] == old(b).scores@[r]
        }),
{
    lemma_bit_of(i);
    let row = old(b).targets@.len() as int;
    assert(final(b).row_is(row, game));
    assert(final(b).positions@[row]@[i / 2] == squares_of(game.cells@)[i / 2]);
    assert(final(b).positions@[r] == old(b).positions@[r]);
}

} // verus!
