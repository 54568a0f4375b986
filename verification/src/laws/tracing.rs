//! What a search says of itself.
use vstd::prelude::*;

use crate::board::{HW, PLAYABLE_SQUARE, REMOVED_SQUARE, SQUARES};
use crate::game::squares_of;
use crate::laws::files::{lemma_decimal_read, reading};
use crate::legal::{holds, lemma_cell_of, LEGAL_WORDS};
use crate::mcts::arena::{Arena, Node};
use crate::mcts::buffer::{Buffer, Target};
use crate::mcts::config::Config;
use crate::mcts::descent::{root_ok, Descent};
use crate::mcts::diagnostics::Diagnostics;
use crate::mcts::lifetime::{age_count, age_histogram, of_age};
use crate::mcts::slot::{Root, Slot};
use crate::mcts::sweep::{nodes_tally, reach_tally, stale, sweep, swept_at, tally_of, Tally};
use crate::mcts::trace::{
    all_simulated, answers_among, child_among, children_among, label_of, named_rows, push_outcome,
    Names,
};
use crate::moves::moved;
use crate::reach::{may_become, reachable};
use crate::sums::{lemma_sum_eq, sum_to, unit};
use crate::text::decimal;
use crate::zobrist::{hash_of, lemma_step_matches_rehash};

verus! {

// ----------------------------------------------------------------------------- single events

/// A descent is counted once, in the bucket of its depth, the last of which takes all that are
/// deeper, and under what became of it. Nothing else is counted.
pub proof fn lemma_descent_counted(d: &mut Diagnostics, depth: u8, r: Descent, k: int)
    requires
        call_ensures(Diagnostics::note_descent, (d, depth, r), ()),
        old(d).wf(),
        0 <= k < 24,
    ensures
        final(d).descents == old(d).descents.wrapping_add(1),
        final(d).depth_total == old(d).depth_total.wrapping_add(depth as u64),
        final(d).depth_hist@[k] == old(d).depth_hist@[k].wrapping_add(
            if k == depth || k == 23 && depth > 23 {
                1
            } else {
                0
            },
        ),
        match r {
            Descent::Entry { fresh, .. } => {
                &&& final(d).buffer_unique == old(d).buffer_unique.wrapping_add(
                    if fresh {
                        1
                    } else {
                        0
                    },
                )
                &&& final(d).duplicate_hits == old(d).duplicate_hits.wrapping_add(
                    if fresh {
                        0
                    } else {
                        1
                    },
                )
                &&& final(d).terminal_hits == old(d).terminal_hits
                &&& final(d).exhausted == old(d).exhausted
            },
            Descent::NoEntry => {
                &&& final(d).buffer_unique == old(d).buffer_unique
                &&& final(d).duplicate_hits == old(d).duplicate_hits
                &&& final(d).terminal_hits == old(d).terminal_hits.wrapping_add(1)
                &&& final(d).exhausted == old(d).exhausted
            },
            Descent::Exhausted => {
                &&& final(d).buffer_unique == old(d).buffer_unique
                &&& final(d).duplicate_hits == old(d).duplicate_hits
                &&& final(d).terminal_hits == old(d).terminal_hits
                &&& final(d).exhausted == old(d).exhausted.wrapping_add(1)
            },
        },
        final(d).steps == old(d).steps,
        final(d).cycles == old(d).cycles,
        final(d).games_finished == old(d).games_finished,
{
}

/// A walk that filled every row adds its end and changes nothing about short cycles. One that
/// did not adds its empty rows, is noted as the last short cycle and among the first 64 of
/// them, and adds the descents and duplicates since it began.
pub proof fn lemma_walk_counted(d: &mut Diagnostics, end: usize, short: usize, before: [u64; 2])
    requires
        call_ensures(Diagnostics::note_walk, (d, end, short, before), ()),
        old(d).wf(),
    ensures
        final(d).walk_end_total == old(d).walk_end_total.wrapping_add(end as u64),
        short == 0 ==> {
            &&& final(d).buffer_shortfall == old(d).buffer_shortfall
            &&& final(d).cycles_short == old(d).cycles_short
            &&& final(d).last_short_cycle == old(d).last_short_cycle
            &&& final(d).short_cycles@ == old(d).short_cycles@
            &&& final(d).short_descents == old(d).short_descents
            &&& final(d).short_duplicates == old(d).short_duplicates
        },
        short > 0 ==> {
            &&& final(d).buffer_shortfall == old(d).buffer_shortfall.wrapping_add(short as u64)
            &&& final(d).cycles_short == old(d).cycles_short.wrapping_add(1)
            &&& final(d).last_short_cycle == old(d).cycles
            &&& old(d).short_cycles@.len() < 64 ==> final(d).short_cycles@.len() == old(
                d,
            ).short_cycles@.len() + 1 && final(d).short_cycles@.last() == old(d).cycles
            &&& old(d).short_cycles@.len() >= 64 ==> final(d).short_cycles@ == old(
                d,
            ).short_cycles@
            &&& final(d).short_descents.wrapping_sub(old(d).short_descents) == old(
                d,
            ).descents.wrapping_sub(before@[0])
            &&& final(d).short_duplicates.wrapping_sub(old(d).short_duplicates) == old(
                d,
            ).duplicate_hits.wrapping_sub(before@[1])
        },
        final(d).descents == old(d).descents,
        final(d).duplicate_hits == old(d).duplicate_hits,
{
}

// ------------------------------------------------------------------------------------- names

/// The nodes of a buffer's rows get names in the order of the rows in which they first come
/// up. A name given stays, nodes have one name each, and nothing but a row's node gets one.
pub proof fn lemma_named_in_order(names: &mut Names, buffer: Buffer, node: u32)
    requires
        call_ensures(Names::note_rows, (names, &buffer), ()),
        old(names).wf(),
    ensures
        final(names).nodes@.no_duplicates(),
        old(names).nodes@ =~= final(names).nodes@.take(old(names).nodes@.len() as int),
        final(names).nodes@.contains(node) <==> old(names).nodes@.contains(node) || exists|r: int|
            0 <= r < buffer.targets@.len() && #[trigger] buffer.targets@[r] == Target::Node(node),
        forall|j: int|
            old(names).nodes@.len() <= j < final(names).nodes@.len() ==> #[trigger] newly_named(
                buffer.targets@,
                buffer.targets@.len(),
                final(names).nodes@,
                j,
            ),
{
    lemma_named_rows(old(names).nodes@, buffer.targets@, buffer.targets@.len(), node);
}

/// Do the rows before `r` ask about named nodes with a name before `j`, and about no other?
pub open spec fn buffer_names_before(targets: Seq<Target>, r: int, nodes: Seq<u32>, j: int) -> bool {
    forall|q: int|
        0 <= q < r ==> match #[trigger] targets[q] {
            Target::Node(n) => exists|k: int| 0 <= k < j && #[trigger] nodes[k] == n,
            Target::Root(_) => true,
        }
}

/// Does one of the first `n` rows ask about the node with name `j`, and none before it about a
/// node with that name or a later one?
pub open spec fn newly_named(targets: Seq<Target>, n: nat, nodes: Seq<u32>, j: int) -> bool {
    exists|r: int|
        0 <= r < n && #[trigger] targets[r] == Target::Node(nodes[j]) && buffer_names_before(
            targets,
            r,
            nodes,
            j,
        )
}

proof fn lemma_named_rows(nodes: Seq<u32>, targets: Seq<Target>, n: nat, node: u32)
    requires
        nodes.no_duplicates(),
        n <= targets.len(),
    ensures
        ({
            let all = named_rows(nodes, targets, n);
            &&& all.no_duplicates()
            &&& nodes.len() <= all.len()
            &&& nodes =~= all.take(nodes.len() as int)
            &&& all.contains(node) <==> nodes.contains(node) || exists|r: int|
                0 <= r < n && #[trigger] targets[r] == Target::Node(node)
            &&& buffer_names_before(targets, n as int, all, all.len() as int)
            &&& forall|j: int|
                nodes.len() <= j < all.len() ==> #[trigger] newly_named(targets, n, all, j)
        }),
    decreases n,
{
    if n > 0 {
        lemma_named_rows(nodes, targets, (n - 1) as nat, node);
        let before = named_rows(nodes, targets, (n - 1) as nat);
        let all = named_rows(nodes, targets, n);
        let t = targets[n - 1];
        assert forall|k: int| 0 <= k < before.len() implies all[k] == before[k] by {}
        assert(buffer_names_before(targets, n as int, all, all.len() as int)) by {
            assert forall|q: int| 0 <= q < n implies match #[trigger] targets[q] {
                Target::Node(m) => exists|k: int|
                    0 <= k < all.len() && #[trigger] all[k] == m,
                Target::Root(_) => true,
            } by {
                if let Target::Node(m) = targets[q] {
                    if q < n - 1 {
                        let k = choose|k: int| 0 <= k < before.len() && #[trigger] before[k] == m;
                        assert(all[k] == m);
                    } else if before.contains(m) {
                        let k = choose|k: int| 0 <= k < before.len() && #[trigger] before[k] == m;
                        assert(all[k] == m);
                    } else {
                        assert(all[before.len() as int] == m);
                    }
                }
            }
        }
        if all.contains(node) && !before.contains(node) {
            assert(t == Target::Node(node));
        }
        if t == Target::Node(node) && !before.contains(node) {
            assert(all[before.len() as int] == node);
        }
        if before.contains(node) {
            let k = choose|k: int| 0 <= k < before.len() && before[k] == node;
            assert(all[k] == node);
        }
        assert forall|j: int| nodes.len() <= j < all.len() implies #[trigger] newly_named(
            targets,
            n,
            all,
            j,
        ) by {
            assert(j < before.len() ==> newly_named(targets, (n - 1) as nat, before, j));
            let r = if j < before.len() {
                choose|r: int|
                    0 <= r < n - 1 && #[trigger] targets[r] == Target::Node(before[j])
                        && buffer_names_before(targets, r, before, j)
            } else {
                n - 1
            };
            assert(targets[r] == Target::Node(all[j]));
            assert forall|q: int| 0 <= q < r implies match #[trigger] targets[q] {
                Target::Node(m) => exists|k: int| 0 <= k < j && #[trigger] all[k] == m,
                Target::Root(_) => true,
            } by {
                if let Target::Node(m) = targets[q] {
                    let k = choose|k: int| 0 <= k < j && #[trigger] before[k] == m;
                    assert(all[k] == m);
                }
            }
        }
    }
}

/// A root is written `r`. The node named first is `n1`, the next `n2` and so on, and one
/// without a name is written as its number behind a question mark.
pub proof fn lemma_labelled(names: Names, out: &mut String, node: u32, k: int)
    requires
        call_ensures(Names::push_label, (&names, out, node), ()),
        names.wf(),
        0 <= k < names.nodes@.len(),
    ensures
        ({
            let label = final(out)@.skip(old(out)@.len() as int);
            &&& final(out)@.take(old(out)@.len() as int) =~= old(out)@
            &&& node == u32::MAX ==> label =~= seq!['r']
            &&& node != u32::MAX && names.nodes@[k] == node ==> {
                &&& label[0] == 'n'
                &&& reading(label.skip(1), 10) == k + 1
            }
            &&& node != u32::MAX && !names.nodes@.contains(node) ==> {
                &&& label[0] == '?'
                &&& reading(label.skip(1), 10) == node
            }
        }),
{
    reveal_strlit("r");
    reveal_strlit("n");
    reveal_strlit("?");
    let label = label_of(names.nodes@, node);
    assert(final(out)@.skip(old(out)@.len() as int) =~= label);
    lemma_decimal_read((k + 1) as nat);
    lemma_decimal_read(node as nat);
    if node != u32::MAX {
        if names.nodes@[k] == node {
            assert(names.nodes@.contains(node));
            assert(names.nodes@.index_of(node) == k);
            assert(label.skip(1) =~= decimal((k + 1) as nat));
        }
        if !names.nodes@.contains(node) {
            assert(label.skip(1) =~= decimal(node as nat));
        }
    }
}

/// What is told of a descent names its node, says whether the node was queued by it or by
/// another game, and tells a terminal from a full stack.
pub proof fn lemma_outcome_told(
    out: &mut String,
    names: Names,
    game: u16,
    depth: u8,
    r: Descent,
)
    requires
        call_ensures(push_outcome, (out, &names, game, depth, r), ()),
    ensures
        final(out)@ == old(out)@ + match r {
            Descent::Entry { node, fresh } => (if fresh {
                "        queued node "@
            } else {
                "        node "@
            }) + label_of(names.nodes@, node) + (if fresh {
                " for eval\n"@
            } else {
                " already in buffer\n"@
            }),
            Descent::NoEntry => "    game "@ + decimal(game as nat) + ": terminal at depth "@
                + decimal(depth as nat) + " (backed up on the spot)\n"@,
            Descent::Exhausted => "    game "@ + decimal(game as nat)
                + ": EXHAUSTED (node stack full)\n"@,
        },
{
}

/// Is there a node for the board to which the moves `x` and `y` lead, both of the given masks?
pub open spec fn led_to<S>(
    root: Root<S>,
    a: Arena<S>,
    first: Seq<u64>,
    second: Seq<u64>,
    x: int,
    y: int,
) -> bool {
    let board = moved(root.game.cells@, 2 * x + (x / 8) % 2, 2 * y + (y / 8) % 2);
    holds(first, x) && holds(second, y) && !a.lacks(hash_of(squares_of(board)))
}

/// The children of a root are counted by its moves: one for each pair, of a square of the
/// first mask and one of the second, that leads to a board with a node.
pub proof fn lemma_children_counted<S>(
    root: Root<S>,
    arena: Arena<S>,
    first: [u64; LEGAL_WORDS],
    second: [u64; LEGAL_WORDS],
    count: usize,
)
    requires
        call_ensures(children_among::<S>, (&root, &arena, first, second), count),
        root_ok(root),
        arena.wf(),
        forall|k: int|
            0 <= k < SQUARES && #[trigger] holds(first@, k)
                ==> root.game.cells@[2 * k + (k / 8) % 2] == PLAYABLE_SQUARE,
        forall|k: int|
            0 <= k < SQUARES && #[trigger] holds(second@, k) ==> root.game.cells@[2 * k + (k / 8)
                % 2] == PLAYABLE_SQUARE,
    ensures
        count == sum_to(
            |x: int| sum_to(|y: int| unit(led_to(root, arena, first@, second@, x, y)), 80),
            80,
        ),
{
    let f = |x: int| answers_among(root, arena, first@, second@, x, SQUARES as nat);
    let g = |x: int| sum_to(|y: int| unit(led_to(root, arena, first@, second@, x, y)), 80);
    assert forall|x: int| 0 <= x < 80 implies #[trigger] f(x) == g(x) by {
        let p = |y: int| unit(child_among(root, arena, first@, second@, x, y));
        let q = |y: int| unit(led_to(root, arena, first@, second@, x, y));
        assert forall|y: int| 0 <= y < 80 implies #[trigger] p(y) == q(y) by {
            if holds(first@, x) && holds(second@, y) {
                lemma_cell_of(x);
                lemma_cell_of(y);
                lemma_step_matches_rehash(root.game.cells@, x, y);
                let key = hash_of(
                    squares_of(moved(root.game.cells@, 2 * x + (x / 8) % 2, 2 * y + (y / 8) % 2)),
                );
                if arena.has(key) {
                    assert(arena.is_live(arena.index@[key] as int));
                } else {
                    assert(arena.lacks(key));
                }
            }
        }
        lemma_sum_eq(p, q, 80);
    }
    lemma_sum_eq(f, g, 80);
}

/// All games have simulated so much exactly if none has done less.
pub proof fn lemma_all_simulated<S, P>(slots: Vec<Slot<S, P>>, sims: u32, r: bool, i: int)
    requires
        call_ensures(all_simulated::<S, P>, (&slots, sims), r),
        0 <= i < slots@.len(),
    ensures
        r ==> slots@[i].sim_count >= sims,
        !r ==> exists|j: int| 0 <= j < slots@.len() && (#[trigger] slots@[j]).sim_count < sims,
{
}

// ---------------------------------------------------------------------------------- settings

/// Targets can be collected exactly with settings that have games, numbered below 65536, rows,
/// a threshold, simulations and nodes, and no more rows nor a higher threshold than games.
pub proof fn lemma_trainable(c: Config, r: bool)
    requires
        call_ensures(Config::trainable, (&c,), r),
    ensures
        r ==> c.g < 65536 && c.b <= c.g && c.t <= c.g,
        r ==> c.g != 0 && c.b != 0 && c.t != 0 && c.s != 0 && c.node_capacity != 0,
        !r ==> c.g == 0 || c.b == 0 || c.t == 0 || c.s == 0 || c.node_capacity == 0 || c.g >= 65536
            || c.b > c.g || c.t > c.g,
{
}

// ----------------------------------------------------------------------------------- a sweep

/// What a sweep leaves of a node: a game that is over gives it up, a game that moved keeps it
/// if every square can still come to hold what it holds there, and any other game keeps it. A
/// node that nobody keeps is gone; another is a sweep older and otherwise the same.
pub proof fn lemma_swept<S, P>(
    arena: &mut Arena<S>,
    slots: Vec<Slot<S, P>>,
    stepping: Vec<bool>,
    finished: Vec<bool>,
    diag: &mut Diagnostics,
    i: int,
    id: u16,
)
    requires
        call_ensures(sweep::<S, P>, (arena, &slots, &stepping, &finished, diag), ()),
        old(arena).is_live(i),
        0 <= i < old(arena).nodes@.len(),
        old(arena).nodes@[i].listed().contains(id),
    ensures
        ({
            let was = old(arena).nodes@[i];
            let now = final(arena).nodes@[i];
            let root = slots@[id as int].root.game.cells@;
            let keeps = !finished@[id as int] && (stepping@[id as int] ==> comes_from(
                root,
                was.game.cells@,
            ));
            &&& keeps ==> final(arena).is_live(i)
            &&& final(arena).is_live(i) ==> {
                &&& now.ids@.take(now.id_count as int).contains(id) <==> keeps
                &&& now.key == was.key
                &&& now.game == was.game
                &&& now.stats == was.stats
                &&& now.flags == was.flags
                &&& now.sweep_age == (if was.sweep_age == u32::MAX {
                    u32::MAX as int
                } else {
                    was.sweep_age + 1
                })
            }
        }),
{
    assert(swept_at(slots@, stepping@, finished@, *old(arena), *final(arena), i));
    lemma_reachable(slots@[id as int].root.game.cells@, old(arena).nodes@[i].game.cells@);
    assert(old(arena).nodes@[i].listed().contains(id));
    assert(stale(slots@, stepping@, finished@, old(arena).nodes@[i].game.cells@, id) == (
    finished@[id as int] || stepping@[id as int] && !reachable(
        slots@[id as int].root.game.cells@,
        old(arena).nodes@[i].game.cells@,
    )));
}

proof fn lemma_reachable(root: Seq<i8>, node: Seq<i8>)
    ensures
        reachable(root, node) <==> comes_from(root, node),
{
    if reachable(root, node) {
        assert forall|x: int| 0 <= x < HW implies #[trigger] root[x] == node[x] || root[x]
            == PLAYABLE_SQUARE || node[x] == REMOVED_SQUARE by {
            assert(may_become(root[x], node[x]));
        }
    }
}

/// How many ids of a node ask for a reach test: those of games that moved and go on.
pub open spec fn tests_of<S>(n: Node<S>, stepping: Seq<bool>, finished: Seq<bool>) -> int {
    sum_to(
        |m: int| unit(stepping[n.ids@[m] as int] && !finished[n.ids@[m] as int]),
        n.id_count as nat,
    )
}

/// How many of those tests a node passes: every square of the game's board can come to hold
/// what it holds in the node.
pub open spec fn passes_of<S, P>(
    n: Node<S>,
    slots: Seq<Slot<S, P>>,
    stepping: Seq<bool>,
    finished: Seq<bool>,
) -> int {
    sum_to(
        |m: int|
            unit(
                stepping[n.ids@[m] as int] && !finished[n.ids@[m] as int] && comes_from(
                    slots[n.ids@[m] as int].root.game.cells@,
                    n.game.cells@,
                ),
            ),
        n.id_count as nat,
    )
}

/// Can every cell of `root` come to hold what it holds in `node`: the same, anything where it
/// is open, or nothing?
pub open spec fn comes_from(root: Seq<i8>, node: Seq<i8>) -> bool {
    forall|x: int|
        0 <= x < HW ==> #[trigger] root[x] == node[x] || root[x] == PLAYABLE_SQUARE || node[x]
            == REMOVED_SQUARE
}

/// A sweep runs a reach test for every id, of a node in use, whose game moved and goes on. It
/// counts those, those that were passed, and the nodes by how many ids they have.
pub proof fn lemma_tests_counted<S, P>(
    arena: &mut Arena<S>,
    slots: Vec<Slot<S, P>>,
    stepping: Vec<bool>,
    finished: Vec<bool>,
    diag: &mut Diagnostics,
    c: int,
)
    requires
        call_ensures(sweep::<S, P>, (arena, &slots, &stepping, &finished, diag), ()),
        old(arena).wf(),
        old(diag).wf(),
        0 < c <= 64,
    ensures
        final(diag).reach_tested == (old(diag).reach_tested + sum_to(
            |i: int| tests_of(old(arena).nodes@[i], stepping@, finished@),
            old(arena).nodes@.len(),
        )) % 0x1_0000_0000_0000_0000,
        final(diag).reach_kept == (old(diag).reach_kept + sum_to(
            |i: int| passes_of(old(arena).nodes@[i], slots@, stepping@, finished@),
            old(arena).nodes@.len(),
        )) % 0x1_0000_0000_0000_0000,
        final(diag).id_histogram@[c] == (old(diag).id_histogram@[c] + sum_to(
            |i: int| unit(old(arena).nodes@[i].id_count == c),
            old(arena).nodes@.len(),
        )) % 0x1_0000_0000_0000_0000,
        final(diag).max_id_count >= old(diag).max_id_count,
        forall|i: int|
            0 <= i < old(arena).nodes@.len() ==> final(diag).max_id_count >= (#[trigger] old(
                arena,
            ).nodes@[i]).id_count,
        final(diag).max_id_count == old(diag).max_id_count || exists|i: int|
            0 <= i < old(arena).nodes@.len() && (#[trigger] old(arena).nodes@[i]).id_count
                == final(diag).max_id_count,
{
    lemma_nodes_tested(
        slots@,
        stepping@,
        finished@,
        tally_of(*old(diag)),
        *old(arena),
        c,
        old(arena).nodes@.len(),
    );
}

proof fn lemma_ids_tested<S, P>(
    slots: Seq<Slot<S, P>>,
    stepping: Seq<bool>,
    finished: Seq<bool>,
    n: Node<S>,
    begin: (u64, u64),
    k: nat,
)
    requires
        k <= n.id_count <= n.ids@.len(),
    ensures
        reach_tally(slots, stepping, finished, n.game.cells@, n.listed(), begin, k).0 == (begin.0
            + sum_to(
            |m: int| unit(stepping[n.ids@[m] as int] && !finished[n.ids@[m] as int]),
            k,
        )) % 0x1_0000_0000_0000_0000,
        reach_tally(slots, stepping, finished, n.game.cells@, n.listed(), begin, k).1 == (begin.1
            + sum_to(
            |m: int|
                unit(
                    stepping[n.ids@[m] as int] && !finished[n.ids@[m] as int] && comes_from(
                        slots[n.ids@[m] as int].root.game.cells@,
                        n.game.cells@,
                    ),
                ),
            k,
        )) % 0x1_0000_0000_0000_0000,
    decreases k,
{
    if k > 0 {
        lemma_ids_tested(slots, stepping, finished, n, begin, (k - 1) as nat);
        lemma_reachable(slots[n.ids@[k - 1] as int].root.game.cells@, n.game.cells@);
        assert(n.listed()[k - 1] == n.ids@[k - 1]);
    }
}

proof fn lemma_nodes_tested<S, P>(
    slots: Seq<Slot<S, P>>,
    stepping: Seq<bool>,
    finished: Seq<bool>,
    begin: Tally,
    a: Arena<S>,
    c: int,
    k: nat,
)
    requires
        a.wf(),
        0 < c <= 64,
        begin.histogram.len() == 65,
        k <= a.nodes@.len(),
    ensures
        ({
            let t = nodes_tally(slots, stepping, finished, begin, a.nodes@, k);
            &&& t.tested == (begin.tested + sum_to(
                |i: int| tests_of(a.nodes@[i], stepping, finished),
                k,
            )) % 0x1_0000_0000_0000_0000
            &&& t.kept == (begin.kept + sum_to(
                |i: int| passes_of(a.nodes@[i], slots, stepping, finished),
                k,
            )) % 0x1_0000_0000_0000_0000
            &&& t.histogram.len() == 65
            &&& t.histogram[c] == (begin.histogram[c] + sum_to(
                |i: int| unit(a.nodes@[i].id_count == c),
                k,
            )) % 0x1_0000_0000_0000_0000
            &&& t.highest >= begin.highest
            &&& forall|i: int| 0 <= i < k ==> t.highest >= (#[trigger] a.nodes@[i]).id_count
            &&& t.highest == begin.highest || exists|i: int|
                0 <= i < k && (#[trigger] a.nodes@[i]).id_count == t.highest
        }),
    decreases k,
{
    if k > 0 {
        lemma_nodes_tested(slots, stepping, finished, begin, a, c, (k - 1) as nat);
        let t = nodes_tally(slots, stepping, finished, begin, a.nodes@, (k - 1) as nat);
        let n = a.nodes@[k - 1];
        assert(n.wf());
        assert(n.listed().len() == n.id_count);
        lemma_ids_tested(slots, stepping, finished, n, (t.tested, t.kept), n.id_count as nat);
        if n.id_count == 0 {
            assert(tests_of(n, stepping, finished) == 0);
            assert(passes_of(n, slots, stepping, finished) == 0);
        }
    }
}

/// A count of ages is one of the nodes in use: for each age, as many as have survived so many
/// sweeps.
pub proof fn lemma_ages_counted<S>(a: Arena<S>, buckets: usize, counts: Vec<usize>, age: int)
    requires
        call_ensures(age_histogram::<S>, (&a, buckets), counts),
        0 <= age < buckets,
    ensures
        counts@.len() == buckets,
        counts@[age] == sum_to(
            |i: int| unit(a.is_live(i) && a.nodes@[i].sweep_age == age),
            a.nodes@.len(),
        ),
{
    lemma_sum_eq(
        |i: int| unit(of_age(a, age, i)),
        |i: int| unit(a.is_live(i) && a.nodes@[i].sweep_age == age),
        a.nodes@.len(),
    );
    assert(counts@[age] == age_count(a, age, a.nodes@.len()));
}

/// A reach test is counted, and counted as passed if it was.
pub proof fn lemma_test_counted(d: &mut Diagnostics, keep: bool)
    requires
        call_ensures(Diagnostics::note_reach, (d, keep), ()),
    ensures
        final(d).reach_tested == old(d).reach_tested.wrapping_add(1),
        keep ==> final(d).reach_kept == old(d).reach_kept.wrapping_add(1),
        !keep ==> final(d).reach_kept == old(d).reach_kept,
        final(d).nodes_deleted == old(d).nodes_deleted,
{
}

/// A swept node is counted under its number of ids, a full one also under how many it was left
/// with, and one left with none as deleted.
pub proof fn lemma_node_counted(d: &mut Diagnostics, count: usize, survivors: usize, k: int)
    requires
        call_ensures(Diagnostics::note_swept, (d, count, survivors), ()),
        old(d).wf(),
        count <= 64,
        survivors <= 64,
        0 <= k <= 64,
    ensures
        final(d).id_histogram@[k] == old(d).id_histogram@[k].wrapping_add(
            if k == count {
                1
            } else {
                0
            },
        ),
        final(d).full_node_survivors@[k] == old(d).full_node_survivors@[k].wrapping_add(
            if count == 64 && k == survivors {
                1
            } else {
                0
            },
        ),
        final(d).nodes_deleted == old(d).nodes_deleted.wrapping_add(
            if survivors == 0 {
                1
            } else {
                0
            },
        ),
        final(d).max_id_count >= count,
        final(d).max_id_count >= old(d).max_id_count,
        final(d).max_id_count == count || final(d).max_id_count == old(d).max_id_count,
        final(d).reach_tested == old(d).reach_tested,
{
}

/// The settings for studying one move leave a row for every game and never step.
pub proof fn lemma_settings(g: usize, c: Config)
    requires
        call_ensures(Config::cfg_for, (g,), c),
    ensures
        c.g == g,
        c.b == g,
        c.t == usize::MAX,
        c.s == 200,
        c.max_descents == 4,
        c.node_capacity >= 4096,
        c.node_capacity >= 125 * g,
        c.node_capacity == 4096 || c.node_capacity == 125 * g,
{
}

} // verus!
