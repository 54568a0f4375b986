//! What happens to games that play themselves.
use vstd::prelude::*;

use crate::board::{
    HW, NON_PLAYABLE_SQUARE, PLAYABLE_SQUARE, PLAYER_0_MARK, PLAYER_1_MARK, REMOVED_SQUARE, SQUARES,
};
use crate::game::{outcome, Game};
use crate::klent::{
    both_drawn_by, drawn, drawn_by, finished_into, game_ok, game_stepped, lemma_unpack_pack,
    mark_of, marks_of, moves_below, recorded, return_at, returns_of, seen_scores, stepped_one,
    steps_through, stored_as, stored_from, unpacked, weighed, Arena, Record, Rule,
};
use crate::laws::rules::lemma_moved_cell;
use crate::laws::training::lemma_unpacked_digit;
use crate::legal::{cell_of, holds, lemma_bit_of, lemma_cell_of, LEGAL_WORDS};
use crate::rng::Rng;
use crate::sums::{lemma_sum_eq, sum_to, unit};

verus! {

/// A step of all games, one after the other.
#[verifier::opaque]
spec fn runs<R: Rule>(
    trace: Seq<Arena<R>>,
    s0: Arena<R>,
    s: Arena<R>,
    outputs: R::Outputs,
) -> bool {
    steps_through(trace, s0, s, outputs)
}

/// The turn of game `i`.
proof fn lemma_turn<R: Rule>(
    trace: Seq<Arena<R>>,
    s0: Arena<R>,
    s: Arena<R>,
    outputs: R::Outputs,
    i: int,
)
    requires
        runs(trace, s0, s, outputs),
    ensures
        trace[0] == s0,
        trace[s0.games@.len() as int] == s,
        0 <= i < s0.games@.len() ==> stepped_one(trace[i], trace[i + 1], i, outputs),
{
    reveal(runs);
    if 0 <= i < s0.games@.len() {
        let x = trace[i];
    }
}

// -------------------------------------------------------------------------------- evaluation

/// The first `n` states of a step: what each game before the `n`th did, and what was counted.
proof fn lemma_counted_so_far<R: Rule>(
    trace: Seq<Arena<R>>,
    s0: Arena<R>,
    s: Arena<R>,
    outputs: R::Outputs,
    n: nat,
)
    requires
        runs(trace, s0, s, outputs),
        s0.evaluation,
        n <= s0.games@.len(),
        s0.results@[0] + s0.results@[1] + s0.results@[2] + s0.games@.len() <= usize::MAX,
    ensures
        trace[n as int].evaluation,
        trace[n as int].games@.len() == s0.games@.len(),
        trace[n as int].buffer == s0.buffer,
        forall|j: int|
            n <= j < s0.games@.len() ==> #[trigger] trace[n as int].games@[j] == s0.games@[j],
        forall|j: int|
            0 <= j < n ==> #[trigger] trace[n as int].games@[j] == s.games@[j],
        forall|j: int|
            0 <= j < n && (#[trigger] s0.games@[j]).finished ==> s.games@[j] == s0.games@[j],
        trace[n as int].results@[0] == s0.results@[0] + sum_to(
            |i: int|
                unit(
                    !s0.games@[i].finished && s.games@[i].finished && if i < s0.games@.len() as int
                        / 2 {
                        s.games@[i].scores@[1] > s.games@[i].scores@[0]
                    } else {
                        s.games@[i].scores@[0] > s.games@[i].scores@[1]
                    },
                ),
            n,
        ),
        trace[n as int].results@[1] == s0.results@[1] + sum_to(
            |i: int|
                unit(
                    !s0.games@[i].finished && s.games@[i].finished && s.games@[i].scores@[0]
                        == s.games@[i].scores@[1],
                ),
            n,
        ),
        trace[n as int].results@[2] == s0.results@[2] + sum_to(
            |i: int|
                unit(
                    !s0.games@[i].finished && s.games@[i].finished && if i < s0.games@.len() as int
                        / 2 {
                        s.games@[i].scores@[1] < s.games@[i].scores@[0]
                    } else {
                        s.games@[i].scores@[0] < s.games@[i].scores@[1]
                    },
                ),
            n,
        ),
        trace[n as int].results@[0] + trace[n as int].results@[1] + trace[n as int].results@[2]
            <= s0.results@[0] + s0.results@[1] + s0.results@[2] + n,
    decreases n,
{
    lemma_turn(trace, s0, s, outputs, n - 1);
    if n > 0 {
        let m = (n - 1) as nat;
        let i = n - 1;
        lemma_counted_so_far(trace, s0, s, outputs, m);
        lemma_later(trace, s0, s, outputs, n, i);
        let a = trace[i];
        let b = trace[i + 1];
        let (r, mid) = choose|r: Record<[R::Value; 2]>, mid: Game| #[trigger]
            game_stepped(a, b, i, outputs, r, mid);
        assert(game_stepped(a, b, i, outputs, r, mid));
        assert(a.games@[i] == s0.games@[i]);
        assert(b.games@[i] == s.games@[i]);
        assert forall|j: int| 0 <= j < n implies #[trigger] b.games@[j] == s.games@[j] by {
            if j < i {
                assert(a.games@[j] == s.games@[j]);
                assert(b.games@[j] == a.games@[j]);
            }
        }
        assert forall|j: int| n <= j < s0.games@.len() implies #[trigger] b.games@[j]
            == s0.games@[j] by {
            assert(a.games@[j] == s0.games@[j]);
            assert(b.games@[j] == a.games@[j]);
        }
    }
}

/// A game that has had its turn is as it will be.
proof fn lemma_later<R: Rule>(
    trace: Seq<Arena<R>>,
    s0: Arena<R>,
    s: Arena<R>,
    outputs: R::Outputs,
    n: nat,
    j: int,
)
    requires
        runs(trace, s0, s, outputs),
        0 <= j < n <= s0.games@.len(),
    ensures
        trace[n as int].games@.len() == s0.games@.len(),
        trace[n as int].games@[j] == s.games@[j],
        trace[n as int].histories@[j] == s.histories@[j],
    decreases s0.games@.len() - n,
{
    lemma_trace_len(trace, s0, s, outputs, n);
    lemma_turn(trace, s0, s, outputs, n as int);
    if n < s0.games@.len() {
        lemma_later(trace, s0, s, outputs, n + 1, j);
        assert(trace[n as int + 1].games@[j] == trace[n as int].games@[j]);
        assert(trace[n as int + 1].histories@[j] == trace[n as int].histories@[j]);
    }
}

/// A game that has not had its turn is as it was.
proof fn lemma_earlier<R: Rule>(
    trace: Seq<Arena<R>>,
    s0: Arena<R>,
    s: Arena<R>,
    outputs: R::Outputs,
    n: nat,
    j: int,
)
    requires
        runs(trace, s0, s, outputs),
        n <= j < s0.games@.len(),
    ensures
        trace[n as int].games@[j] == s0.games@[j],
        trace[n as int].histories@[j] == s0.histories@[j],
        trace[n as int].rule == s0.rule,
        trace[n as int].evaluation == s0.evaluation,
    decreases n,
{
    lemma_turn(trace, s0, s, outputs, n - 1);
    if n > 0 {
        lemma_earlier(trace, s0, s, outputs, (n - 1) as nat, j);
        lemma_trace_len(trace, s0, s, outputs, (n - 1) as nat);
        assert(trace[n as int].games@[j] == trace[n - 1].games@[j]);
        assert(trace[n as int].histories@[j] == trace[n - 1].histories@[j]);
    }
}

proof fn lemma_trace_len<R: Rule>(
    trace: Seq<Arena<R>>,
    s0: Arena<R>,
    s: Arena<R>,
    outputs: R::Outputs,
    n: nat,
)
    requires
        runs(trace, s0, s, outputs),
        n <= s0.games@.len(),
    ensures
        trace[n as int].games@.len() == s0.games@.len(),
        trace[n as int].rule == s0.rule,
        trace[n as int].evaluation == s0.evaluation,
    decreases n,
{
    lemma_turn(trace, s0, s, outputs, n - 1);
    if n > 0 {
        lemma_trace_len(trace, s0, s, outputs, (n - 1) as nat);
    }
}

/// In an evaluation the new model is player 1 in the first half of the games and player 0 in
/// the others, and results count for it: a step adds to the first count the games that end in
/// it with that player ahead, to the second those that end level, and to the third those that
/// end with that player behind. Finished games stay as they are, and nothing is stored.
pub proof fn lemma_results<R: Rule>(a: &mut Arena<R>, outputs: R::Outputs, done: bool)
    requires
        call_ensures(Arena::<R>::step, (a, &outputs), done),
        old(a).evaluation,
        old(a).results@[0] + old(a).results@[1] + old(a).results@[2] + old(a).games@.len()
            <= usize::MAX,
    ensures
        ({
            let n = old(a).games@.len();
            let before = old(a).games@;
            let after = final(a).games@;
            let ends = |i: int| !before[i].finished && after[i].finished;
            let lead = |i: int|
                if i < n as int / 2 {
                    after[i].scores@[1] - after[i].scores@[0]
                } else {
                    after[i].scores@[0] - after[i].scores@[1]
                };
            &&& after.len() == n
            &&& final(a).results@[0] == old(a).results@[0] + sum_to(
                |i: int| unit(ends(i) && lead(i) > 0),
                n,
            )
            &&& final(a).results@[1] == old(a).results@[1] + sum_to(
                |i: int| unit(ends(i) && lead(i) == 0),
                n,
            )
            &&& final(a).results@[2] == old(a).results@[2] + sum_to(
                |i: int| unit(ends(i) && lead(i) < 0),
                n,
            )
            &&& forall|i: int|
                0 <= i < n && (#[trigger] before[i]).finished ==> after[i] == before[i]
        }),
        final(a).buffer == old(a).buffer,
{
    let trace = choose|trace: Seq<Arena<R>>| #[trigger]
        steps_through(trace, *old(a), *final(a), outputs);
    let n = old(a).games@.len();
    let before = old(a).games@;
    let after = final(a).games@;
    let ends = |i: int| !before[i].finished && after[i].finished;
    let lead = |i: int|
        if i < n as int / 2 {
            after[i].scores@[1] - after[i].scores@[0]
        } else {
            after[i].scores@[0] - after[i].scores@[1]
        };
    assert(runs(trace, *old(a), *final(a), outputs)) by {
        reveal(runs);
    }
    lemma_turn(trace, *old(a), *final(a), outputs, 0);
    lemma_counted_so_far(trace, *old(a), *final(a), outputs, n);
    lemma_sum_eq(
        |i: int|
            unit(
                !before[i].finished && after[i].finished && if i < n as int / 2 {
                    after[i].scores@[1] > after[i].scores@[0]
                } else {
                    after[i].scores@[0] > after[i].scores@[1]
                },
            ),
        |i: int| unit(ends(i) && lead(i) > 0),
        n,
    );
    lemma_sum_eq(
        |i: int|
            unit(!before[i].finished && after[i].finished && after[i].scores@[0]
                == after[i].scores@[1]),
        |i: int| unit(ends(i) && lead(i) == 0),
        n,
    );
    lemma_sum_eq(
        |i: int|
            unit(
                !before[i].finished && after[i].finished && if i < n as int / 2 {
                    after[i].scores@[1] < after[i].scores@[0]
                } else {
                    after[i].scores@[0] < after[i].scores@[1]
                },
            ),
        |i: int| unit(ends(i) && lead(i) < 0),
        n,
    );
}

// -------------------------------------------------------------------------------- collection

/// The digit of square `k` of a recorded board.
proof fn lemma_recorded<T>(g: Game, r: Record<T>, i: int)
    requires
        recorded(g, r),
        0 <= i < HW,
        (i / 16 + i % 16) % 2 == 0,
    ensures
        ({
            let byte = r.board@[i / 8];
            let m = if (i / 2) % 4 == 0 {
                byte % 4
            } else if (i / 2) % 4 == 1 {
                (byte / 4) % 4
            } else if (i / 2) % 4 == 2 {
                (byte / 16) % 4
            } else {
                byte / 64
            };
            &&& m == 0 <==> g.cells@[i] == PLAYABLE_SQUARE
            &&& m == 1 <==> g.cells@[i] == PLAYER_0_MARK
            &&& m == 2 <==> g.cells@[i] == PLAYER_1_MARK
        }),
        r.scores@[0] == g.scores@[0],
        r.scores@[1] == g.scores@[1],
{
    let m = marks_of(g.cells@);
    lemma_bit_of(i);
    assert forall|k: int| 0 <= k < SQUARES implies #[trigger] m[k] < 4 by {
        assert(m[k] == mark_of(g.cells@[cell_of(k)]));
    }
    lemma_unpack_pack(m);
    assert(unpacked(r.board@)[i / 2] == m[i / 2]);
    lemma_unpacked_digit(r.board@, i / 2);
    assert(i / 2 / 4 == i / 8);
    assert(m[i / 2] == mark_of(g.cells@[i]));
}

/// A game that goes on has made one legal move: open squares, in the players' own halves if it
/// is the first. It has one record more, of the position it moved from, its scores and that
/// move; the board is the one the move makes.
pub proof fn lemma_collects<R: Rule>(
    a: &mut Arena<R>,
    outputs: R::Outputs,
    done: bool,
    n: int,
    player: int,
    i: int,
    x: int,
)
    requires
        call_ensures(Arena::<R>::step, (a, &outputs), done),
        old(a).wf(),
        !old(a).evaluation,
        0 <= n < old(a).games@.len(),
        final(a).histories@[n]@.len() > 0,
        0 <= player < 2,
        0 <= i < HW,
        (i / 16 + i % 16) % 2 == 0,
        0 <= x < HW,
    ensures
        final(a).histories@[n]@.drop_last() == old(a).histories@[n]@,
        ({
            let g = old(a).games@[n];
            let after = final(a).games@[n];
            let r = final(a).histories@[n]@.last();
            let byte = r.board@[i / 8];
            let m = if (i / 2) % 4 == 0 {
                byte % 4
            } else if (i / 2) % 4 == 1 {
                (byte / 4) % 4
            } else if (i / 2) % 4 == 2 {
                (byte / 16) % 4
            } else {
                byte / 64
            };
            let a0 = r.actions@[0] as int;
            let a1 = r.actions@[1] as int;
            let c0 = 2 * a0 + (a0 / 8) % 2;
            let c1 = 2 * a1 + (a1 / 8) % 2;
            let near = |y: int, c: int|
                (y / 16 - c / 16 == 1 || y / 16 - c / 16 == -1) && (y % 16 - c % 16 == 1 || y % 16
                    - c % 16 == -1);
            &&& m == 0 <==> g.cells@[i] == PLAYABLE_SQUARE
            &&& m == 1 <==> g.cells@[i] == PLAYER_0_MARK
            &&& m == 2 <==> g.cells@[i] == PLAYER_1_MARK
            &&& r.scores@[player] == g.scores@[player]
            &&& g.cells@[c0] == PLAYABLE_SQUARE
            &&& g.cells@[c1] == PLAYABLE_SQUARE
            &&& g.move_count == 0 ==> c0 % 16 < 8 && c1 % 16 >= 8
            &&& after.cells@[x] == (if c0 == c1 && (x == c0 || near(x, c0)) {
                REMOVED_SQUARE
            } else if c0 != c1 && x == c0 {
                PLAYER_0_MARK
            } else if c0 != c1 && x == c1 {
                PLAYER_1_MARK
            } else {
                g.cells@[x]
            })
            &&& after.move_count == g.move_count + 1
            &&& !after.finished
        }),
{
    let trace = choose|trace: Seq<Arena<R>>| #[trigger]
        steps_through(trace, *old(a), *final(a), outputs);
    assert(runs(trace, *old(a), *final(a), outputs)) by {
        reveal(runs);
    }
    lemma_turn(trace, *old(a), *final(a), outputs, n);
    lemma_earlier(trace, *old(a), *final(a), outputs, n as nat, n);
    lemma_later(trace, *old(a), *final(a), outputs, (n + 1) as nat, n);
    let s0 = trace[n];
    let s = trace[n + 1];
    let (r, mid) = choose|r: Record<[R::Value; 2]>, mid: Game| #[trigger]
        game_stepped(s0, s, n, outputs, r, mid);
    let g = old(a).games@[n];
    assert(game_ok(old(a).games@[n], old(a).histories@[n]@, old(a).evaluation));
    assert(s0.games@[n] == g);
    assert(!mid.finished);
    assert(s.histories@[n]@ == s0.histories@[n]@.push(r));
    assert(final(a).histories@[n]@.drop_last() =~= old(a).histories@[n]@);
    lemma_recorded(g, r, i);
    lemma_cell_of(r.actions@[0] as int);
    lemma_cell_of(r.actions@[1] as int);
    lemma_moved_cell(g.cells@, cell_of(r.actions@[0] as int), cell_of(r.actions@[1] as int), x);
}

/// A game that ended makes way for one at the opening, with no records.
pub proof fn lemma_starts_over<R: Rule>(
    a: &mut Arena<R>,
    outputs: R::Outputs,
    done: bool,
    n: int,
    x: int,
)
    requires
        call_ensures(Arena::<R>::step, (a, &outputs), done),
        old(a).wf(),
        !old(a).evaluation,
        0 <= n < old(a).games@.len(),
        final(a).histories@[n]@.len() == 0,
        0 <= x < HW,
    ensures
        final(a).games@[n].move_count == 0,
        final(a).games@[n].cells@[x] == (if (x / 16 + x % 16) % 2 == 0 {
            PLAYABLE_SQUARE
        } else {
            NON_PLAYABLE_SQUARE
        }),
        final(a).results == old(a).results,
{
    let trace = choose|trace: Seq<Arena<R>>| #[trigger]
        steps_through(trace, *old(a), *final(a), outputs);
    assert(runs(trace, *old(a), *final(a), outputs)) by {
        reveal(runs);
    }
    lemma_turn(trace, *old(a), *final(a), outputs, n);
    lemma_earlier(trace, *old(a), *final(a), outputs, n as nat, n);
    lemma_later(trace, *old(a), *final(a), outputs, (n + 1) as nat, n);
    lemma_same_results(trace, *old(a), *final(a), outputs, old(a).games@.len());
    let s0 = trace[n];
    let s = trace[n + 1];
    let (r, mid) = choose|r: Record<[R::Value; 2]>, mid: Game| #[trigger]
        game_stepped(s0, s, n, outputs, r, mid);
    assert(game_ok(old(a).games@[n], old(a).histories@[n]@, old(a).evaluation));
    assert(s0.games@[n] == old(a).games@[n]);
}

/// A collection counts no results.
proof fn lemma_same_results<R: Rule>(
    trace: Seq<Arena<R>>,
    s0: Arena<R>,
    s: Arena<R>,
    outputs: R::Outputs,
    n: nat,
)
    requires
        runs(trace, s0, s, outputs),
        !s0.evaluation,
        n <= s0.games@.len(),
    ensures
        trace[n as int].results == s0.results,
    decreases n,
{
    lemma_turn(trace, s0, s, outputs, n - 1);
    if n > 0 {
        lemma_same_results(trace, s0, s, outputs, (n - 1) as nat);
        lemma_trace_len(trace, s0, s, outputs, (n - 1) as nat);
    }
}

/// What a game that ends is rewarded with: its result for each player, which is 1 for the
/// player with the higher score, -1 for the one with the lower and 0 for both where the scores
/// are level. Its last position is stored with that reward, behind what was stored before.
pub proof fn lemma_rewarded<R: Rule>(
    s0: Arena<R>,
    s: Arena<R>,
    i: int,
    outputs: R::Outputs,
    r: Record<[R::Value; 2]>,
    mid: Game,
)
    requires
        game_stepped(s0, s, i, outputs, r, mid),
        !s0.evaluation,
        !s0.games@[i].finished,
        mid.finished,
    ensures
        s.buffer@.len() == s0.buffer@.len() + s0.histories@[i]@.len() + 1,
        exists|reward: [R::Value; 2], v: [i8; 2]| {
            &&& #[trigger] call_ensures(R::reward, (v@[0],), reward@[0])
            &&& #[trigger] call_ensures(R::reward, (v@[1],), reward@[1])
            &&& v@[0] == 1 <==> mid.scores@[0] > mid.scores@[1]
            &&& v@[0] == -1 <==> mid.scores@[0] < mid.scores@[1]
            &&& v@[0] == 0 <==> mid.scores@[0] == mid.scores@[1]
            &&& v@[1] == -v@[0]
            &&& call_ensures(R::store, (reward@[0],), s.buffer@.last().returns@[0])
            &&& call_ensures(R::store, (reward@[1],), s.buffer@.last().returns@[1])
            &&& s.buffer@.last().board == r.board
            &&& s.buffer@.last().actions == r.actions
        },
{
    let h = s0.histories@[i]@.push(r);
    let result = outcome(mid.scores@);
    let reward = choose|reward: [R::Value; 2]| {
        &&& call_ensures(R::reward, (result[0],), reward@[0])
        &&& call_ensures(R::reward, (result[1],), reward@[1])
        &&& #[trigger] finished_into(s0.rule, h, reward, s0.buffer@, s.buffer@)
    };
    let v: [i8; 2] = [result[0], result[1]];
    assert(v@[0] == result[0] && v@[1] == result[1]);
    let rets = choose|rets: Seq<[R::Value; 2]>|
        returns_of(s0.rule, h, reward, rets, 0) && #[trigger] stored_from::<R>(
            h,
            rets,
            s.buffer@,
            s0.buffer@.len() as int,
            h.len() as int,
        );
    let t = h.len() - 1;
    assert(stored_as::<R>(h[t], rets[t], s.buffer@[s0.buffer@.len() + t]));
    assert(return_at(s0.rule, h, reward, rets, t));
    assert(call_ensures(R::reward, (v@[0],), reward@[0]));
    assert(call_ensures(R::reward, (v@[1],), reward@[1]));
}

/// How a player's move is drawn: the rule is asked about that game and that player, with the
/// squares open to the player and the generator as the draw before left it; the record has the
/// policy and the value that the rule gives at the end of its walk. Player 0 draws first.
pub proof fn lemma_drawn_for<R: Rule>(
    s0: Arena<R>,
    s: Arena<R>,
    i: int,
    outputs: R::Outputs,
    r: Record<[R::Value; 2]>,
    mid: Game,
)
    requires
        game_stepped(s0, s, i, outputs, r, mid),
        !s0.games@[i].finished,
        s0.games@[i].wf(),
    ensures
        exists|between: Rng|
            #[trigger] move_asked::<R>(s0, i, 0, outputs, (s0.rng, between), r) && move_asked::<R>(
                s0,
                i,
                1,
                outputs,
                (between, s.rng),
                r,
            ),
{
    let g = s0.games@[i];
    let between = choose|between: Rng| #[trigger]
        both_drawn_by(s0.rule, outputs, i, g, s0.evaluation, (s0.rng, s.rng), r, between);
    lemma_asked(
        s0,
        i,
        0,
        outputs,
        (s0.rng, between),
        r,
        (r.actions@[0], r.policy@[0], r.returns@[0]),
    );
    lemma_asked(
        s0,
        i,
        1,
        outputs,
        (between, s.rng),
        r,
        (r.actions@[1], r.policy@[1], r.returns@[1]),
    );
}

/// The calls of the rule behind a player's move: it is opened on game `i` for that player with
/// a mask of exactly the squares the player may play, and its policy, its value and a legal
/// move go into the record.
pub open spec fn move_asked<R: Rule>(
    s0: Arena<R>,
    i: int,
    player: usize,
    outputs: R::Outputs,
    rngs: (Rng, Rng),
    r: Record<[R::Value; 2]>,
) -> bool {
    let g = s0.games@[i];
    exists|legal: [u64; LEGAL_WORDS], scans: Seq<R::Scan>, verdicts: Seq<bool>| {
        &&& call_ensures(
            R::open,
            (&s0.rule, &outputs, i as usize, player, legal, s0.evaluation, rngs.0),
            (scans[0], rngs.1),
        )
        &&& #[trigger] all_weighed::<R>(s0.rule, legal, scans, verdicts)
        &&& forall|c: int|
            0 <= c < HW && (c / 16 + c % 16) % 2 == 0 ==> (#[trigger] holds(legal@, c / 2)
                <==> g.cells@[c] == PLAYABLE_SQUARE && (g.move_count > 0 || (if player == 0 {
                c % 16 < 8
            } else {
                c % 16 >= 8
            })))
        &&& call_ensures(R::policy, (&scans[128],), r.policy@[player as int])
        &&& call_ensures(R::value, (&scans[128],), r.returns@[player as int])
        &&& last_named(legal, verdicts, r.actions@[player as int] as int)
    }
}

/// The rule has weighed every square of a mask, in board order, and no other.
pub open spec fn all_weighed<R: Rule>(
    rule: R,
    legal: [u64; LEGAL_WORDS],
    scans: Seq<R::Scan>,
    verdicts: Seq<bool>,
) -> bool {
    forall|k: int|
        0 <= k < 128 ==> if holds(legal@, k) {
            call_ensures(
                R::weigh,
                (&rule, scans[k], k as usize),
                (scans[k + 1], #[trigger] verdicts[k]),
            )
        } else {
            scans[k + 1] == scans[k] && !verdicts[k]
        }
}

/// The square is the last of the mask with a favourable verdict, or the last of all where there
/// is none.
pub open spec fn last_named(legal: [u64; LEGAL_WORDS], verdicts: Seq<bool>, square: int) -> bool {
    &&& holds(legal@, square)
    &&& forall|k: int|
        0 <= k < 128 ==> (#[trigger] verdicts[k] ==> verdicts[square] && k <= square) && (
        !verdicts[square] && holds(legal@, k) ==> k <= square)
}

proof fn lemma_asked<R: Rule>(
    s0: Arena<R>,
    i: int,
    player: usize,
    outputs: R::Outputs,
    rngs: (Rng, Rng),
    r: Record<[R::Value; 2]>,
    d: (u8, [u16; SQUARES], R::Value),
)
    requires
        player < 2,
        s0.games@[i].wf(),
        d == (
            r.actions@[player as int],
            r.policy@[player as int],
            r.returns@[player as int],
        ),
        drawn(s0.rule, outputs, i, player, s0.games@[i], s0.evaluation, rngs, d),
    ensures
        move_asked::<R>(s0, i, player, outputs, rngs, r),
{
    let g = s0.games@[i];
    let (legal, scans, verdicts) = choose|
        legal: [u64; LEGAL_WORDS],
        scans: Seq<R::Scan>,
        verdicts: Seq<bool>,
    | #[trigger]
        drawn_by(
            s0.rule,
            outputs,
            i,
            player,
            g,
            s0.evaluation,
            rngs,
            d,
            legal,
            scans,
            verdicts,
        );
    assert forall|c: int| 0 <= c < HW && (c / 16 + c % 16) % 2 == 0 implies (#[trigger] holds(
        legal@,
        c / 2,
    ) <==> g.cells@[c] == PLAYABLE_SQUARE && (g.move_count > 0 || (if player == 0 {
        c % 16 < 8
    } else {
        c % 16 >= 8
    }))) by {
        lemma_bit_of(c);
        lemma_cell_of(c / 2);
        assert(holds(g.legal@, c / 2) <==> g.cells@[c] == PLAYABLE_SQUARE);
    }
    assert(all_weighed::<R>(s0.rule, legal, scans, verdicts)) by {
        assert forall|k: int| 0 <= k < 128 implies if holds(legal@, k) {
            call_ensures(
                R::weigh,
                (&s0.rule, scans[k], k as usize),
                (scans[k + 1], #[trigger] verdicts[k]),
            )
        } else {
            scans[k + 1] == scans[k] && !verdicts[k]
        } by {
            assert(weighed(s0.rule, legal@, scans, verdicts, k));
        }
    }
    assert(last_named(legal, verdicts, r.actions@[player as int] as int));
}

/// Giving up all games drops as many positions as moves were made in them, none in an
/// evaluation, and nothing that is stored.
pub proof fn lemma_gives_up<R: Rule>(a: &mut Arena<R>, dropped: usize)
    requires
        call_ensures(Arena::<R>::reset, (a,), dropped),
        old(a).wf(),
    ensures
        dropped == sum_to(|i: int| old(a).histories@[i]@.len() as int, old(a).games@.len()),
        final(a).buffer == old(a).buffer,
        final(a).results == old(a).results,
        final(a).rng == old(a).rng,
{
    lemma_moves_sum(*old(a), old(a).games@.len());
}

proof fn lemma_moves_sum<R: Rule>(a: Arena<R>, n: nat)
    requires
        a.wf(),
        n <= a.games@.len(),
    ensures
        a.evaluation ==> sum_to(|i: int| a.histories@[i]@.len() as int, n) == 0,
        !a.evaluation ==> sum_to(|i: int| a.histories@[i]@.len() as int, n) == moves_below(
            a.games@,
            n,
        ),
    decreases n,
{
    if n > 0 {
        lemma_moves_sum(a, (n - 1) as nat);
        assert(game_ok(a.games@[n - 1], a.histories@[n - 1]@, a.evaluation));
    }
}

/// Games that play themselves begin at the opening, with nothing recorded and no results.
pub proof fn lemma_all_open<R: Rule>(
    n: usize,
    capacity: usize,
    max_ply: usize,
    rule: R,
    seed: u64,
    evaluation: bool,
    a: Arena<R>,
    i: int,
    x: int,
)
    requires
        call_ensures(Arena::<R>::new, (n, capacity, max_ply, rule, seed, evaluation), a),
        0 <= i < n,
        0 <= x < HW,
    ensures
        a.games@.len() == n,
        a.games@[i].cells@[x] == (if (x / 16 + x % 16) % 2 == 0 {
            PLAYABLE_SQUARE
        } else {
            NON_PLAYABLE_SQUARE
        }),
        a.games@[i].move_count == 0,
        a.buffer@.len() == 0,
        a.capacity == capacity,
        a.evaluation == evaluation,
        a.results@[0] == 0,
        a.results@[1] == 0,
        a.results@[2] == 0,
{
}

/// Clearing drops what is recorded and leaves the games, the results and the generator.
pub proof fn lemma_cleared<R: Rule>(a: &mut Arena<R>)
    requires
        call_ensures(Arena::<R>::clear, (a,), ()),
    ensures
        final(a).buffer@.len() == 0,
        final(a).games == old(a).games,
        final(a).results == old(a).results,
        final(a).rng == old(a).rng,
{
}

/// A player sees its own score first and the other player's second.
pub proof fn lemma_scores_seen(scores: [u8; 2], s: [u8; 2], t: [u8; 2])
    requires
        call_ensures(seen_scores, (scores, 0usize), s),
        call_ensures(seen_scores, (scores, 1usize), t),
    ensures
        s == scores,
        t@[0] == scores@[1],
        t@[1] == scores@[0],
{
    assert(s@ =~= scores@);
    assert(s@[0] == scores@[0] && s@[1] == scores@[1]);
}

} // verus!
