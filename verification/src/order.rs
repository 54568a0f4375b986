//! The order in which the games of a batch are moved makes no difference.
//!
//! Games do not touch each other: what a game comes to is a matter of its own moves, in their
//! order. So a batch may be driven step by step, moving every game before the next step, or
//! game by game, or in any order between.
use vstd::prelude::*;

use crate::incremental::{lemma_step_unique, Position};

verus! {

/// One move of one game: the game, and the squares of the two players as board indices.
pub struct GameMove {
    pub game: int,
    pub first: int,
    pub second: int,
}

/// Moving one game: it is stepped, and no other game changes.
pub open spec fn game_applied(before: Seq<Position>, after: Seq<Position>, m: GameMove) -> bool {
    &&& 0 <= m.game < before.len()
    &&& after.len() == before.len()
    &&& before[m.game].stepped(after[m.game], m.first, m.second)
    &&& forall|h: int|
        0 <= h < before.len() && h != m.game ==> #[trigger] after[h] == before[h]
}

/// Moving games one at a time, in the order of `moves`: `batches[k]` is the batch before move
/// `k`.
pub open spec fn applied(batches: Seq<Seq<Position>>, moves: Seq<GameMove>) -> bool {
    &&& batches.len() == moves.len() + 1
    &&& forall|k: int|
        0 <= k < moves.len() ==> game_applied(
            batches[k],
            batches[k + 1],
            #[trigger] moves[k],
        )
}

/// The moves of game `g`, in order.
pub open spec fn moves_of(moves: Seq<GameMove>, g: int) -> Seq<(int, int)>
    decreases moves.len(),
{
    if moves.len() == 0 {
        Seq::empty()
    } else {
        let rest = moves_of(moves.drop_last(), g);
        if moves.last().game == g {
            rest.push((moves.last().first, moves.last().second))
        } else {
            rest
        }
    }
}

/// One step of a batch: every active game is moved, and no other changes.
pub struct BatchStep {
    pub first: Seq<int>,
    pub second: Seq<int>,
    pub active: Seq<bool>,
}

/// Moving all active games at once.
pub open spec fn step_applied(before: Seq<Position>, after: Seq<Position>, s: BatchStep) -> bool {
    &&& after.len() == before.len()
    &&& forall|g: int|
        0 <= g < before.len() ==> if s.active[g] {
            before[g].stepped(#[trigger] after[g], s.first[g], s.second[g])
        } else {
            after[g] == before[g]
        }
}

/// Moving a batch step by step: `batches[k]` is the batch before step `k`.
pub open spec fn steps_applied(batches: Seq<Seq<Position>>, steps: Seq<BatchStep>) -> bool {
    &&& batches.len() == steps.len() + 1
    &&& forall|k: int|
        0 <= k < steps.len() ==> step_applied(
            batches[k],
            batches[k + 1],
            #[trigger] steps[k],
        )
}

/// The moves of game `g` in the steps where it is active, in order.
pub open spec fn step_moves_of(steps: Seq<BatchStep>, g: int) -> Seq<(int, int)>
    decreases steps.len(),
{
    if steps.len() == 0 {
        Seq::empty()
    } else {
        let rest = step_moves_of(steps.drop_last(), g);
        let s = steps.last();
        if s.active[g] {
            rest.push((s.first[g], s.second[g]))
        } else {
            rest
        }
    }
}

/// A game by itself comes from `begin` to `end` by its moves.
spec fn comes_to(begin: Position, moves: Seq<(int, int)>, end: Position) -> bool
    decreases moves.len(),
{
    if moves.len() == 0 {
        end == begin
    } else {
        exists|mid: Position| #[trigger]
            mid.stepped(end, moves.last().0, moves.last().1) && comes_to(
                begin,
                moves.drop_last(),
                mid,
            )
    }
}

/// A game by itself comes to one position.
proof fn lemma_comes_to_one(begin: Position, moves: Seq<(int, int)>, a: Position, b: Position)
    requires
        comes_to(begin, moves, a),
        comes_to(begin, moves, b),
    ensures
        a == b,
    decreases moves.len(),
{
    if moves.len() > 0 {
        let (i0, i1) = moves.last();
        let p = choose|mid: Position| #[trigger]
            mid.stepped(a, i0, i1) && comes_to(begin, moves.drop_last(), mid);
        let q = choose|mid: Position| #[trigger]
            mid.stepped(b, i0, i1) && comes_to(begin, moves.drop_last(), mid);
        lemma_comes_to_one(begin, moves.drop_last(), p, q);
        lemma_step_unique(p, a, b, i0, i1);
    }
}

/// One more move of a game by itself.
proof fn lemma_comes_on(
    begin: Position,
    moves: Seq<(int, int)>,
    mid: Position,
    end: Position,
    i0: int,
    i1: int,
)
    requires
        comes_to(begin, moves, mid),
        mid.stepped(end, i0, i1),
    ensures
        comes_to(begin, moves.push((i0, i1)), end),
{
    let all = moves.push((i0, i1));
    assert(all.drop_last() =~= moves);
    assert(mid.stepped(end, all.last().0, all.last().1));
}

/// Among games moved one at a time, each comes to where its own moves lead.
proof fn lemma_one_at_a_time(batches: Seq<Seq<Position>>, moves: Seq<GameMove>, g: int)
    requires
        applied(batches, moves),
        0 <= g < batches[0].len(),
    ensures
        batches.last().len() == batches[0].len(),
        comes_to(batches[0][g], moves_of(moves, g), batches.last()[g]),
    decreases moves.len(),
{
    if moves.len() > 0 {
        let n = moves.len() - 1;
        let m = moves.drop_last();
        let b = batches.drop_last();
        assert forall|k: int| 0 <= k < m.len() implies game_applied(
            b[k],
            b[k + 1],
            #[trigger] m[k],
        ) by {
            assert(game_applied(batches[k], batches[k + 1], moves[k]));
        }
        lemma_one_at_a_time(b, m, g);
        assert(game_applied(batches[n], batches[n + 1], moves[n]));
        if moves.last().game == g {
            lemma_comes_on(
                batches[0][g],
                moves_of(m, g),
                batches[n][g],
                batches[n + 1][g],
                moves[n].first,
                moves[n].second,
            );
        }
    }
}

/// In a batch moved step by step, each game comes to where its own moves lead.
proof fn lemma_step_by_step(batches: Seq<Seq<Position>>, steps: Seq<BatchStep>, g: int)
    requires
        steps_applied(batches, steps),
        0 <= g < batches[0].len(),
    ensures
        batches.last().len() == batches[0].len(),
        comes_to(batches[0][g], step_moves_of(steps, g), batches.last()[g]),
    decreases steps.len(),
{
    if steps.len() > 0 {
        let n = steps.len() - 1;
        let m = steps.drop_last();
        let b = batches.drop_last();
        assert forall|k: int| 0 <= k < m.len() implies step_applied(
            b[k],
            b[k + 1],
            #[trigger] m[k],
        ) by {
            assert(step_applied(batches[k], batches[k + 1], steps[k]));
        }
        lemma_step_by_step(b, m, g);
        assert(step_applied(batches[n], batches[n + 1], steps[n]));
        let after = batches[n + 1][g];
        if steps[n].active[g] {
            lemma_comes_on(
                batches[0][g],
                step_moves_of(m, g),
                batches[n][g],
                after,
                steps[n].first[g],
                steps[n].second[g],
            );
        }
    }
}

/// Games may be moved in any order: two orders in which every game makes the same moves lead
/// to the same batch.
pub proof fn lemma_any_order(
    a: Seq<Seq<Position>>,
    moves_a: Seq<GameMove>,
    b: Seq<Seq<Position>>,
    moves_b: Seq<GameMove>,
)
    requires
        applied(a, moves_a),
        applied(b, moves_b),
        a[0] == b[0],
        forall|g: int|
            0 <= g < a[0].len() ==> #[trigger] moves_of(moves_a, g) == moves_of(moves_b, g),
    ensures
        a.last() == b.last(),
{
    assert forall|g: int| 0 <= g < a[0].len() implies a.last().len() == b.last().len()
        && #[trigger] a.last()[g] == b.last()[g] by {
        lemma_one_at_a_time(a, moves_a, g);
        lemma_one_at_a_time(b, moves_b, g);
        assert(moves_of(moves_a, g) == moves_of(moves_b, g));
        lemma_comes_to_one(a[0][g], moves_of(moves_a, g), a.last()[g], b.last()[g]);
    }
    lemma_sizes(a, moves_a);
    lemma_sizes(b, moves_b);
    assert(a.last() =~= b.last());
}

/// Game by game or step by step: a batch driven by steps comes to the same as one whose games
/// are moved one at a time, in any order in which every game makes the same moves.
pub proof fn lemma_game_by_game(
    a: Seq<Seq<Position>>,
    steps: Seq<BatchStep>,
    b: Seq<Seq<Position>>,
    moves: Seq<GameMove>,
)
    requires
        steps_applied(a, steps),
        applied(b, moves),
        a[0] == b[0],
        forall|g: int|
            0 <= g < a[0].len() ==> #[trigger] step_moves_of(steps, g) == moves_of(moves, g),
    ensures
        a.last() == b.last(),
{
    assert forall|g: int| 0 <= g < a[0].len() implies #[trigger] a.last()[g] == b.last()[g] by {
        lemma_step_by_step(a, steps, g);
        lemma_one_at_a_time(b, moves, g);
        assert(step_moves_of(steps, g) == moves_of(moves, g));
        lemma_comes_to_one(a[0][g], moves_of(moves, g), a.last()[g], b.last()[g]);
    }
    lemma_step_sizes(a, steps);
    lemma_sizes(b, moves);
    assert(a.last() =~= b.last());
}

/// Moving games keeps their number.
proof fn lemma_sizes(batches: Seq<Seq<Position>>, moves: Seq<GameMove>)
    requires
        applied(batches, moves),
    ensures
        batches.last().len() == batches[0].len(),
    decreases moves.len(),
{
    if moves.len() > 0 {
        let n = moves.len() - 1;
        let m = moves.drop_last();
        let b = batches.drop_last();
        assert forall|k: int| 0 <= k < m.len() implies game_applied(
            b[k],
            b[k + 1],
            #[trigger] m[k],
        ) by {
            assert(game_applied(batches[k], batches[k + 1], moves[k]));
        }
        lemma_sizes(b, m);
        assert(game_applied(batches[n], batches[n + 1], moves[n]));
    }
}

/// Steps keep the number of games.
proof fn lemma_step_sizes(batches: Seq<Seq<Position>>, steps: Seq<BatchStep>)
    requires
        steps_applied(batches, steps),
    ensures
        batches.last().len() == batches[0].len(),
    decreases steps.len(),
{
    if steps.len() > 0 {
        let n = steps.len() - 1;
        let m = steps.drop_last();
        let b = batches.drop_last();
        assert forall|k: int| 0 <= k < m.len() implies step_applied(
            b[k],
            b[k + 1],
            #[trigger] m[k],
        ) by {
            assert(step_applied(batches[k], batches[k + 1], steps[k]));
        }
        lemma_step_sizes(b, m);
        assert(step_applied(batches[n], batches[n + 1], steps[n]));
    }
}

} // verus!
