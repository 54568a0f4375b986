//! What a game produces when it steps, and the histories those records make.
use vstd::prelude::*;

use crate::balance::opening;
use crate::board::{PLAYER_0_MARK, PLAYER_1_MARK, SQUARES};
use crate::game::{any_playable, outcome, squares_of, Game};
use crate::legal::cell_of;
use crate::moves::moved;
use crate::score::score_of;

verus! {

/// What one game produced when it stepped: the position it moved from, the search's policy
/// there, and the move drawn from it.
#[derive(Debug)]
pub struct StepRecord<T> {
    pub id: u16,
    /// The squares of the position before the move, in bit order.
    pub cells: [i8; SQUARES],
    pub policy: T,
    pub played: [u8; 2],
    /// The game ended on this move, and `values` is its outcome.
    pub finished: bool,
    pub values: [i8; 2],
}

impl<T> StepRecord<T> {
    /// The same but for the policy.
    pub open spec fn same_but_policy(&self, other: &StepRecord<T>) -> bool {
        &&& self.id == other.id
        &&& self.cells == other.cells
        &&& self.played == other.played
        &&& self.finished == other.finished
        &&& self.values == other.values
    }
}

impl<T: Clone> Clone for StepRecord<T> {
    fn clone(&self) -> (r: Self)
        ensures
            r.same_but_policy(self),
            cloned::<T>(self.policy, r.policy),
    {
        StepRecord {
            id: self.id,
            cells: self.cells,
            policy: self.policy.clone(),
            played: self.played,
            finished: self.finished,
            values: self.values,
        }
    }
}

/// The board after the first `n` moves of a history, played from the opening.
pub open spec fn replay<T>(h: Seq<StepRecord<T>>, n: nat) -> Seq<i8>
    decreases n,
{
    if n == 0 {
        opening()
    } else {
        moved(
            replay(h, (n - 1) as nat),
            cell_of(h[n - 1].played@[0] as int),
            cell_of(h[n - 1].played@[1] as int),
        )
    }
}

/// The history of game `id`, which is at `game`: every move since the opening, in order.
pub open spec fn history_ok<T>(h: Seq<StepRecord<T>>, id: int, game: Game) -> bool {
    &&& h.len() == game.move_count
    &&& game.cells@ == replay(h, h.len())
    &&& forall|j: int|
        0 <= j < h.len() ==> (#[trigger] h[j]).id == id && h[j].cells@ == squares_of(
            replay(h, j as nat),
        ) && (h[j].finished <==> j == h.len() - 1 && game.finished)
}

/// What a finished board is worth per player.
pub open spec fn board_outcome(cells: Seq<i8>) -> Seq<i8> {
    outcome(seq![score_of(cells, PLAYER_0_MARK) as i32, score_of(cells, PLAYER_1_MARK) as i32])
}

/// The history of a game played to its end.
pub open spec fn history_done<T>(h: Seq<StepRecord<T>>) -> bool {
    &&& h.len() > 0
    &&& !any_playable(replay(h, h.len()))
    &&& h.last().finished
    &&& h.last().values@ == board_outcome(replay(h, h.len()))
    &&& forall|j: int|
        0 <= j < h.len() ==> (#[trigger] h[j]).cells@ == squares_of(replay(h, j as nat))
            && h[j].id == h[0].id && (h[j].finished <==> j == h.len() - 1)
}

/// Replaying reads only the moves it replays.
pub proof fn lemma_replay_prefix<T>(h: Seq<StepRecord<T>>, r: StepRecord<T>, n: nat)
    requires
        n <= h.len(),
    ensures
        replay(h.push(r), n) == replay(h, n),
    decreases n,
{
    if n > 0 {
        lemma_replay_prefix(h, r, (n - 1) as nat);
        assert(h.push(r)[n - 1] == h[n - 1]);
    }
}

/// A history with one more move.
pub proof fn lemma_history_on<T>(
    h: Seq<StepRecord<T>>,
    r: StepRecord<T>,
    id: int,
    before: Game,
    after: Game,
)
    requires
        history_ok(h, id, before),
        !before.finished,
        r.id == id,
        r.cells@ == squares_of(before.cells@),
        r.finished == after.finished,
        after.move_count == before.move_count + 1,
        after.cells@ == moved(
            before.cells@,
            cell_of(r.played@[0] as int),
            cell_of(r.played@[1] as int),
        ),
    ensures
        history_ok(h.push(r), id, after),
{
    let h2 = h.push(r);
    lemma_replay_prefix(h, r, h.len());
    assert(h2[h.len() as int] == r);
    assert forall|j: int| 0 <= j < h2.len() implies (#[trigger] h2[j]).id == id && h2[j].cells@
        == squares_of(replay(h2, j as nat)) && (h2[j].finished <==> j == h2.len() - 1
        && after.finished) by {
        lemma_replay_prefix(h, r, j as nat);
        if j < h.len() {
            assert(h2[j] == h[j]);
        }
    }
}

} // verus!
