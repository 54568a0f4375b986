//! Collection for training: compact storage of positions, and their encoding as tensor planes.
use vstd::prelude::*;

use crate::balance::{lemma_move_takes, lemma_open_squares, lemma_score_halved, opening};
use crate::board::{even_square, HW, PLAYABLE_SQUARE, PLAYER_0_MARK, PLAYER_1_MARK, SQUARES};
use crate::game::{lemma_moves_open, outcome, squares_of, Game};
use crate::legal::{
    cell_of, holds, legal_cell, lemma_bit_of, lemma_cell_of, test_bit, LEGAL_WORDS,
};
use crate::mcts::variant::{is_pick, pick};
use crate::moves::moved;
use crate::rng::{seeded, Rng};
use crate::score_batch::{from_opening, lemma_both_can_move};
use crate::scratch::Scratch;

verus! {

// ------------------------------------------------------------------------------- packing

/// What a playable square holds, in two bits: open, player 0's mark, player 1's mark or
/// removed.
pub open spec fn mark_of(v: i8) -> u8 {
    if v == PLAYABLE_SQUARE {
        0
    } else if v == PLAYER_0_MARK {
        1
    } else if v == PLAYER_1_MARK {
        2
    } else {
        3
    }
}

/// The marks of a board's playable squares.
pub open spec fn marks_of(cells: Seq<i8>) -> Seq<u8> {
    squares_of(cells).map_values(|v: i8| mark_of(v))
}

/// The marks of a board's playable squares, in bit order.
pub fn marks(game: &Game) -> (m: [u8; SQUARES])
    ensures
        m@ == marks_of(game.cells@),
        forall|k: int| 0 <= k < SQUARES ==> #[trigger] m@[k] < 4,
{
    let mut m: [u8; SQUARES] = [0u8; SQUARES];
    let mut k: usize = 0;
    while k < SQUARES
        invariant
            k <= SQUARES,
            forall|j: int|
                0 <= j < k ==> #[trigger] m@[j] == mark_of(game.cells@[cell_of(j)]),
        decreases SQUARES - k,
    {
        proof {
            lemma_cell_of(k as int);
        }
        let v: i8 = game.cells[legal_cell(k)];
        m[k] = if v == PLAYABLE_SQUARE {
            0
        } else if v == PLAYER_0_MARK {
            1
        } else if v == PLAYER_1_MARK {
            2
        } else {
            3
        };
        k = k + 1;
    }
    assert(m@ =~= marks_of(game.cells@));
    m
}

/// Byte `i` of a packed board: four squares, two bits each, the first in the low bits.
pub open spec fn packed_byte(marks: Seq<u8>, i: int) -> u8 {
    marks[4 * i] | marks[4 * i + 1] << 2u8 | marks[4 * i + 2] << 4u8 | marks[4 * i + 3] << 6u8
}

/// A board packed into bytes.
pub open spec fn packed(marks: Seq<u8>) -> Seq<u8> {
    Seq::new(20, |i: int| packed_byte(marks, i))
}

/// The mark of square `k` of a packed board.
pub open spec fn unpacked_mark(board: Seq<u8>, k: int) -> u8 {
    (board[k / 4] >> ((2 * (k % 4)) as u8)) & 3
}

/// The marks of a packed board.
pub open spec fn unpacked(board: Seq<u8>) -> Seq<u8> {
    Seq::new(SQUARES as nat, |k: int| unpacked_mark(board, k))
}

/// Pack a board's marks, four to a byte.
pub fn pack(marks: &[u8; SQUARES]) -> (board: [u8; 20])
    ensures
        board@ == packed(marks@),
{
    let mut board: [u8; 20] = [0u8; 20];
    let mut i: usize = 0;
    while i < 20
        invariant
            i <= 20,
            forall|j: int| 0 <= j < i ==> #[trigger] board@[j] == packed_byte(marks@, j),
        decreases 20 - i,
    {
        board[i] = marks[4 * i] | marks[4 * i + 1] << 2u8 | marks[4 * i + 2] << 4u8 | marks[4 * i
            + 3] << 6u8;
        i = i + 1;
    }
    assert(board@ =~= packed(marks@));
    board
}

/// The marks of a packed board.
pub fn unpack(board: &[u8; 20]) -> (marks: [u8; SQUARES])
    ensures
        marks@ == unpacked(board@),
        forall|k: int| 0 <= k < SQUARES ==> #[trigger] marks@[k] < 4,
{
    let mut marks: [u8; SQUARES] = [0u8; SQUARES];
    let mut k: usize = 0;
    while k < SQUARES
        invariant
            k <= SQUARES,
            forall|j: int|
                0 <= j < k ==> #[trigger] marks@[j] == unpacked_mark(board@, j) && marks@[j] < 4,
        decreases SQUARES - k,
    {
        let shift: u8 = (2 * (k % 4)) as u8;
        let byte: u8 = board[k / 4];
        marks[k] = (byte >> shift) & 3;
        assert((byte >> shift) & 3 < 4) by (bit_vector);
        k = k + 1;
    }
    assert(marks@ =~= unpacked(board@));
    marks
}

/// Four two-bit values survive packing into a byte, and a byte survives unpacking.
proof fn lemma_byte(a: u8, b: u8, c: u8, d: u8)
    by (bit_vector)
    ensures
        a < 4 && b < 4 && c < 4 && d < 4 ==> {
            let v = a | b << 2u8 | c << 4u8 | d << 6u8;
            &&& (v >> 0u8) & 3 == a
            &&& (v >> 2u8) & 3 == b
            &&& (v >> 4u8) & 3 == c
            &&& (v >> 6u8) & 3 == d
        },
        ((a >> 0u8) & 3) | ((a >> 2u8) & 3) << 2u8 | ((a >> 4u8) & 3) << 4u8 | ((a >> 6u8) & 3)
            << 6u8 == a,
{
}

/// Unpacking undoes packing.
pub proof fn lemma_unpack_pack(marks: Seq<u8>)
    requires
        marks.len() == SQUARES,
        forall|k: int| 0 <= k < SQUARES ==> #[trigger] marks[k] < 4,
    ensures
        unpacked(packed(marks)) == marks,
{
    assert forall|k: int| 0 <= k < SQUARES implies unpacked(packed(marks))[k] == marks[k] by {
        let i = k / 4;
        assert(marks[4 * i] < 4 && marks[4 * i + 1] < 4 && marks[4 * i + 2] < 4 && marks[4 * i + 3]
            < 4);
        lemma_byte(marks[4 * i], marks[4 * i + 1], marks[4 * i + 2], marks[4 * i + 3]);
        assert(k == 4 * i + k % 4);
        assert(packed(marks)[i] == packed_byte(marks, i));
        if k % 4 == 0 {
        } else if k % 4 == 1 {
        } else if k % 4 == 2 {
        } else {
            assert(k % 4 == 3);
        }
    }
    assert(unpacked(packed(marks)) =~= marks);
}

/// Packing undoes unpacking.
pub proof fn lemma_pack_unpack(board: Seq<u8>)
    requires
        board.len() == 20,
    ensures
        packed(unpacked(board)) == board,
{
    let m = unpacked(board);
    assert forall|i: int| 0 <= i < 20 implies packed(m)[i] == board[i] by {
        lemma_byte(board[i], 0, 0, 0);
        assert((4 * i) / 4 == i && (4 * i) % 4 == 0);
        assert((4 * i + 1) / 4 == i && (4 * i + 1) % 4 == 1);
        assert((4 * i + 2) / 4 == i && (4 * i + 2) % 4 == 2);
        assert((4 * i + 3) / 4 == i && (4 * i + 3) % 4 == 3);
        assert(m[4 * i] == unpacked_mark(board, 4 * i));
        assert(m[4 * i + 1] == unpacked_mark(board, 4 * i + 1));
        assert(m[4 * i + 2] == unpacked_mark(board, 4 * i + 2));
        assert(m[4 * i + 3] == unpacked_mark(board, 4 * i + 3));
    }
    assert(packed(m) =~= board);
}

// -------------------------------------------------------------------------------- planes

/// One, in the sixteen-bit float format of the planes.
pub const PLANE_ONE: u16 = 0x3F80;

/// Words per encoded board: five planes.
pub const PLANES: usize = 800;

/// The plane of a mark as `player` sees it: open, removed, own, opponent's. (The unplayable
/// half of the board has a plane of its own.)
pub open spec fn plane_of(mark: u8, player: int) -> int {
    if mark == 0 {
        1
    } else if mark == 3 {
        2
    } else if mark == 1 {
        3 + player
    } else {
        4 - player
    }
}

/// Is word `j` of the planes set? Plane 0 has the unplayable cells, and each playable cell is
/// in the plane of its mark.
pub open spec fn plane_set(marks: Seq<u8>, player: int, j: int) -> bool {
    let cell = j % 160;
    if even_square(cell) {
        j / 160 == plane_of(marks[cell / 2], player)
    } else {
        j / 160 == 0
    }
}

/// The five one-hot planes of a board as `player` sees it: unplayable, open, removed, own,
/// opponent's. They go into `boards` from word `at` on, as `one` where set and 0 elsewhere.
pub fn encode(
    marks: &[u8; SQUARES],
    player: usize,
    one: u16,
    boards: &mut Vec<u16>,
    at: usize,
)
    requires
        player < 2,
        at + PLANES <= old(boards)@.len(),
        forall|k: int| 0 <= k < SQUARES ==> #[trigger] marks@[k] < 4,
    ensures
        final(boards)@.len() == old(boards)@.len(),
        forall|j: int|
            0 <= j < PLANES ==> #[trigger] final(boards)@[at + j] == (if plane_set(
                marks@,
                player as int,
                j,
            ) {
                one
            } else {
                0
            }),
        forall|i: int|
            0 <= i < old(boards)@.len() && !(at <= i < at + PLANES) ==>
                #[trigger] final(boards)@[i] == old(boards)@[i],
        forall|i: int|
            at <= i < at + PLANES ==> #[trigger] final(boards)@[i] == (if plane_set(
                marks@,
                player as int,
                i - at,
            ) {
                one
            } else {
                0
            }),
{
    let ghost before = boards@;
    let size: usize = boards.len();
    let mut j: usize = 0;
    while j < PLANES
        invariant
            j <= PLANES,
            player < 2,
            size == before.len(),
            before == old(boards)@,
            boards@.len() == before.len(),
            at + PLANES <= before.len(),
            forall|i: int|
                0 <= i < before.len() && !(at <= i < at + j) ==> #[trigger] boards@[i]
                    == before[i],
            forall|i: int|
                at <= i < at + j ==> #[trigger] boards@[i] == (if plane_set(
                    marks@,
                    player as int,
                    i - at,
                ) {
                    one
                } else {
                    0
                }),
        decreases PLANES - j,
    {
        let cell: usize = j % 160;
        let plane: usize = j / 160;
        let set: bool = if (cell / 16 + cell % 16) % 2 == 0 {
            proof {
                lemma_bit_of(cell as int);
            }
            let mark: u8 = marks[cell / 2];
            let of: usize = if mark == 0 {
                1
            } else if mark == 3 {
                2
            } else if mark == 1 {
                3 + player
            } else {
                4 - player
            };
            plane == of
        } else {
            plane == 0
        };
        boards.set(
            at + j,
            if set {
                one
            } else {
                0
            },
        );
        j = j + 1;
    }
    assert forall|i: int| 0 <= i < PLANES implies #[trigger] boards@[at + i] == (if plane_set(
        marks@,
        player as int,
        i,
    ) {
        one
    } else {
        0
    }) by {}
}

/// Every cell is in exactly one plane.
pub proof fn lemma_one_hot(marks: Seq<u8>, player: int, cell: int, p: int)
    requires
        0 <= player < 2,
        0 <= cell < HW,
        0 <= p < 5,
    ensures
        plane_set(marks, player, p * 160 + cell) <==> p == (if even_square(cell) {
            plane_of(marks[cell / 2], player)
        } else {
            0
        }),
{
    let j = p * 160 + cell;
    assert(j % 160 == cell && j / 160 == p);
}

/// One player's own plane is the other's plane of the opponent.
pub proof fn lemma_views_mirror(marks: Seq<u8>, cell: int)
    requires
        0 <= cell < HW,
    ensures
        plane_set(marks, 0, 3 * 160 + cell) == plane_set(marks, 1, 4 * 160 + cell),
        plane_set(marks, 0, 4 * 160 + cell) == plane_set(marks, 1, 3 * 160 + cell),
{
}

// ------------------------------------------------------------------------------- records

/// One position of a game: the packed board, both players' scores, actions and policies, and
/// what the position is worth, in the form `T`.
#[derive(Clone, Copy, Debug)]
pub struct Record<T> {
    pub board: [u8; 20],
    pub scores: [u8; 2],
    pub actions: [u8; 2],
    pub policy: [[u16; SQUARES]; 2],
    pub returns: T,
}

/// Two records of the same position, move and policy.
pub open spec fn same_but_returns<T, U>(a: Record<T>, b: Record<U>) -> bool {
    &&& a.board == b.board
    &&& a.scores == b.scores
    &&& a.actions == b.actions
    &&& a.policy == b.policy
}

/// How moves are chosen and valued, which is a matter of the model's numbers.
pub trait Rule {
    /// What a position is worth to one player.
    type Value: Copy;

    /// The same, as it is kept for training.
    type Stored: Copy;

    /// The model's output for all games.
    type Outputs;

    /// The state of a walk over one player's legal squares.
    type Scan;

    /// What a finished game is worth to a player: its result as 1, 0 or -1.
    fn reward(result: i8) -> Self::Value;

    /// The return of a position, from the value of the next one and the return of that.
    fn blend(&self, next: Self::Value, ret: Self::Value) -> Self::Value;

    /// A return as it is kept for training.
    fn store(ret: Self::Value) -> Self::Stored;

    /// Begin to draw a player's move in a game.
    fn open(
        &self,
        outputs: &Self::Outputs,
        game: usize,
        player: usize,
        legal: [u64; LEGAL_WORDS],
        evaluation: bool,
        rng: Rng,
    ) -> (Self::Scan, Rng);

    /// Weigh one legal square; the squares come in board order. Says whether this square is
    /// to be chosen over any before it.
    fn weigh(&self, scan: Self::Scan, square: usize) -> (Self::Scan, bool);

    /// The policy that the move was drawn from.
    fn policy(scan: &Self::Scan) -> [u16; SQUARES];

    /// What the position is worth under that policy.
    fn value(scan: &Self::Scan) -> Self::Value;
}

/// The return of position `t` of a game: the reward for the last one, and for each other one a
/// blend of the value of the next position and the return of that.
pub open spec fn return_at<R: Rule>(
    rule: R,
    h: Seq<Record<[R::Value; 2]>>,
    reward: [R::Value; 2],
    rets: Seq<[R::Value; 2]>,
    t: int,
) -> bool {
    if t == h.len() - 1 {
        rets[t] == reward
    } else {
        &&& call_ensures(R::blend, (&rule, h[t + 1].returns@[0], rets[t + 1]@[0]), rets[t]@[0])
        &&& call_ensures(R::blend, (&rule, h[t + 1].returns@[1], rets[t + 1]@[1]), rets[t]@[1])
    }
}

/// The returns of a game's positions, from `from` on.
pub open spec fn returns_of<R: Rule>(
    rule: R,
    h: Seq<Record<[R::Value; 2]>>,
    reward: [R::Value; 2],
    rets: Seq<[R::Value; 2]>,
    from: int,
) -> bool {
    &&& rets.len() == h.len()
    &&& forall|t: int| from <= t < h.len() ==> #[trigger] return_at(rule, h, reward, rets, t)
}

/// A position with its return, as it is kept.
pub open spec fn stored_as<R: Rule>(
    r: Record<[R::Value; 2]>,
    ret: [R::Value; 2],
    out: Record<[R::Stored; 2]>,
) -> bool {
    &&& same_but_returns(r, out)
    &&& call_ensures(R::store, (ret@[0],), out.returns@[0])
    &&& call_ensures(R::store, (ret@[1],), out.returns@[1])
}

/// The first `n` positions of a game, with their returns, from `start` on in the buffer.
pub open spec fn stored_from<R: Rule>(
    h: Seq<Record<[R::Value; 2]>>,
    rets: Seq<[R::Value; 2]>,
    out: Seq<Record<[R::Stored; 2]>>,
    start: int,
    n: int,
) -> bool {
    forall|t: int| 0 <= t < n ==> stored_as::<R>(h[t], #[trigger] rets[t], out[start + t])
}

/// What finishing a game adds to the buffer: its positions, in order, with their returns.
pub open spec fn finished_into<R: Rule>(
    rule: R,
    h: Seq<Record<[R::Value; 2]>>,
    reward: [R::Value; 2],
    before: Seq<Record<[R::Stored; 2]>>,
    after: Seq<Record<[R::Stored; 2]>>,
) -> bool {
    &&& after.len() == before.len() + h.len()
    &&& forall|i: int| 0 <= i < before.len() ==> #[trigger] after[i] == before[i]
    &&& exists|rets: Seq<[R::Value; 2]>|
        returns_of(rule, h, reward, rets, 0) && #[trigger] stored_from::<R>(
            h,
            rets,
            after,
            before.len() as int,
            h.len() as int,
        )
}

/// The returns of a game's positions, computed from the last one back.
fn all_returns<R: Rule>(history: &Vec<Record<[R::Value; 2]>>, reward: [R::Value; 2], rule: &R) -> (rets:
    Vec<[R::Value; 2]>)
    ensures
        returns_of(*rule, history@, reward, rets@, 0),
{
    let total: usize = history.len();
    let mut rets: Vec<[R::Value; 2]> = Vec::new();
    let mut t: usize = 0;
    while t < total
        invariant
            t <= total,
            rets@.len() == t,
            forall|i: int| 0 <= i < t ==> #[trigger] rets@[i] == reward,
        decreases total - t,
    {
        rets.push(reward);
        t = t + 1;
    }
    let mut k: usize = total;
    while k > 0
        invariant
            k <= total,
            total == history@.len(),
            rets@.len() == total,
            forall|i: int| 0 <= i < k ==> #[trigger] rets@[i] == reward,
            returns_of(*rule, history@, reward, rets@, k as int),
        decreases k,
    {
        k = k - 1;
        let ghost r0 = rets@;
        if k + 1 < total {
            let first = rule.blend(history[k + 1].returns[0], rets[k + 1][0]);
            let second = rule.blend(history[k + 1].returns[1], rets[k + 1][1]);
            let ret: [R::Value; 2] = [first, second];
            assert(ret@[0] == first && ret@[1] == second);
            rets.set(k, ret);
        }
        assert forall|i: int| k <= i < total implies #[trigger] return_at(
            *rule,
            history@,
            reward,
            rets@,
            i,
        ) by {
            if i > k {
                assert(return_at(*rule, history@, reward, r0, i));
                assert(rets@[i] == r0[i]);
                if i + 1 < total {
                    assert(rets@[i + 1] == r0[i + 1]);
                }
            }
        }
    }
    rets
}

/// Move the positions of a finished game into the buffer, in order, with their returns.
pub fn finish<R: Rule>(
    history: &mut Vec<Record<[R::Value; 2]>>,
    reward: [R::Value; 2],
    rule: &R,
    buffer: &mut Vec<Record<[R::Stored; 2]>>,
)
    ensures
        final(history)@.len() == 0,
        finished_into(*rule, old(history)@, reward, old(buffer)@, final(buffer)@),
{
    let ghost h = history@;
    let ghost b0 = buffer@;
    let ghost start = b0.len() as int;
    let rets = all_returns::<R>(history, reward, rule);
    let total: usize = history.len();
    let mut n: usize = 0;
    while n < total
        invariant
            n <= total,
            total == h.len(),
            history@ == h,
            rets@.len() == total,
            start == b0.len(),
            buffer@.len() == b0.len() + n,
            forall|i: int| 0 <= i < b0.len() ==> #[trigger] buffer@[i] == b0[i],
            stored_from::<R>(h, rets@, buffer@, start, n as int),
        decreases total - n,
    {
        let ghost b1 = buffer@;
        let r = history[n];
        let first = R::store(rets[n][0]);
        let second = R::store(rets[n][1]);
        let kept: [R::Stored; 2] = [first, second];
        assert(kept@[0] == first && kept@[1] == second);
        buffer.push(
            Record {
                board: r.board,
                scores: r.scores,
                actions: r.actions,
                policy: r.policy,
                returns: kept,
            },
        );
        assert forall|t: int| 0 <= t < n + 1 implies stored_as::<R>(
            h[t],
            #[trigger] rets@[t],
            buffer@[start + t],
        ) by {
            if t < n {
                assert(buffer@[start + t] == b1[start + t]);
            }
        }
        n = n + 1;
    }
    assert(stored_from::<R>(h, rets@, buffer@, start, h.len() as int));
    history.clear();
}

// ---------------------------------------------------------------------------- collection

/// A move from `before` to `after`: squares legal for the players, played at once.
pub open spec fn move_made(before: Game, after: Game, actions: Seq<u8>) -> bool {
    &&& actions[0] < SQUARES
    &&& actions[1] < SQUARES
    &&& before.may_play(cell_of(actions[0] as int), 0)
    &&& before.may_play(cell_of(actions[1] as int), 1)
    &&& after.cells@ == moved(
        before.cells@,
        cell_of(actions[0] as int),
        cell_of(actions[1] as int),
    )
    &&& after.move_count == before.move_count + 1
    &&& from_opening(after)
}

/// The record of a position.
pub open spec fn recorded<T>(g: Game, r: Record<T>) -> bool {
    &&& r.board@ == packed(marks_of(g.cells@))
    &&& r.scores@[0] == g.scores@[0]
    &&& r.scores@[1] == g.scores@[1]
}

/// What a walk over a player's squares does at square `k`: the rule weighs it if it is legal.
pub open spec fn weighed<R: Rule>(
    rule: R,
    legal: Seq<u64>,
    scans: Seq<R::Scan>,
    verdicts: Seq<bool>,
    k: int,
) -> bool {
    if holds(legal, k) {
        call_ensures(R::weigh, (&rule, scans[k], k as usize), (scans[k + 1], verdicts[k]))
    } else {
        scans[k + 1] == scans[k] && !verdicts[k]
    }
}

/// Drawing a move with its policy and value, by a given walk: `scans[k]` is the state of the
/// walk before square `k`, and `verdicts[k]` the verdict on it.
pub open spec fn drawn_by<R: Rule>(
    rule: R,
    outputs: R::Outputs,
    index: int,
    player: usize,
    game: Game,
    evaluation: bool,
    rngs: (Rng, Rng),
    r: (u8, [u16; SQUARES], R::Value),
    legal: [u64; LEGAL_WORDS],
    scans: Seq<R::Scan>,
    verdicts: Seq<bool>,
) -> bool {
    &&& game.is_mask(legal@, player as int)
    &&& scans.len() == 129
    &&& verdicts.len() == 128
    &&& call_ensures(
        R::open,
        (&rule, &outputs, index as usize, player, legal, evaluation, rngs.0),
        (scans[0], rngs.1),
    )
    &&& forall|k: int| 0 <= k < 128 ==> #[trigger] weighed(rule, legal@, scans, verdicts, k)
    &&& is_pick(legal@, verdicts, r.0 as int)
    &&& call_ensures(R::policy, (&scans[128],), r.1)
    &&& call_ensures(R::value, (&scans[128],), r.2)
}

/// Drawing a player's move in game number `index`: the rule opens a walk, weighs each legal
/// square in board order, and the move is the one its verdicts come to. Policy and value are
/// those of the walk at its end. `rngs` is the generator before and after.
pub open spec fn drawn<R: Rule>(
    rule: R,
    outputs: R::Outputs,
    index: int,
    player: usize,
    game: Game,
    evaluation: bool,
    rngs: (Rng, Rng),
    r: (u8, [u16; SQUARES], R::Value),
) -> bool {
    exists|legal: [u64; LEGAL_WORDS], scans: Seq<R::Scan>, verdicts: Seq<bool>| #[trigger]
        drawn_by(
            rule,
            outputs,
            index,
            player,
            game,
            evaluation,
            rngs,
            r,
            legal,
            scans,
            verdicts,
        )
}

/// The moves, policies and values of a record were drawn: player 0's, which leaves the
/// generator at `mid`, then player 1's.
pub open spec fn both_drawn_by<R: Rule>(
    rule: R,
    outputs: R::Outputs,
    index: int,
    game: Game,
    evaluation: bool,
    rngs: (Rng, Rng),
    r: Record<[R::Value; 2]>,
    mid: Rng,
) -> bool {
    let first = (r.actions@[0], r.policy@[0], r.returns@[0]);
    let second = (r.actions@[1], r.policy@[1], r.returns@[1]);
    &&& drawn(rule, outputs, index, 0, game, evaluation, (rngs.0, mid), first)
    &&& drawn(rule, outputs, index, 1, game, evaluation, (mid, rngs.1), second)
}

/// The moves, policies and values of a record were drawn, one player's after the other's.
pub open spec fn both_drawn<R: Rule>(
    rule: R,
    outputs: R::Outputs,
    index: int,
    game: Game,
    evaluation: bool,
    rngs: (Rng, Rng),
    r: Record<[R::Value; 2]>,
) -> bool {
    exists|mid: Rng| #[trigger]
        both_drawn_by(rule, outputs, index, game, evaluation, rngs, r, mid)
}

/// Draw one player's move: have the rule weigh the legal squares in board order, and pick by
/// its verdicts.
fn draw_move<R: Rule>(
    rule: &R,
    outputs: &R::Outputs,
    index: usize,
    player: usize,
    game: &Game,
    evaluation: bool,
    rng: &mut Rng,
) -> (r: (u8, [u16; SQUARES], R::Value))
    requires
        game.wf(),
        game.moves_open(player as int) > 0,
    ensures
        r.0 < SQUARES,
        game.may_play(cell_of(r.0 as int), player as int),
        drawn(
            *rule,
            *outputs,
            index as int,
            player,
            *game,
            evaluation,
            (*old(rng), *final(rng)),
            r,
        ),
{
    let legal: [u64; LEGAL_WORDS] = game.legal_moves(player);
    proof {
        lemma_moves_open(game.cells@, game.move_count == 0, player as int, legal@);
    }
    let ghost before = *rng;
    let (opened, next) = rule.open(outputs, index, player, legal, evaluation, rng.clone());
    *rng = next;
    let mut scan = opened;
    let ghost mut scans: Seq<R::Scan> = seq![scan];
    let mut verdicts: Vec<bool> = Vec::new();
    let mut k: usize = 0;
    while k < 128
        invariant
            k <= 128,
            verdicts@.len() == k,
            scans.len() == k + 1,
            call_ensures(
                R::open,
                (rule, outputs, index, player, legal, evaluation, before),
                (scans[0], next),
            ),
            scans[k as int] == scan,
            forall|j: int|
                0 <= j < k ==> #[trigger] weighed(*rule, legal@, scans, verdicts@, j),
            forall|j: int| 0 <= j < k && #[trigger] verdicts@[j] ==> holds(legal@, j),
        decreases 128 - k,
    {
        let ghost s0 = scans;
        let ghost v0 = verdicts@;
        if test_bit(legal, k) {
            let (new_scan, verdict) = rule.weigh(scan, k);
            scan = new_scan;
            verdicts.push(verdict);
        } else {
            verdicts.push(false);
        }
        proof {
            scans = scans.push(scan);
            assert forall|j: int| 0 <= j < k + 1 implies #[trigger] weighed(
                *rule,
                legal@,
                scans,
                verdicts@,
                j,
            ) by {
                if j < k {
                    assert(weighed(*rule, legal@, s0, v0, j));
                }
            }
        }
        k = k + 1;
    }
    let square: usize = pick(legal, &verdicts);
    let r = (square as u8, R::policy(&scan), R::value(&scan));
    proof {
        assert(drawn_by(
            *rule,
            *outputs,
            index as int,
            player,
            *game,
            evaluation,
            (before, next),
            r,
            legal,
            scans,
            verdicts@,
        ));
    }
    r
}

/// The scores of a game in play, which fit in a byte.
fn byte_scores(game: &Game) -> (s: [u8; 2])
    requires
        from_opening(*game),
    ensures
        s@[0] == game.scores@[0],
        s@[1] == game.scores@[1],
{
    proof {
        lemma_score_halved(game.cells@, game.levels@, PLAYER_0_MARK);
        lemma_score_halved(game.cells@, game.levels@, PLAYER_1_MARK);
    }
    [game.scores[0] as u8, game.scores[1] as u8]
}

/// The scores as a player sees them: their own and the opponent's.
pub fn seen_scores(scores: [u8; 2], player: usize) -> (s: [u8; 2])
    requires
        player < 2,
    ensures
        s@ == seq![scores@[player as int], scores@[1 - player]],
{
    [scores[player], scores[1 - player]]
}

/// Append the scores of a position as each player sees them, player 0 first.
fn push_scores(out: &mut Vec<u8>, scores: [u8; 2])
    ensures
        final(out)@ == old(out)@ + seq![scores@[0], scores@[1], scores@[1], scores@[0]],
{
    let mut player: usize = 0;
    while player < 2
        invariant
            player <= 2,
            player == 0 ==> out@ == old(out)@,
            player == 1 ==> out@ == old(out)@ + seq![scores@[0], scores@[1]],
            player == 2 ==> out@ == old(out)@ + seq![
                scores@[0],
                scores@[1],
                scores@[1],
                scores@[0],
            ],
        decreases 2 - player,
    {
        let s: [u8; 2] = seen_scores(scores, player);
        out.push(s[0]);
        out.push(s[1]);
        player = player + 1;
    }
}

/// Draw and play a move of game number `index`. Returns the record of the position it was
/// played in.
fn make_move<R: Rule>(
    rule: &R,
    outputs: &R::Outputs,
    index: usize,
    game: &mut Game,
    evaluation: bool,
    rng: &mut Rng,
    scratch: &mut Scratch,
) -> (r: Record<[R::Value; 2]>)
    requires
        from_opening(*old(game)),
        !old(game).finished,
        old(scratch).wf(),
    ensures
        recorded(*old(game), r),
        both_drawn(
            *rule,
            *outputs,
            index as int,
            *old(game),
            evaluation,
            (*old(rng), *final(rng)),
            r,
        ),
        move_made(*old(game), *final(game), r.actions@),
        final(scratch).wf(),
{
    let ghost g0 = *game;
    let ghost r0 = *rng;
    proof {
        lemma_both_can_move(g0);
    }
    let first = draw_move::<R>(rule, outputs, index, 0, game, evaluation, rng);
    let ghost r1 = *rng;
    let second = draw_move::<R>(rule, outputs, index, 1, game, evaluation, rng);
    let board: [u8; 20] = pack(&marks(game));
    let scores: [u8; 2] = byte_scores(game);
    proof {
        lemma_cell_of(first.0 as int);
        lemma_cell_of(second.0 as int);
        lemma_move_takes(g0.cells@, cell_of(first.0 as int), cell_of(second.0 as int));
    }
    game.action_step(legal_cell(first.0 as usize), legal_cell(second.0 as usize), scratch);
    let r = Record {
        board,
        scores,
        actions: [first.0, second.0],
        policy: [first.1, second.1],
        returns: [first.2, second.2],
    };
    proof {
        assert(first == (r.actions@[0], r.policy@[0], r.returns@[0]));
        assert(second == (r.actions@[1], r.policy@[1], r.returns@[1]));
        assert(both_drawn_by(
            *rule,
            *outputs,
            index as int,
            g0,
            evaluation,
            (r0, *rng),
            r,
            r1,
        ));
    }
    r
}

/// Which result a game counts as: won, drawn or lost.
pub open spec fn verdict(result: i8) -> int {
    if result > 0 {
        0
    } else if result == 0 {
        1
    } else {
        2
    }
}

/// In an evaluation, the new model plays player 1 in the first half of the games and player 0
/// in the others.
pub open spec fn new_player(i: int, n: int) -> int {
    if i < n / 2 {
        1
    } else {
        0
    }
}

/// How many of the first `n` games are finished.
pub open spec fn finished_below(games: Seq<Game>, n: nat) -> nat
    decreases n,
{
    if n == 0 {
        0
    } else {
        finished_below(games, (n - 1) as nat) + (if games[n - 1].finished {
            1nat
        } else {
            0
        })
    }
}

/// A set of games that play themselves, by a model's numbers, either to collect positions for
/// training or to evaluate one model against another.
pub struct Arena<R: Rule> {
    pub games: Vec<Game>,
    pub histories: Vec<Vec<Record<[R::Value; 2]>>>,
    pub buffer: Vec<Record<[R::Stored; 2]>>,
    pub capacity: usize,
    pub max_ply: usize,
    pub rule: R,
    pub rng: Rng,
    pub scratch: Scratch,
    pub evaluation: bool,
    /// Games that the new model won, drew and lost.
    pub results: [usize; 3],
}

/// Are all games finished?
pub open spec fn all_finished(games: Seq<Game>) -> bool {
    forall|i: int| 0 <= i < games.len() ==> (#[trigger] games[i]).finished
}

/// The moves of all records are squares.
pub open spec fn all_squares<T>(h: Seq<Record<T>>) -> bool {
    forall|k: int|
        0 <= k < h.len() ==> (#[trigger] h[k]).actions@[0] < SQUARES && h[k].actions@[1] < SQUARES
}

/// What holds of game `i` between steps: in a collection it is in play, with a record of each
/// of its moves; in an evaluation there are no records.
pub open spec fn game_ok<T>(g: Game, h: Seq<Record<T>>, evaluation: bool) -> bool {
    &&& from_opening(g)
    &&& all_squares(h)
    &&& if evaluation {
        h.len() == 0
    } else {
        !g.finished && h.len() == g.move_count
    }
}

/// What a game with the given result adds to the buffer when it ends.
pub open spec fn closed_into<R: Rule>(
    rule: R,
    h: Seq<Record<[R::Value; 2]>>,
    result: Seq<i8>,
    before: Seq<Record<[R::Stored; 2]>>,
    after: Seq<Record<[R::Stored; 2]>>,
) -> bool {
    exists|reward: [R::Value; 2]| {
        &&& call_ensures(R::reward, (result[0],), reward@[0])
        &&& call_ensures(R::reward, (result[1],), reward@[1])
        &&& #[trigger] finished_into(rule, h, reward, before, after)
    }
}

/// What a step makes of game `i`: a finished one is left alone; any other makes a legal move,
/// drawn from the model's output.
/// In a collection the position goes into the game's history, and when the game ends its
/// positions go into the buffer and a new game begins; in an evaluation the result is counted.
pub open spec fn game_stepped<R: Rule>(
    s0: Arena<R>,
    s: Arena<R>,
    i: int,
    outputs: R::Outputs,
    r: Record<[R::Value; 2]>,
    mid: Game,
) -> bool {
    let g0 = s0.games@[i];
    let result = outcome(mid.scores@);
    if g0.finished {
        &&& s.games@[i] == g0
        &&& s.histories@[i] == s0.histories@[i]
        &&& s.buffer == s0.buffer
        &&& s.results == s0.results
        &&& s.rng == s0.rng
    } else {
        &&& recorded(g0, r)
        &&& both_drawn(s0.rule, outputs, i, g0, s0.evaluation, (s0.rng, s.rng), r)
        &&& move_made(g0, mid, r.actions@)
        &&& if s0.evaluation {
            let k = verdict(result[new_player(i, s0.games@.len() as int)]);
            &&& s.games@[i] == mid
            &&& s.histories@[i] == s0.histories@[i]
            &&& s.buffer == s0.buffer
            &&& mid.finished ==> s.results@ == s0.results@.update(
                k,
                (s0.results@[k] + 1) as usize,
            )
            &&& !mid.finished ==> s.results == s0.results
        } else {
            &&& s.results == s0.results
            &&& !mid.finished ==> {
                &&& s.games@[i] == mid
                &&& s.histories@[i]@ == s0.histories@[i]@.push(r)
                &&& s.buffer == s0.buffer
            }
            &&& mid.finished ==> {
                &&& s.games@[i].cells@ == opening()
                &&& s.games@[i].move_count == 0
                &&& s.histories@[i]@.len() == 0
                &&& closed_into(
                    s0.rule,
                    s0.histories@[i]@.push(r),
                    result,
                    s0.buffer@,
                    s.buffer@,
                )
            }
        }
    }
}

impl<R: Rule> Arena<R> {
    pub open spec fn wf(&self) -> bool {
        let n = self.games@.len();
        &&& n > 0
        &&& n * SQUARES <= usize::MAX
        &&& self.histories@.len() == n
        &&& self.max_ply == SQUARES
        &&& forall|i: int|
            0 <= i < n ==> game_ok(
                #[trigger] self.games@[i],
                self.histories@[i]@,
                self.evaluation,
            )
        &&& !self.evaluation ==> self.buffer@.len() <= self.capacity
        &&& all_squares(self.buffer@)
        &&& self.scratch.wf()
    }

    /// How many results have been counted.
    pub open spec fn total(&self) -> int {
        self.results@[0] + self.results@[1] + self.results@[2]
    }

    /// The results are those of the finished games.
    pub open spec fn counted(&self) -> bool {
        self.total() == finished_below(self.games@, self.games@.len())
    }

    /// Is there room for all positions of all games?
    pub open spec fn has_room(&self) -> bool {
        self.evaluation || self.buffer@.len() + self.games@.len() * SQUARES <= self.capacity
    }

    /// Games at the opening.
    pub fn new(
        n: usize,
        capacity: usize,
        max_ply: usize,
        rule: R,
        seed: u64,
        evaluation: bool,
    ) -> (a: Self)
        requires
            n > 0,
            max_ply == SQUARES,
            n * SQUARES <= usize::MAX,
            evaluation || capacity >= n * max_ply,
        ensures
            a.wf(),
            a.has_room(),
            a.counted(),
            a.games@.len() == n,
            forall|i: int|
                0 <= i < n ==> (#[trigger] a.games@[i]).cells@ == opening()
                    && a.games@[i].move_count == 0,
            a.buffer@.len() == 0,
            a.capacity == capacity,
            a.rule == rule,
            a.evaluation == evaluation,
            a.results@ == seq![0usize, 0usize, 0usize],
            a.rng.state() == seeded(seed),
    {
        let mut games: Vec<Game> = Vec::new();
        let mut histories: Vec<Vec<Record<[R::Value; 2]>>> = Vec::new();
        let mut i: usize = 0;
        while i < n
            invariant
                i <= n,
                games@.len() == i,
                histories@.len() == i,
                forall|j: int|
                    0 <= j < i ==> {
                        &&& from_opening(#[trigger] games@[j])
                        &&& !games@[j].finished
                        &&& games@[j].cells@ == opening()
                        &&& games@[j].move_count == 0
                        &&& histories@[j]@.len() == 0
                    },
                finished_below(games@, i as nat) == 0,
            decreases n - i,
        {
            let g = Game::new();
            proof {
                lemma_open_squares(g.cells@);
                lemma_finished_prefix(games@, games@.push(g), i as nat);
            }
            games.push(g);
            histories.push(Vec::new());
            i = i + 1;
        }
        let results: [usize; 3] = [0, 0, 0];
        assert(results@ =~= seq![0usize, 0usize, 0usize]);
        Arena {
            games,
            histories,
            buffer: Vec::new(),
            capacity,
            max_ply,
            rule,
            rng: Rng::new(seed),
            scratch: Scratch::new(),
            evaluation,
            results,
        }
    }
}

/// Counting reads only the games it counts.
proof fn lemma_finished_prefix(a: Seq<Game>, b: Seq<Game>, n: nat)
    requires
        n <= a.len(),
        n <= b.len(),
        forall|i: int| 0 <= i < n ==> (#[trigger] b[i]).finished == a[i].finished,
    ensures
        finished_below(b, n) == finished_below(a, n),
    decreases n,
{
    if n > 0 {
        lemma_finished_prefix(a, b, (n - 1) as nat);
        assert(b[n - 1].finished == a[n - 1].finished);
    }
}

/// A count with one game changed.
proof fn lemma_finished_update(a: Seq<Game>, i: int, g: Game, n: nat)
    requires
        0 <= i < a.len(),
        n <= a.len(),
    ensures
        finished_below(a.update(i, g), n) == finished_below(a, n) + (if i < n {
            (if g.finished {
                1int
            } else {
                0
            }) - (if a[i].finished {
                1int
            } else {
                0
            })
        } else {
            0
        }),
        finished_below(a, n) <= n,
    decreases n,
{
    if n > 0 {
        lemma_finished_update(a, i, g, (n - 1) as nat);
    }
}

/// A step of game `i` alone.
pub open spec fn stepped_one<R: Rule>(
    s0: Arena<R>,
    s: Arena<R>,
    i: int,
    outputs: R::Outputs,
) -> bool {
    &&& s.capacity == s0.capacity
    &&& s.max_ply == s0.max_ply
    &&& s.rule == s0.rule
    &&& s.evaluation == s0.evaluation
    &&& s.games@.len() == s0.games@.len()
    &&& s.histories@.len() == s0.histories@.len()
    &&& forall|j: int|
        0 <= j < s0.games@.len() && j != i ==> #[trigger] s.games@[j] == s0.games@[j]
    &&& forall|j: int|
        0 <= j < s0.games@.len() && j != i ==> #[trigger] s.histories@[j] == s0.histories@[j]
    &&& exists|r: Record<[R::Value; 2]>, mid: Game| #[trigger]
        game_stepped(s0, s, i, outputs, r, mid)
}

/// A step of all games, one after the other.
pub open spec fn steps_through<R: Rule>(
    trace: Seq<Arena<R>>,
    s0: Arena<R>,
    s: Arena<R>,
    outputs: R::Outputs,
) -> bool {
    &&& trace.len() == s0.games@.len() + 1
    &&& trace[0] == s0
    &&& trace.last() == s
    &&& forall|i: int|
        0 <= i < s0.games@.len() ==> stepped_one(#[trigger] trace[i], trace[i + 1], i, outputs)
}

impl<R: Rule> Arena<R> {
    /// Make a move in game `i`, unless it is finished.
    fn step_game(&mut self, i: usize, outputs: &R::Outputs)
        requires
            old(self).wf(),
            i < old(self).games@.len(),
            !old(self).evaluation ==> old(self).buffer@.len() + (old(self).games@.len() - i)
                * SQUARES <= old(self).capacity,
            old(self).evaluation ==> old(self).total() < usize::MAX,
        ensures
            final(self).wf(),
            stepped_one(*old(self), *final(self), i as int, *outputs),
            old(self).total() <= final(self).total() <= old(self).total() + 1,
            old(self).evaluation && old(self).counted() ==> final(self).counted(),
            !final(self).evaluation ==> final(self).buffer@.len() + (final(self).games@.len() - i
                - 1) * SQUARES <= final(self).capacity,
    {
        let ghost s0 = *self;
        let ghost g0 = self.games@[i as int];
        let ghost h0 = self.histories@[i as int]@;
        assert(game_ok(g0, h0, s0.evaluation));
        if self.games[i].finished {
            proof {
                let r: Record<[R::Value; 2]> = arbitrary();
                assert(game_stepped(s0, *self, i as int, *outputs, r, g0));
            }
            return ;
        }
        proof {
            lemma_both_can_move(g0);
        }
        let evaluation: bool = self.evaluation;
        let r = make_move::<R>(
            &self.rule,
            outputs,
            i,
            &mut self.games[i],
            evaluation,
            &mut self.rng,
            &mut self.scratch,
        );
        let ghost mid = self.games@[i as int];
        if !evaluation {
            self.histories[i].push(r);
        }
        if self.games[i].finished {
            let result: [i8; 2] = self.games[i].terminal_values();
            if evaluation {
                let player: usize = if i < self.games.len() / 2 {
                    1
                } else {
                    0
                };
                let k: usize = if result[player] > 0 {
                    0
                } else if result[player] == 0 {
                    1
                } else {
                    2
                };
                proof {
                    lemma_finished_update(s0.games@, i as int, mid, s0.games@.len());
                    assert(self.games@ =~= s0.games@.update(i as int, mid));
                    assert(self.results@[k as int] <= self.total());
                }
                self.results[k] = self.results[k] + 1;
                assert(self.results@ =~= s0.results@.update(
                    k as int,
                    (s0.results@[k as int] + 1) as usize,
                ));
            } else {
                let first = R::reward(result[0]);
                let second = R::reward(result[1]);
                let reward: [R::Value; 2] = [first, second];
                assert(reward@[0] == first && reward@[1] == second);
                assert(result@ == outcome(mid.scores@));
                assert(call_ensures(R::reward, (outcome(mid.scores@)[0],), reward@[0]));
                assert(call_ensures(R::reward, (outcome(mid.scores@)[1],), reward@[1]));
                assert(self.histories@[i as int]@ == h0.push(r));
                finish::<R>(&mut self.histories[i], reward, &self.rule, &mut self.buffer);
                assert(finished_into(s0.rule, h0.push(r), reward, s0.buffer@, self.buffer@));
                assert(closed_into(
                    s0.rule,
                    h0.push(r),
                    outcome(mid.scores@),
                    s0.buffer@,
                    self.buffer@,
                ));
                proof {
                    lemma_squares_kept::<R>(
                        s0.rule,
                        h0.push(r),
                        reward,
                        s0.buffer@,
                        self.buffer@,
                    );
                }
                let fresh = Game::new();
                proof {
                    lemma_open_squares(fresh.cells@);
                }
                self.games.set(i, fresh);
            }
        } else {
            proof {
                lemma_finished_update(s0.games@, i as int, mid, s0.games@.len());
                assert(self.games@ =~= s0.games@.update(i as int, mid));
            }
        }
        proof {
            assert(game_stepped(s0, *self, i as int, *outputs, r, mid));
            assert forall|j: int| 0 <= j < self.games@.len() implies game_ok(
                #[trigger] self.games@[j],
                self.histories@[j]@,
                self.evaluation,
            ) by {
                if j != i {
                    assert(game_ok(s0.games@[j], s0.histories@[j]@, s0.evaluation));
                }
            }
        }
    }

    /// Make a move in every game that is not finished. In a collection, says whether the
    /// buffer may be too full for another step; in an evaluation, whether all games are
    /// finished.
    pub fn step(&mut self, outputs: &R::Outputs) -> (done: bool)
        requires
            old(self).wf(),
            old(self).has_room(),
            old(self).evaluation ==> old(self).total() + old(self).games@.len() <= usize::MAX,
        ensures
            final(self).wf(),
            exists|trace: Seq<Arena<R>>| #[trigger]
                steps_through(trace, *old(self), *final(self), *outputs),
            final(self).evaluation == old(self).evaluation,
            final(self).games@.len() == old(self).games@.len(),
            final(self).evaluation ==> (done <==> final(self).total() == final(self).games@.len()),
            old(self).evaluation && old(self).counted() ==> final(self).counted() && (done
                <==> all_finished(final(self).games@)),
            !final(self).evaluation ==> (done <==> !final(self).has_room()),
    {
        let ghost s0 = *self;
        let ghost mut trace: Seq<Arena<R>> = seq![s0];
        let n: usize = self.games.len();
        let mut i: usize = 0;
        while i < n
            invariant
                i <= n,
                s0 == *old(self),
                n == s0.games@.len(),
                self.wf(),
                self.games@.len() == n,
                self.evaluation == s0.evaluation,
                self.evaluation ==> self.total() + (n - i) <= usize::MAX,
                self.evaluation && s0.counted() ==> self.counted(),
                trace.len() == i + 1,
                trace[0] == s0,
                trace.last() == *self,
                forall|j: int|
                    0 <= j < i ==> stepped_one(#[trigger] trace[j], trace[j + 1], j, *outputs),
                !self.evaluation ==> self.buffer@.len() + (n - i) * SQUARES <= self.capacity,
            decreases n - i,
        {
            let ghost before = *self;
            self.step_game(i, outputs);
            proof {
                let t0 = trace;
                trace = trace.push(*self);
                assert forall|j: int| 0 <= j < i + 1 implies stepped_one(
                    #[trigger] trace[j],
                    trace[j + 1],
                    j,
                    *outputs,
                ) by {
                    assert(trace[j] == t0[j]);
                    if j < i {
                        assert(trace[j + 1] == t0[j + 1]);
                    } else {
                        assert(t0.last() == before);
                    }
                }
            }
            i = i + 1;
        }
        assert(steps_through(trace, s0, *self, *outputs));
        if self.evaluation {
            proof {
                lemma_finished_all(self.games@, n as nat);
            }
            self.results[0] + self.results[1] + self.results[2] == n
        } else {
            self.capacity - self.buffer.len() < n * self.max_ply
        }
    }

    /// Give up all games in play and begin new ones. Returns how many positions were dropped.
    pub fn reset(&mut self) -> (dropped: usize)
        requires
            old(self).wf(),
        ensures
            final(self).wf(),
            dropped == (if old(self).evaluation {
                0
            } else {
                moves_below(old(self).games@, old(self).games@.len())
            }),
            final(self).games@.len() == old(self).games@.len(),
            forall|i: int|
                0 <= i < final(self).games@.len() ==> (#[trigger] final(self).games@[i]).cells@
                    == opening() && final(self).games@[i].move_count == 0
                    && final(self).histories@[i]@.len() == 0,
            *final(self) == (Arena {
                games: final(self).games,
                histories: final(self).histories,
                ..*old(self)
            }),
    {
        let ghost s0 = *self;
        let n: usize = self.games.len();
        let mut dropped: usize = 0;
        let mut i: usize = 0;
        while i < n
            invariant
                i <= n,
                s0 == *old(self),
                s0.wf(),
                n == s0.games@.len(),
                *self == (Arena { games: self.games, histories: self.histories, ..s0 }),
                self.games@.len() == n,
                self.histories@.len() == n,
                dropped == (if s0.evaluation {
                    0
                } else {
                    moves_below(s0.games@, i as nat)
                }),
                dropped <= i * SQUARES,
                forall|j: int| i <= j < n ==> #[trigger] self.games@[j] == s0.games@[j],
                forall|j: int| i <= j < n ==> #[trigger] self.histories@[j] == s0.histories@[j],
                forall|j: int|
                    0 <= j < i ==> {
                        &&& game_ok(#[trigger] self.games@[j], self.histories@[j]@, s0.evaluation)
                        &&& self.games@[j].cells@ == opening()
                        &&& self.games@[j].move_count == 0
                    },
            decreases n - i,
        {
            let ghost before = *self;
            assert(game_ok(s0.games@[i as int], s0.histories@[i as int]@, s0.evaluation));
            assert(self.histories@[i as int] == s0.histories@[i as int]);
            assert(self.histories@[i as int]@.len() <= SQUARES) by {
                if !s0.evaluation {
                    lemma_both_can_move(s0.games@[i as int]);
                }
            }
            dropped = dropped + self.histories[i].len();
            self.histories[i].clear();
            let fresh = Game::new();
            proof {
                lemma_open_squares(fresh.cells@);
            }
            self.games.set(i, fresh);
            assert forall|j: int| 0 <= j < i + 1 implies {
                &&& game_ok(#[trigger] self.games@[j], self.histories@[j]@, s0.evaluation)
                &&& self.games@[j].cells@ == opening()
                &&& self.games@[j].move_count == 0
            } by {
                if j < i {
                    assert(self.games@[j] == before.games@[j]);
                    assert(self.histories@[j] == before.histories@[j]);
                }
            }
            i = i + 1;
        }
        dropped
    }

    /// Empty the buffer.
    pub fn clear(&mut self)
        requires
            old(self).wf(),
        ensures
            final(self).wf(),
            final(self).buffer@.len() == 0,
            *final(self) == (Arena { buffer: final(self).buffer, ..*old(self) }),
    {
        self.buffer.clear();
    }
}

/// The moves of the records that a finished game adds are squares.
proof fn lemma_squares_kept<R: Rule>(
    rule: R,
    h: Seq<Record<[R::Value; 2]>>,
    reward: [R::Value; 2],
    before: Seq<Record<[R::Stored; 2]>>,
    after: Seq<Record<[R::Stored; 2]>>,
)
    requires
        all_squares(h),
        all_squares(before),
        finished_into(rule, h, reward, before, after),
    ensures
        all_squares(after),
{
    let rets = choose|rets: Seq<[R::Value; 2]>|
        returns_of(rule, h, reward, rets, 0) && #[trigger] stored_from::<R>(
            h,
            rets,
            after,
            before.len() as int,
            h.len() as int,
        );
    assert forall|k: int| 0 <= k < after.len() implies (#[trigger] after[k]).actions@[0] < SQUARES
        && after[k].actions@[1] < SQUARES by {
        if k < before.len() {
            assert(after[k] == before[k]);
        } else {
            let t = k - before.len();
            assert(stored_as::<R>(h[t], rets[t], after[before.len() + t]));
            assert(h[t].actions@[0] < SQUARES);
        }
    }
}

/// How many moves were made in the first `n` games.
pub open spec fn moves_below(games: Seq<Game>, n: nat) -> nat
    decreases n,
{
    if n == 0 {
        0
    } else {
        moves_below(games, (n - 1) as nat) + games[n - 1].move_count as nat
    }
}

/// All games are finished exactly if as many are as there are games.
proof fn lemma_finished_all(games: Seq<Game>, n: nat)
    requires
        n <= games.len(),
    ensures
        finished_below(games, n) <= n,
        finished_below(games, n) == n <==> forall|i: int|
            0 <= i < n ==> (#[trigger] games[i]).finished,
    decreases n,
{
    if n > 0 {
        lemma_finished_all(games, (n - 1) as nat);
        if finished_below(games, n) == n {
            assert forall|i: int| 0 <= i < n implies (#[trigger] games[i]).finished by {
                if i == n - 1 {
                    assert(games[n - 1].finished);
                }
            }
        } else if games[n - 1].finished {
            let i = choose|i: int| 0 <= i < n - 1 && !(#[trigger] games[i]).finished;
            assert(!games[i].finished);
        }
    }
}

// -------------------------------------------------------------------------------- tensors

/// Words per board, one for each cell.
pub const BOARD: usize = 160;

/// So many zeros.
fn zeros(n: usize) -> (v: Vec<u16>)
    ensures
        v@.len() == n,
        forall|i: int| 0 <= i < n ==> #[trigger] v@[i] == 0,
{
    let mut v: Vec<u16> = Vec::new();
    let mut i: usize = 0;
    while i < n
        invariant
            i <= n,
            v@.len() == i,
            forall|j: int| 0 <= j < i ==> #[trigger] v@[j] == 0,
        decreases n - i,
    {
        v.push(0);
        i = i + 1;
    }
    v
}

/// Are the planes of a row those of a board as a player sees it?
pub open spec fn row_shows(boards: Seq<u16>, row: int, marks: Seq<u8>, player: int) -> bool {
    forall|j: int|
        0 <= j < PLANES ==> #[trigger] boards[row * 800 + j] == (if plane_set(marks, player, j) {
            PLANE_ONE
        } else {
            0
        })
}

/// Is a row empty?
pub open spec fn row_empty(boards: Seq<u16>, row: int) -> bool {
    forall|j: int| 0 <= j < PLANES ==> #[trigger] boards[row * 800 + j] == 0
}

/// The model's input for a batch of positions: two rows for each, one as each player sees it.
/// The scores of a row are the player's own and the opponent's.
pub struct Inputs {
    pub boards: Vec<u16>,
    pub scores: Vec<u8>,
}

impl<R: Rule> Arena<R> {
    /// The model's input for the games in play. The rows of a finished game are empty.
    pub fn inputs(&self) -> (x: Inputs)
        requires
            self.wf(),
            self.games@.len() * 1600 <= usize::MAX,
        ensures
            x.boards@.len() == self.games@.len() * 1600,
            x.scores@.len() == self.games@.len() * 4,
            forall|i: int|
                0 <= i < self.games@.len() ==> #[trigger] input_rows(self.games@[i], x, i),
    {
        let n: usize = self.games.len();
        let mut boards: Vec<u16> = zeros(n * 1600);
        let mut scores: Vec<u8> = Vec::new();
        let mut i: usize = 0;
        while i < n
            invariant
                i <= n,
                n == self.games@.len(),
                n * 1600 <= usize::MAX,
                self.wf(),
                boards@.len() == n * 1600,
                scores@.len() == i * 4,
                forall|k: int| i * 1600 <= k < n * 1600 ==> #[trigger] boards@[k] == 0,
                forall|j: int|
                    0 <= j < i ==> #[trigger] input_rows(
                        self.games@[j],
                        (Inputs { boards, scores }),
                        j,
                    ),
            decreases n - i,
        {
            let ghost b0 = boards@;
            let ghost s0 = scores@;
            let ghost x0 = Inputs { boards, scores };
            assert(game_ok(self.games@[i as int], self.histories@[i as int]@, self.evaluation));
            if self.games[i].finished {
                scores.push(0);
                scores.push(0);
                scores.push(0);
                scores.push(0);
            } else {
                let m: [u8; SQUARES] = marks(&self.games[i]);
                let s: [u8; 2] = byte_scores(&self.games[i]);
                encode(&m, 0, PLANE_ONE, &mut boards, i * 1600);
                let ghost b1 = boards@;
                encode(&m, 1, PLANE_ONE, &mut boards, i * 1600 + 800);
                push_scores(&mut scores, s);
                proof {
                    assert forall|j: int| 0 <= j < PLANES implies #[trigger] boards@[(2 * i) * 800
                        + j] == (if plane_set(m@, 0, j) {
                        PLANE_ONE
                    } else {
                        0
                    }) by {
                        assert(b1[i * 1600 + j] == boards@[(2 * i) * 800 + j]);
                    }
                    assert forall|j: int| 0 <= j < PLANES implies #[trigger] boards@[(2 * i + 1)
                        * 800 + j] == (if plane_set(m@, 1, j) {
                        PLANE_ONE
                    } else {
                        0
                    }) by {
                        assert(boards@[(i * 1600 + 800) + j] == boards@[(2 * i + 1) * 800 + j]);
                    }
                }
            }
            proof {
                let x1 = Inputs { boards, scores };
                assert forall|j: int| 0 <= j < i + 1 implies #[trigger] input_rows(
                    self.games@[j],
                    x1,
                    j,
                ) by {
                    if j < i {
                        assert(input_rows(self.games@[j], x0, j));
                        lemma_rows_same(self.games@[j], x0, x1, j);
                    }
                }
            }
            i = i + 1;
        }
        Inputs { boards, scores }
    }
}

/// The rows of game `i`: empty if it is finished, and otherwise its position and scores as
/// each player sees them.
pub open spec fn input_rows(g: Game, x: Inputs, i: int) -> bool {
    let m = marks_of(g.cells@);
    if g.finished {
        &&& row_empty(x.boards@, 2 * i)
        &&& row_empty(x.boards@, 2 * i + 1)
        &&& x.scores@[4 * i] == 0
        &&& x.scores@[4 * i + 1] == 0
        &&& x.scores@[4 * i + 2] == 0
        &&& x.scores@[4 * i + 3] == 0
    } else {
        &&& row_shows(x.boards@, 2 * i, m, 0)
        &&& row_shows(x.boards@, 2 * i + 1, m, 1)
        &&& x.scores@[4 * i] == g.scores@[0]
        &&& x.scores@[4 * i + 1] == g.scores@[1]
        &&& x.scores@[4 * i + 2] == g.scores@[1]
        &&& x.scores@[4 * i + 3] == g.scores@[0]
    }
}

/// Rows that are the same show the same.
proof fn lemma_rows_same(g: Game, a: Inputs, b: Inputs, i: int)
    requires
        input_rows(g, a, i),
        0 <= i,
        forall|k: int| i * 1600 <= k < (i + 1) * 1600 ==> #[trigger] b.boards@[k] == a.boards@[k],
        forall|k: int| i * 4 <= k < (i + 1) * 4 ==> #[trigger] b.scores@[k] == a.scores@[k],
    ensures
        input_rows(g, b, i),
{
    assert forall|j: int| 0 <= j < PLANES implies #[trigger] b.boards@[(2 * i) * 800 + j]
        == a.boards@[(2 * i) * 800 + j] by {}
    assert forall|j: int| 0 <= j < PLANES implies #[trigger] b.boards@[(2 * i + 1) * 800 + j]
        == a.boards@[(2 * i + 1) * 800 + j] by {}
}

/// A training batch: two rows for each position, one as each player sees it. Rows past the
/// filled ones are zero, and have no targets.
pub struct Batch<S> {
    pub boards: Vec<u16>,
    pub scores: Vec<u8>,
    /// The policy of a row, one word for each cell of the board.
    pub policies: Vec<u16>,
    /// The cell of the board that was played.
    pub moves: Vec<i64>,
    pub targets: Vec<S>,
}

/// The two rows of position `i` of a batch.
pub open spec fn batch_rows<S>(r: Record<[S; 2]>, b: Batch<S>, i: int) -> bool {
    let m = unpacked(r.board@);
    &&& row_shows(b.boards@, 2 * i, m, 0)
    &&& row_shows(b.boards@, 2 * i + 1, m, 1)
    &&& b.scores@[4 * i] == r.scores@[0]
    &&& b.scores@[4 * i + 1] == r.scores@[1]
    &&& b.scores@[4 * i + 2] == r.scores@[1]
    &&& b.scores@[4 * i + 3] == r.scores@[0]
    &&& policy_row(b.policies@, 2 * i, r.policy@[0]@)
    &&& policy_row(b.policies@, 2 * i + 1, r.policy@[1]@)
    &&& b.moves@[2 * i] == cell_of(r.actions@[0] as int)
    &&& b.moves@[2 * i + 1] == cell_of(r.actions@[1] as int)
    &&& b.targets@[2 * i] == r.returns@[0]
    &&& b.targets@[2 * i + 1] == r.returns@[1]
}

/// A policy over the squares, as a row with one word for each cell.
pub open spec fn policy_row(policies: Seq<u16>, row: int, policy: Seq<u16>) -> bool {
    forall|cell: int|
        0 <= cell < BOARD ==> #[trigger] policies[row * 160 + cell] == (if even_square(cell) {
            policy[cell / 2]
        } else {
            0
        })
}

/// Append a policy as a row with one word for each cell.
fn push_policy(policies: &mut Vec<u16>, policy: &[u16; SQUARES], Ghost(row): Ghost<int>)
    requires
        old(policies)@.len() == row * 160,
    ensures
        final(policies)@.len() == (row + 1) * 160,
        forall|k: int| 0 <= k < row * 160 ==> #[trigger] final(policies)@[k] == old(policies)@[k],
        policy_row(final(policies)@, row, policy@),
{
    let ghost before = policies@;
    let mut cell: usize = 0;
    while cell < BOARD
        invariant
            cell <= BOARD,
            before.len() == row * 160,
            policies@.len() == row * 160 + cell,
            forall|k: int| 0 <= k < row * 160 ==> #[trigger] policies@[k] == before[k],
            forall|k: int|
                0 <= k < cell ==> #[trigger] policies@[row * 160 + k] == (if even_square(k) {
                    policy@[k / 2]
                } else {
                    0
                }),
        decreases BOARD - cell,
    {
        let word: u16 = if (cell / 16 + cell % 16) % 2 == 0 {
            policy[cell / 2]
        } else {
            0
        };
        policies.push(word);
        cell = cell + 1;
    }
}

/// Append zeros up to a length.
fn pad<T: Copy>(v: &mut Vec<T>, zero: T, len: usize)
    requires
        old(v)@.len() <= len,
    ensures
        final(v)@.len() == len,
        forall|k: int| 0 <= k < old(v)@.len() ==> #[trigger] final(v)@[k] == old(v)@[k],
        forall|k: int| old(v)@.len() <= k < len ==> #[trigger] final(v)@[k] == zero,
{
    let ghost before = v@;
    while v.len() < len
        invariant
            before.len() <= v@.len() <= len,
            before == old(v)@,
            forall|k: int| 0 <= k < before.len() ==> #[trigger] v@[k] == before[k],
            forall|k: int| before.len() <= k < v@.len() ==> #[trigger] v@[k] == zero,
        decreases len - v@.len(),
    {
        v.push(zero);
    }
}

/// Rows that are the same hold the same position.
proof fn lemma_batch_same<S>(r: Record<[S; 2]>, a: Batch<S>, b: Batch<S>, i: int)
    requires
        batch_rows(r, a, i),
        0 <= i,
        forall|k: int| i * 1600 <= k < (i + 1) * 1600 ==> #[trigger] b.boards@[k] == a.boards@[k],
        forall|k: int| i * 4 <= k < (i + 1) * 4 ==> #[trigger] b.scores@[k] == a.scores@[k],
        forall|k: int| i * 320 <= k < (i + 1) * 320 ==> #[trigger] b.policies@[k] == a.policies@[k],
        forall|k: int| i * 2 <= k < (i + 1) * 2 ==> #[trigger] b.moves@[k] == a.moves@[k],
        forall|k: int| i * 2 <= k < (i + 1) * 2 ==> #[trigger] b.targets@[k] == a.targets@[k],
    ensures
        batch_rows(r, b, i),
{
    assert forall|j: int| 0 <= j < PLANES implies #[trigger] b.boards@[(2 * i) * 800 + j]
        == a.boards@[(2 * i) * 800 + j] by {}
    assert forall|j: int| 0 <= j < PLANES implies #[trigger] b.boards@[(2 * i + 1) * 800 + j]
        == a.boards@[(2 * i + 1) * 800 + j] by {}
    assert forall|j: int| 0 <= j < BOARD implies #[trigger] b.policies@[(2 * i) * 160 + j]
        == a.policies@[(2 * i) * 160 + j] by {}
    assert forall|j: int| 0 <= j < BOARD implies #[trigger] b.policies@[(2 * i + 1) * 160 + j]
        == a.policies@[(2 * i + 1) * 160 + j] by {}
}

impl<R: Rule> Arena<R> {
    /// A training batch of `count` positions from `start` on, or as many as there are.
    /// Returns the batch and how many positions it holds.
    pub fn batch(&self, start: usize, count: usize) -> (r: (Batch<R::Stored>, usize))
        requires
            self.wf(),
            start <= self.buffer@.len(),
            count * 1600 <= usize::MAX,
        ensures
            r.1 == (if self.buffer@.len() - start < count {
                self.buffer@.len() - start
            } else {
                count as int
            }),
            r.0.boards@.len() == count * 1600,
            r.0.scores@.len() == count * 4,
            r.0.policies@.len() == count * 320,
            r.0.moves@.len() == count * 2,
            r.0.targets@.len() == r.1 * 2,
            forall|i: int| 0 <= i < r.1 ==> batch_rows(#[trigger] self.buffer@[start + i], r.0, i),
            forall|k: int| r.1 * 1600 <= k < count * 1600 ==> #[trigger] r.0.boards@[k] == 0,
            forall|k: int| r.1 * 4 <= k < count * 4 ==> #[trigger] r.0.scores@[k] == 0,
            forall|k: int| r.1 * 320 <= k < count * 320 ==> #[trigger] r.0.policies@[k] == 0,
            forall|k: int| r.1 * 2 <= k < count * 2 ==> #[trigger] r.0.moves@[k] == 0,
    {
        let size: usize = self.buffer.len();
        let left: usize = size - start;
        let filled: usize = if left < count {
            left
        } else {
            count
        };
        let mut b: Batch<R::Stored> = Batch {
            boards: zeros(count * 1600),
            scores: Vec::new(),
            policies: Vec::new(),
            moves: Vec::new(),
            targets: Vec::new(),
        };
        let mut i: usize = 0;
        while i < filled
            invariant
                i <= filled <= count,
                count * 1600 <= usize::MAX,
                size == self.buffer@.len(),
                start + filled <= size,
                self.wf(),
                b.boards@.len() == count * 1600,
                b.scores@.len() == i * 4,
                b.policies@.len() == i * 320,
                b.moves@.len() == i * 2,
                b.targets@.len() == i * 2,
                forall|k: int| i * 1600 <= k < count * 1600 ==> #[trigger] b.boards@[k] == 0,
                forall|j: int| 0 <= j < i ==> batch_rows(#[trigger] self.buffer@[start + j], b, j),
            decreases filled - i,
        {
            let ghost b0 = b;
            let r = self.buffer[start + i];
            assert(self.buffer@[start + i].actions@[0] < SQUARES);
            let m: [u8; SQUARES] = unpack(&r.board);
            encode(&m, 0, PLANE_ONE, &mut b.boards, i * 1600);
            let ghost w = b.boards@;
            encode(&m, 1, PLANE_ONE, &mut b.boards, i * 1600 + 800);
            push_scores(&mut b.scores, r.scores);
            push_policy(&mut b.policies, &r.policy[0], Ghost(2 * i as int));
            let ghost p = b.policies@;
            push_policy(&mut b.policies, &r.policy[1], Ghost(2 * i as int + 1));
            proof {
                lemma_cell_of(r.actions@[0] as int);
                lemma_cell_of(r.actions@[1] as int);
            }
            b.moves.push(legal_cell(r.actions[0] as usize) as i64);
            b.moves.push(legal_cell(r.actions[1] as usize) as i64);
            b.targets.push(r.returns[0]);
            b.targets.push(r.returns[1]);
            proof {
                lemma_batch_row(r, b0, b, w, p, i as int);
                assert forall|j: int| 0 <= j < i + 1 implies batch_rows(
                    #[trigger] self.buffer@[start + j],
                    b,
                    j,
                ) by {
                    if j < i {
                        lemma_batch_same(self.buffer@[start + j], b0, b, j);
                    }
                }
            }
            i = i + 1;
        }
        let ghost b1 = b;
        pad(&mut b.scores, 0, count * 4);
        pad(&mut b.policies, 0, count * 320);
        pad(&mut b.moves, 0, count * 2);
        proof {
            assert forall|j: int| 0 <= j < filled implies batch_rows(
                #[trigger] self.buffer@[start + j],
                b,
                j,
            ) by {
                lemma_batch_same(self.buffer@[start + j], b1, b, j);
            }
        }
        (b, filled)
    }
}

/// The rows of a new position of a batch.
proof fn lemma_batch_row<S>(
    r: Record<[S; 2]>,
    b0: Batch<S>,
    b: Batch<S>,
    w: Seq<u16>,
    p: Seq<u16>,
    i: int,
)
    requires
        0 <= i,
        w.len() == b.boards@.len(),
        (i + 1) * 1600 <= w.len(),
        forall|j: int|
            0 <= j < PLANES ==> #[trigger] w[i * 1600 + j] == (if plane_set(
                unpacked(r.board@),
                0,
                j,
            ) {
                PLANE_ONE
            } else {
                0
            }),
        forall|j: int|
            0 <= j < PLANES ==> #[trigger] b.boards@[(i * 1600 + 800) + j] == (if plane_set(
                unpacked(r.board@),
                1,
                j,
            ) {
                PLANE_ONE
            } else {
                0
            }),
        forall|k: int|
            0 <= k < w.len() && !(i * 1600 + 800 <= k < i * 1600 + 800 + PLANES)
                ==> #[trigger] b.boards@[k] == w[k],
        b.scores@ == b0.scores@ + seq![
            r.scores@[0],
            r.scores@[1],
            r.scores@[1],
            r.scores@[0],
        ],
        b0.scores@.len() == 4 * i,
        policy_row(p, 2 * i, r.policy@[0]@),
        policy_row(b.policies@, 2 * i + 1, r.policy@[1]@),
        forall|k: int| 0 <= k < (2 * i + 1) * 160 ==> #[trigger] b.policies@[k] == p[k],
        b.moves@ == b0.moves@.push(cell_of(r.actions@[0] as int) as i64).push(
            cell_of(r.actions@[1] as int) as i64,
        ),
        b0.moves@.len() == 2 * i,
        0 <= cell_of(r.actions@[0] as int) < HW,
        0 <= cell_of(r.actions@[1] as int) < HW,
        b.targets@ == b0.targets@.push(r.returns@[0]).push(r.returns@[1]),
        b0.targets@.len() == 2 * i,
    ensures
        batch_rows(r, b, i),
{
    let m = unpacked(r.board@);
    assert forall|j: int| 0 <= j < PLANES implies #[trigger] b.boards@[(2 * i) * 800 + j] == (
    if plane_set(m, 0, j) {
        PLANE_ONE
    } else {
        0
    }) by {
        assert(w[i * 1600 + j] == b.boards@[(2 * i) * 800 + j]);
    }
    assert forall|j: int| 0 <= j < PLANES implies #[trigger] b.boards@[(2 * i + 1) * 800 + j] == (
    if plane_set(m, 1, j) {
        PLANE_ONE
    } else {
        0
    }) by {
        assert(b.boards@[(i * 1600 + 800) + j] == b.boards@[(2 * i + 1) * 800 + j]);
    }
    assert forall|c: int| 0 <= c < BOARD implies #[trigger] b.policies@[(2 * i) * 160 + c]
        == p[(2 * i) * 160 + c] by {}
}

} // verus!
