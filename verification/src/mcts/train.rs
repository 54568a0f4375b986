//! Collecting search targets for training, and the board symmetries they are augmented with.
use vstd::prelude::*;

use crate::board::{col, even_square, row, HW, SQUARES};
use crate::klent::{encode, mark_of, plane_set, PLANES, PLANE_ONE};
use crate::legal::{cell_of, lemma_bit_of, lemma_cell_of};
use crate::mcts::arena::fits;
use crate::mcts::config::Config;
use crate::mcts::record::StepRecord;
use crate::mcts::search::{all_true, claims_reach, collected, completes, flushed, Search};
use crate::mcts::step::{fresh, slots_seeded};
use crate::mcts::variant::Variant;
use crate::rng::{seeded, Rng};

verus! {

// ----------------------------------------------------------------------------- symmetries

/// Does the transform flip rows?
pub open spec fn flips_rows(transform: u8) -> bool {
    transform & 1 != 0
}

/// Does the transform flip columns?
pub open spec fn flips_cols(transform: u8) -> bool {
    transform & 2 != 0
}

/// Where a transform takes cell `i`: the first bit flips rows, the second flips columns.
pub open spec fn turned(i: int, transform: u8) -> int {
    let r = if flips_rows(transform) {
        9 - row(i)
    } else {
        row(i)
    };
    let c = if flips_cols(transform) {
        15 - col(i)
    } else {
        col(i)
    };
    r * 16 + c
}

/// Where a transform takes a cell.
pub fn coordinate(index: usize, transform: u8) -> (r: usize)
    requires
        index < HW,
    ensures
        r == turned(index as int, transform),
        r < HW,
{
    let mut r: usize = index / 16;
    let mut c: usize = index % 16;
    if transform & 1 != 0 {
        r = 9 - r;
    }
    if transform & 2 != 0 {
        c = 15 - c;
    }
    r * 16 + c
}

/// A transform keeps to the board, and twice the same transform changes nothing.
pub proof fn lemma_turn_back(i: int, transform: u8)
    requires
        0 <= i < HW,
    ensures
        0 <= turned(i, transform) < HW,
        turned(turned(i, transform), transform) == i,
{
    let j = turned(i, transform);
    assert(row(j) == (if flips_rows(transform) {
        9 - row(i)
    } else {
        row(i)
    }));
    assert(col(j) == (if flips_cols(transform) {
        15 - col(i)
    } else {
        col(i)
    }));
}

/// No two cells go to the same one.
pub proof fn lemma_turn_distinct(i: int, j: int, transform: u8)
    requires
        0 <= i < HW,
        0 <= j < HW,
        turned(i, transform) == turned(j, transform),
    ensures
        i == j,
{
    lemma_turn_back(i, transform);
    lemma_turn_back(j, transform);
}

/// The identity and the half turn keep playable squares playable; a single flip takes them to
/// the other colour of the checkerboard.
pub proof fn lemma_turn_colour(i: int, transform: u8)
    requires
        0 <= i < HW,
    ensures
        even_square(turned(i, transform)) == (even_square(i) == (flips_rows(transform)
            == flips_cols(transform))),
{
    let j = turned(i, transform);
    assert(row(j) == (if flips_rows(transform) {
        9 - row(i)
    } else {
        row(i)
    }));
    assert(col(j) == (if flips_cols(transform) {
        15 - col(i)
    } else {
        col(i)
    }));
}

/// A value for each square as a board with one entry for each cell, transformed. Cells that no
/// square goes to hold `zero`.
pub fn spread<T: Copy>(values: &[T; SQUARES], zero: T, transform: u8) -> (out: Vec<T>)
    ensures
        out@.len() == HW,
        forall|k: int|
            0 <= k < SQUARES ==> out@[turned(#[trigger] cell_of(k), transform)] == values@[k],
        forall|i: int|
            0 <= i < HW && !even_square(i) ==> out@[#[trigger] turned(i, transform)] == zero,
{
    let mut out: Vec<T> = Vec::new();
    let mut cell: usize = 0;
    while cell < HW
        invariant
            cell <= HW,
            out@.len() == cell,
            forall|c: int|
                0 <= c < cell ==> #[trigger] out@[c] == spread_at(values@, zero, transform, c),
        decreases HW - cell,
    {
        let from: usize = coordinate(cell, transform);
        let value: T = if (from / 16 + from % 16) % 2 == 0 {
            proof {
                lemma_bit_of(from as int);
            }
            values[from / 2]
        } else {
            zero
        };
        out.push(value);
        cell = cell + 1;
    }
    assert forall|k: int| 0 <= k < SQUARES implies out@[turned(#[trigger] cell_of(k), transform)]
        == values@[k] by {
        lemma_cell_of(k);
        lemma_turn_back(cell_of(k), transform);
        let c = turned(cell_of(k), transform);
        assert(out@[c] == spread_at(values@, zero, transform, c));
    }
    assert forall|i: int| 0 <= i < HW && !even_square(i) implies out@[#[trigger] turned(
        i,
        transform,
    )] == zero by {
        lemma_turn_back(i, transform);
        let c = turned(i, transform);
        assert(out@[c] == spread_at(values@, zero, transform, c));
    }
    out
}

/// What ends up in cell `c`.
spec fn spread_at<T>(values: Seq<T>, zero: T, transform: u8, c: int) -> T {
    let from = turned(c, transform);
    if even_square(from) {
        values[from / 2]
    } else {
        zero
    }
}

/// The marks of 80 squares.
pub open spec fn square_marks(squares: Seq<i8>) -> Seq<u8> {
    squares.map_values(|v: i8| mark_of(v))
}

/// The marks of 80 squares.
fn to_marks(squares: &[i8; SQUARES]) -> (m: [u8; SQUARES])
    ensures
        m@ == square_marks(squares@),
        forall|k: int| 0 <= k < SQUARES ==> #[trigger] m@[k] < 4,
{
    let mut m: [u8; SQUARES] = [0u8; SQUARES];
    let mut k: usize = 0;
    while k < SQUARES
        invariant
            k <= SQUARES,
            forall|j: int| 0 <= j < k ==> #[trigger] m@[j] == mark_of(squares@[j]),
        decreases SQUARES - k,
    {
        let v: i8 = squares[k];
        m[k] = if v == crate::board::PLAYABLE_SQUARE {
            0
        } else if v == crate::board::PLAYER_0_MARK {
            1
        } else if v == crate::board::PLAYER_1_MARK {
            2
        } else {
            3
        };
        k = k + 1;
    }
    assert(m@ =~= square_marks(squares@));
    m
}

/// Are the planes from word `at` on those of these squares as `player` sees them, transformed?
pub open spec fn shows_turned(
    boards: Seq<u16>,
    at: int,
    squares: Seq<i8>,
    player: int,
    transform: u8,
) -> bool {
    forall|p: int, i: int|
        #![trigger boards[at + p * 160 + turned(i, transform)]]
        0 <= p < 5 && 0 <= i < HW ==> boards[at + p * 160 + turned(i, transform)] == (
        if plane_set(square_marks(squares), player, p * 160 + i) {
            PLANE_ONE
        } else {
            0
        })
}

/// Encode squares as planes, transformed, from word `at` on.
pub fn encode_turned(
    squares: &[i8; SQUARES],
    player: usize,
    transform: u8,
    boards: &mut Vec<u16>,
    at: usize,
)
    requires
        player < 2,
        at + PLANES <= old(boards)@.len(),
    ensures
        final(boards)@.len() == old(boards)@.len(),
        shows_turned(final(boards)@, at as int, squares@, player as int, transform),
        forall|i: int|
            0 <= i < old(boards)@.len() && !(at <= i < at + PLANES) ==>
                #[trigger] final(boards)@[i] == old(boards)@[i],
{
    let ghost before = boards@;
    let size: usize = boards.len();
    let m: [u8; SQUARES] = to_marks(squares);
    let mut source: Vec<u16> = Vec::new();
    let mut k: usize = 0;
    while k < PLANES
        invariant
            k <= PLANES,
            source@.len() == k,
        decreases PLANES - k,
    {
        source.push(0);
        k = k + 1;
    }
    encode(&m, player, PLANE_ONE, &mut source, 0);
    let mut j: usize = 0;
    while j < PLANES
        invariant
            j <= PLANES,
            source@.len() == PLANES,
            before == old(boards)@,
            size == before.len(),
            boards@.len() == before.len(),
            at + PLANES <= before.len(),
            forall|i: int|
                0 <= i < before.len() && !(at <= i < at + j) ==> #[trigger] boards@[i]
                    == before[i],
            forall|i: int|
                0 <= i < j ==> #[trigger] boards@[at + i] == source@[(i / 160) * 160 + turned(
                    i % 160,
                    transform,
                )],
        decreases PLANES - j,
    {
        let plane: usize = j / 160;
        let from: usize = coordinate(j % 160, transform);
        let word: u16 = source[plane * 160 + from];
        boards.set(at + j, word);
        j = j + 1;
    }
    proof {
        assert forall|p: int, i: int|
            #![trigger boards@[at + p * 160 + turned(i, transform)]]
            0 <= p < 5 && 0 <= i < HW implies boards@[at + p * 160 + turned(i, transform)] == (
        if plane_set(square_marks(squares@), player as int, p * 160 + i) {
            PLANE_ONE
        } else {
            0
        }) by {
            lemma_turn_back(i, transform);
            let t = turned(i, transform);
            let x = p * 160 + t;
            assert(x / 160 == p && x % 160 == t);
            assert(boards@[at + x] == source@[(x / 160) * 160 + turned(x % 160, transform)]);
            assert(source@[0 + (p * 160 + i)] == (if plane_set(
                m@,
                player as int,
                p * 160 + i,
            ) {
                PLANE_ONE
            } else {
                0
            }));
        }
    }
}

// ------------------------------------------------------------------------------- trainer

/// A search, and the records it has emitted since the last network update. The counters wrap
/// around.
pub struct Trainer<V: Variant> {
    pub search: Search<V>,
    pub records: Vec<StepRecord<V::Target>>,
    pub model_calls: usize,
    pub evaluated: usize,
    pub finished_games: usize,
}

/// The rows of the model's input for position `r` of the buffer: one as each player sees it,
/// the second player's after all of the first player's.
pub open spec fn input_row<V: Variant>(s: Search<V>, boards: Seq<u16>, r: int) -> bool {
    &&& shows_turned(boards, r * 800, s.buffer.positions@[r]@, 0, 0)
    &&& shows_turned(boards, (s.cfg.b + r) * 800, s.buffer.positions@[r]@, 1, 0)
}

impl<V: Variant> Trainer<V> {
    pub open spec fn wf(&self) -> bool {
        &&& self.search.wf()
        &&& self.search.cfg.trainable_spec()
        &&& self.search.completed@.len() == 0
    }

    pub fn new(cfg: Config, params: V::Params, seed: u64) -> (t: Self)
        requires
            cfg.trainable_spec(),
            fits(cfg.node_capacity),
        ensures
            t.wf(),
            t.search.settled(),
            t.search.cfg == cfg,
            t.search.params == params,
            forall|i: int| 0 <= i < cfg.g ==> fresh(#[trigger] t.search.slots@[i]),
            exists|rngs: Seq<Rng>| #[trigger]
                slots_seeded::<V>(t.search.slots@, all_true(cfg.g as nat), params, rngs)
                    && rngs[0].state() == seeded(seed) && rngs.last() == t.search.rng,
            t.search.arena.live == 0,
            t.search.arena.nodes@.len() == 0,
            t.search.arena.capacity == cfg.node_capacity,
            t.search.arena.overflows == 0,
            t.search.diag.blank(),
            t.records@.len() == 0,
            t.model_calls == 0,
            t.evaluated == 0,
            t.finished_games == 0,
    {
        Trainer {
            search: Search::new(cfg, params, seed),
            records: Vec::new(),
            model_calls: 0,
            evaluated: 0,
            finished_games: 0,
        }
    }

    /// Collect the positions of one model call, and encode them as its input. Returns the
    /// input, with empty rows for the shortfall, and how many positions it holds.
    pub fn inputs(&mut self) -> (r: (Vec<u16>, usize))
        requires
            old(self).wf(),
            old(self).search.settled(),
            old(self).search.cfg.b * 1600 <= usize::MAX,
        ensures
            final(self).wf(),
            final(self).search.asking(),
            final(self).search.same_games(&old(self).search),
            exists|end: int| #[trigger] collected(old(self).search, final(self).search, end),
            r.1 == final(self).search.buffer.targets@.len(),
            r.0@.len() == final(self).search.cfg.b * 1600,
            forall|k: int| 0 <= k < r.1 ==> #[trigger] input_row(final(self).search, r.0@, k),
            forall|k: int| r.1 * 800 <= k < final(self).search.cfg.b * 800 ==> #[trigger] r.0@[k] == 0,
            forall|k: int|
                (final(self).search.cfg.b + r.1) * 800 <= k < r.0@.len() ==> #[trigger] r.0@[k] == 0,
            final(self).records == old(self).records,
            final(self).model_calls == old(self).model_calls.wrapping_add(1),
            final(self).evaluated == old(self).evaluated.wrapping_add(r.1),
            final(self).finished_games == old(self).finished_games,
    {
        let len: usize = self.search.prepare_evaluation();
        let b: usize = self.search.cfg.b;
        let mut boards: Vec<u16> = Vec::new();
        let mut k: usize = 0;
        while k < b * 1600
            invariant
                k <= b * 1600,
                b * 1600 <= usize::MAX,
                boards@.len() == k,
                forall|j: int| 0 <= j < k ==> #[trigger] boards@[j] == 0,
            decreases b * 1600 - k,
        {
            boards.push(0);
            k = k + 1;
        }
        let ghost search = self.search;
        let mut row: usize = 0;
        while row < len
            invariant
                row <= len <= b,
                b * 1600 <= usize::MAX,
                self.search == search,
                search.cfg.b == b,
                search.buffer.positions@.len() == b,
                boards@.len() == b * 1600,
                forall|q: int| 0 <= q < row ==> #[trigger] input_row(search, boards@, q),
                forall|j: int| row * 800 <= j < b * 800 ==> #[trigger] boards@[j] == 0,
                forall|j: int| (b + row) * 800 <= j < b * 1600 ==> #[trigger] boards@[j] == 0,
            decreases len - row,
        {
            let ghost b0 = boards@;
            let squares = self.search.buffer.positions[row];
            encode_turned(&squares, 0, 0, &mut boards, row * 800);
            let ghost b1 = boards@;
            encode_turned(&squares, 1, 0, &mut boards, (b + row) * 800);
            proof {
                lemma_turned_same(b1, boards@, row * 800, squares@, 0, 0);
                assert forall|q: int| 0 <= q < row + 1 implies #[trigger] input_row(
                    search,
                    boards@,
                    q,
                ) by {
                    if q < row {
                        assert(input_row(search, b0, q));
                        let s = search.buffer.positions@[q]@;
                        lemma_turned_same(b0, boards@, q * 800, s, 0, 0);
                        lemma_turned_same(b0, boards@, (b + q) * 800, s, 1, 0);
                    }
                }
            }
            row = row + 1;
        }
        self.model_calls = self.model_calls.wrapping_add(1);
        self.evaluated = self.evaluated.wrapping_add(len);
        (boards, len)
    }

    /// Take the model's readings, and keep the records of the step, if one happened. Returns
    /// how many there were.
    pub fn advance(&mut self, readings: &Vec<V::Reading>) -> (count: usize)
        requires
            old(self).wf(),
            old(self).search.asking(),
            readings@.len() >= old(self).search.buffer.targets@.len(),
        ensures
            final(self).wf(),
            final(self).search.settled(),
            final(self).search.completed@.len() == 0,
            exists|mid: Search<V>, s: Search<V>| #[trigger]
                completes(
                    old(self).search,
                    readings@,
                    mid,
                    s,
                    final(self).records@.skip(old(self).records@.len() as int),
                ) && final(self).search == (Search {
                    completed: final(self).search.completed,
                    ..s
                }) && final(self).finished_games == old(self).finished_games.wrapping_add(
                    s.completed@.len() as usize,
                ),
            final(self).records@.len() == old(self).records@.len() + count,
            final(self).records@.take(old(self).records@.len() as int) == old(self).records@,
            final(self).model_calls == old(self).model_calls,
            final(self).evaluated == old(self).evaluated,
    {
        let ghost s0 = self.search;
        let ghost r0 = self.records@;
        let mut emitted = self.search.complete_evaluation(readings);
        let ghost s1 = self.search;
        let ghost out = emitted@;
        proof {
            let mid = choose|mid: Search<V>| #[trigger] completes(s0, readings@, mid, s1, out);
            assert(completes(s0, readings@, mid, s1, out));
            assert(s1.cfg == s0.cfg);
        }
        let count: usize = emitted.len();
        self.records.append(&mut emitted);
        let done = self.search.take_completed_histories();
        self.finished_games = self.finished_games.wrapping_add(done.len());
        proof {
            assert(self.records@.skip(r0.len() as int) =~= out);
            assert(self.records@.take(r0.len() as int) =~= r0);
        }
        count
    }

    /// The planes of a training batch: two rows for each record named, one as each player sees
    /// it, transformed.
    pub fn batch(&self, ids: &Vec<u32>, transforms: &Vec<u8>) -> (boards: Vec<u16>)
        requires
            transforms@.len() == ids@.len(),
            ids@.len() * 1600 <= usize::MAX,
            forall|i: int| 0 <= i < ids@.len() ==> (#[trigger] ids@[i]) < self.records@.len(),
            forall|i: int| 0 <= i < transforms@.len() ==> (#[trigger] transforms@[i]) < 4,
        ensures
            boards@.len() == ids@.len() * 1600,
            forall|i: int| 0 <= i < ids@.len() ==> batch_row(
                boards@,
                i,
                self.records@[(#[trigger] ids@[i]) as int].cells@,
                transforms@[i],
            ),
    {
        let n: usize = ids.len();
        let mut boards: Vec<u16> = Vec::new();
        let mut k: usize = 0;
        while k < n * 1600
            invariant
                k <= n * 1600,
                n * 1600 <= usize::MAX,
                boards@.len() == k,
            decreases n * 1600 - k,
        {
            boards.push(0);
            k = k + 1;
        }
        let mut i: usize = 0;
        while i < n
            invariant
                i <= n,
                n == ids@.len(),
                transforms@.len() == n,
                n * 1600 <= usize::MAX,
                boards@.len() == n * 1600,
                forall|j: int| 0 <= j < n ==> (#[trigger] ids@[j]) < self.records@.len(),
                forall|j: int| 0 <= j < i ==> batch_row(
                    boards@,
                    j,
                    self.records@[(#[trigger] ids@[j]) as int].cells@,
                    transforms@[j],
                ),
            decreases n - i,
        {
            let ghost b0 = boards@;
            let cells = self.records[ids[i] as usize].cells;
            encode_turned(&cells, 0, transforms[i], &mut boards, i * 1600);
            let ghost b1 = boards@;
            encode_turned(&cells, 1, transforms[i], &mut boards, i * 1600 + 800);
            proof {
                lemma_turned_same(b1, boards@, i * 1600, cells@, 0, transforms@[i as int]);
                assert forall|j: int| 0 <= j < i + 1 implies batch_row(
                    boards@,
                    j,
                    self.records@[(#[trigger] ids@[j]) as int].cells@,
                    transforms@[j],
                ) by {
                    if j < i {
                        let c = self.records@[ids@[j] as int].cells@;
                        assert(batch_row(b0, j, c, transforms@[j]));
                        lemma_turned_same(b0, boards@, j * 1600, c, 0, transforms@[j]);
                        lemma_turned_same(b0, boards@, j * 1600 + 800, c, 1, transforms@[j]);
                    }
                }
            }
            i = i + 1;
        }
        boards
    }

    /// Start over with a new network: forget nodes, root statistics, records and counters, and
    /// keep the games.
    pub fn network_update(&mut self)
        requires
            old(self).wf(),
        ensures
            final(self).wf(),
            final(self).search.settled(),
            final(self).search.same_games(&old(self).search),
            final(self).search.rng == old(self).search.rng,
            final(self).search.diag == old(self).search.diag,
            final(self).search.arena.live == 0,
            final(self).search.arena.nodes@.len() == 0,
            final(self).search.arena.capacity == old(self).search.arena.capacity,
            final(self).search.arena.overflows == old(self).search.arena.overflows,
            claims_reach(final(self).search.slots@, final(self).search.arena),
            final(self).search.buffer.targets@.len() == 0,
            forall|j: int|
                0 <= j < old(self).search.slots@.len() ==> flushed(
                    old(self).search.slots@[j],
                    #[trigger] final(self).search.slots@[j],
                ),
            final(self).records@.len() == 0,
            final(self).model_calls == 0,
            final(self).evaluated == 0,
            final(self).finished_games == 0,
    {
        self.search.clear_for_new_model();
        self.records.clear();
        self.model_calls = 0;
        self.evaluated = 0;
        self.finished_games = 0;
    }
}

/// The two rows of position `i` of a training batch.
pub open spec fn batch_row(boards: Seq<u16>, i: int, squares: Seq<i8>, transform: u8) -> bool {
    &&& shows_turned(boards, i * 1600, squares, 0, transform)
    &&& shows_turned(boards, i * 1600 + 800, squares, 1, transform)
}

/// Planes that are the same show the same.
proof fn lemma_turned_same(
    a: Seq<u16>,
    b: Seq<u16>,
    at: int,
    squares: Seq<i8>,
    player: int,
    transform: u8,
)
    requires
        shows_turned(a, at, squares, player, transform),
        forall|k: int| at <= k < at + PLANES ==> #[trigger] b[k] == a[k],
    ensures
        shows_turned(b, at, squares, player, transform),
{
    assert forall|p: int, i: int|
        #![trigger b[at + p * 160 + turned(i, transform)]]
        0 <= p < 5 && 0 <= i < HW implies b[at + p * 160 + turned(i, transform)] == (
    if plane_set(square_marks(squares), player, p * 160 + i) {
        PLANE_ONE
    } else {
        0
    }) by {
        lemma_turn_back(i, transform);
        let k = at + p * 160 + turned(i, transform);
        assert(b[k] == a[k]);
        assert(a[at + p * 160 + turned(i, transform)] == a[k]);
    }
}

} // verus!
