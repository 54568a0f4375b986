//! Move files, which are recorded games to be replayed, and state files, which are dumps of
//! everything that can be seen of games.
//!
//! A move file is little-endian: the magic `ALMV`, then version, number of games, height,
//! width and number of steps as `u32`s, then for each step and game the two players' moves as
//! `i32`s, each a flat board index.
use vstd::prelude::*;

use crate::board::{even_square, HW, SQUARES};
use crate::game::Game;
use crate::legal::{cell_of, holds, legal_cell, lemma_bit_of, lemma_cell_of, test_bit, LEGAL_WORDS};
use crate::moves::moved;
use crate::scratch::Scratch;

verus! {

/// Bytes of a move file before the moves.
pub const HEADER: usize = 24;

/// The version of the format.
pub const VERSION: u32 = 1;

/// Recorded moves of a batch of games.
#[derive(Debug)]
pub struct Moves {
    /// Games in the batch.
    pub n: usize,
    pub n_steps: usize,
    /// The moves, by step, game and player.
    pub data: Vec<i32>,
}

/// What is wrong with a move file.
#[derive(Clone, Copy, PartialEq, Eq, Debug, Structural)]
pub enum MovesError {
    /// Shorter than its header.
    Short,
    Magic,
    Version,
    /// Of another board.
    Geometry,
    /// Longer or shorter than the moves its header announces.
    Length,
}

/// The little-endian number in four bytes.
pub open spec fn le(b: Seq<u8>, at: int) -> int {
    b[at] + 0x100 * b[at + 1] + 0x1_0000 * b[at + 2] + 0x100_0000 * b[at + 3]
}

/// The number that 32 bits stand for as a signed one.
pub open spec fn signed(v: int) -> int {
    if v < 0x8000_0000 {
        v
    } else {
        v - 0x1_0000_0000
    }
}

fn u32_at(b: &Vec<u8>, at: usize) -> (v: u32)
    requires
        at + 4 <= b@.len(),
    ensures
        v == le(b@, at as int),
{
    let size: usize = b.len();
    assert(at + 3 < size);
    b[at] as u32 + 0x100 * (b[at + 1] as u32) + 0x1_0000 * (b[at + 2] as u32) + 0x100_0000 * (b[at
        + 3] as u32)
}

fn i32_at(b: &Vec<u8>, at: usize) -> (v: i32)
    requires
        at + 4 <= b@.len(),
    ensures
        v == signed(le(b@, at as int)),
{
    let v: u32 = u32_at(b, at);
    if v < 0x8000_0000 {
        v as i32
    } else {
        -((0xFFFF_FFFF - v) as i32) - 1
    }
}

/// Does the file begin with `ALMV`?
pub open spec fn has_magic(b: Seq<u8>) -> bool {
    b[0] == 0x41 && b[1] == 0x4C && b[2] == 0x4D && b[3] == 0x56
}

/// What is wrong with a move file, if anything is.
pub open spec fn fault(b: Seq<u8>) -> Option<MovesError> {
    if b.len() < HEADER {
        Some(MovesError::Short)
    } else if !has_magic(b) {
        Some(MovesError::Magic)
    } else if le(b, 4) != VERSION {
        Some(MovesError::Version)
    } else if le(b, 12) != 10 || le(b, 16) != 16 {
        Some(MovesError::Geometry)
    } else if b.len() - HEADER != le(b, 20) * le(b, 8) * 8 {
        Some(MovesError::Length)
    } else {
        None
    }
}

/// Read a move file.
pub fn read_moves(bytes: &Vec<u8>) -> (r: Result<Moves, MovesError>)
    ensures
        r matches Err(e) ==> fault(bytes@) == Some(e),
        r matches Ok(m) ==> {
            &&& fault(bytes@) is None
            &&& m.n == le(bytes@, 8)
            &&& m.n_steps == le(bytes@, 20)
            &&& m.data@.len() == m.n_steps * m.n * 2
            &&& forall|i: int|
                0 <= i < m.data@.len() ==> #[trigger] m.data@[i] == signed(
                    le(bytes@, HEADER + 4 * i),
                )
        },
{
    let size: usize = bytes.len();
    if size < HEADER {
        return Err(MovesError::Short);
    }
    if !(bytes[0] == 0x41 && bytes[1] == 0x4C && bytes[2] == 0x4D && bytes[3] == 0x56) {
        return Err(MovesError::Magic);
    }
    if u32_at(bytes, 4) != VERSION {
        return Err(MovesError::Version);
    }
    let n: u32 = u32_at(bytes, 8);
    if u32_at(bytes, 12) != 10 || u32_at(bytes, 16) != 16 {
        return Err(MovesError::Geometry);
    }
    let n_steps: u32 = u32_at(bytes, 20);
    assert(0 <= n_steps * n <= 0xFFFF_FFFF * 0xFFFF_FFFF) by (nonlinear_arith)
        requires
            0 <= n_steps <= 0xFFFF_FFFF,
            0 <= n <= 0xFFFF_FFFF,
    ;
    let body: u128 = (n_steps as u128) * (n as u128) * 8;
    if (size - HEADER) as u128 != body {
        return Err(MovesError::Length);
    }
    let count: usize = (size - HEADER) / 4;
    assert(count == n_steps * n * 2);
    let mut data: Vec<i32> = Vec::new();
    let mut i: usize = 0;
    while i < count
        invariant
            i <= count,
            size == bytes@.len(),
            HEADER + 4 * count <= size,
            data@.len() == i,
            forall|j: int|
                0 <= j < i ==> #[trigger] data@[j] == signed(le(bytes@, HEADER + 4 * j)),
        decreases count - i,
    {
        data.push(i32_at(bytes, HEADER + 4 * i));
        i = i + 1;
    }
    Ok(Moves { n: n as usize, n_steps: n_steps as usize, data })
}

/// The square that a board index names, if it names one.
pub fn square_index(board: i32) -> (r: Option<usize>)
    ensures
        r is Some <==> 0 <= board < HW && even_square(board as int),
        r matches Some(k) ==> k < SQUARES && cell_of(k as int) == board,
{
    if board < 0 || board >= 160 {
        return None;
    }
    let i: usize = board as usize;
    if (i / 16 + i % 16) % 2 != 0 {
        return None;
    }
    proof {
        lemma_bit_of(i as int);
    }
    Some(i / 2)
}

/// The square a move file's board index names, if the mask holds it. Needed to police a file
/// somebody else produced.
pub fn legal_square(mask: [u64; LEGAL_WORDS], board: i32) -> (r: Option<usize>)
    ensures
        r is Some <==> 0 <= board < HW && even_square(board as int) && holds(
            mask@,
            board as int / 2,
        ),
        r matches Some(k) ==> k < SQUARES && cell_of(k as int) == board,
{
    match square_index(board) {
        None => None,
        Some(k) => {
            proof {
                lemma_cell_of(k as int);
                lemma_bit_of(board as int);
            }
            if test_bit(mask, k) {
                Some(k)
            } else {
                None
            }
        },
    }
}

/// A move of the file that is not legal.
#[derive(Clone, Copy, PartialEq, Eq, Debug, Structural)]
pub struct IllegalMove {
    pub game: usize,
    pub player: usize,
    pub board: i32,
}

/// The board index that the file has for a player at a step.
pub open spec fn move_at(m: Moves, step: int, game: int, player: int) -> int {
    m.data@[step * m.n * 2 + game * 2 + player] as int
}

/// Is there a legal move in the file for a game that is not finished?
pub open spec fn playable_at(m: Moves, step: int, game: int, g: Game) -> bool {
    g.finished || (g.may_play(move_at(m, step, game, 0), 0) && g.may_play(
        move_at(m, step, game, 1),
        1,
    ))
}

/// A game after a step of the file: one that is not finished has made the file's move.
pub open spec fn replayed(m: Moves, step: int, game: int, before: Game, after: Game) -> bool {
    if before.finished {
        after == before
    } else {
        &&& after.wf()
        &&& after.cells@ == moved(
            before.cells@,
            move_at(m, step, game, 0),
            move_at(m, step, game, 1),
        )
        &&& after.move_count == before.move_count + 1
    }
}

/// Where a step begins among the moves.
proof fn lemma_move_index(m: Moves, step: int, game: int, player: int)
    requires
        0 <= step < m.n_steps,
        0 <= game < m.n,
        0 <= player < 2,
        m.data@.len() == m.n_steps * m.n * 2,
    ensures
        0 <= step * m.n * 2 + game * 2 + player < m.data@.len(),
{
    assert(step * m.n * 2 + m.n * 2 <= m.n_steps * m.n * 2) by (nonlinear_arith)
        requires
            step + 1 <= m.n_steps,
            0 <= m.n,
    ;
    assert(0 <= step * m.n) by (nonlinear_arith)
        requires
            0 <= step,
            0 <= m.n,
    ;
}

impl Moves {
    pub open spec fn wf(&self) -> bool {
        self.data@.len() == self.n_steps * self.n * 2
    }

    /// Play one step of the file in every game that is not finished. The moves are checked:
    /// the first that is not legal, by game and then by player, ends the replay, and the games
    /// before it have moved.
    pub fn replay_step(&self, step: usize, games: &mut Vec<Game>, scratch: &mut Scratch) -> (r:
        Result<(), IllegalMove>)
        requires
            self.wf(),
            step < self.n_steps,
            old(games)@.len() == self.n,
            forall|i: int|
                0 <= i < self.n ==> (#[trigger] old(games)@[i]).wf() && old(games)@[i].move_count
                    < u32::MAX,
            old(scratch).wf(),
        ensures
            final(games)@.len() == self.n,
            final(scratch).wf(),
            r is Ok <==> forall|i: int|
                0 <= i < self.n ==> playable_at(
                    *self,
                    step as int,
                    i,
                    #[trigger] old(games)@[i],
                ),
            r is Ok ==> forall|i: int|
                0 <= i < self.n ==> replayed(
                    *self,
                    step as int,
                    i,
                    old(games)@[i],
                    #[trigger] final(games)@[i],
                ),
            r matches Err(e) ==> {
                &&& e.game < self.n
                &&& e.player < 2
                &&& e.board == move_at(*self, step as int, e.game as int, e.player as int)
                &&& !old(games)@[e.game as int].finished
                &&& !old(games)@[e.game as int].may_play(e.board as int, e.player as int)
                &&& e.player == 1 ==> old(games)@[e.game as int].may_play(
                    move_at(*self, step as int, e.game as int, 0),
                    0,
                )
                &&& forall|i: int|
                    0 <= i < e.game ==> replayed(
                        *self,
                        step as int,
                        i,
                        old(games)@[i],
                        #[trigger] final(games)@[i],
                    ) && playable_at(*self, step as int, i, old(games)@[i])
                &&& forall|i: int|
                    e.game <= i < self.n ==> #[trigger] final(games)@[i] == old(games)@[i]
            },
    {
        let ghost g0 = games@;
        let n: usize = self.n;
        let mut i: usize = 0;
        while i < n
            invariant
                i <= n,
                n == self.n,
                self.wf(),
                step < self.n_steps,
                g0 == old(games)@,
                g0.len() == n,
                games@.len() == n,
                forall|j: int|
                    0 <= j < n ==> (#[trigger] g0[j]).wf() && g0[j].move_count < u32::MAX,
                forall|j: int|
                    0 <= j < i ==> replayed(*self, step as int, j, g0[j], #[trigger] games@[j])
                        && playable_at(*self, step as int, j, g0[j]),
                forall|j: int| i <= j < n ==> #[trigger] games@[j] == g0[j],
                scratch.wf(),
            decreases n - i,
        {
            let ghost g1 = games@;
            assert(games@[i as int] == g0[i as int]);
            if !games[i].finished {
                proof {
                    lemma_move_index(*self, step as int, i as int, 0);
                    lemma_move_index(*self, step as int, i as int, 1);
                    assert(0 <= step * n) by (nonlinear_arith)
                        requires
                            0 <= step,
                            0 <= n,
                    ;
                }
                let size: usize = self.data.len();
                let at: usize = step * n * 2 + i * 2;
                let first: i32 = self.data[at];
                let second: i32 = self.data[at + 1];
                let w0: [u64; LEGAL_WORDS] = games[i].legal_moves(0);
                let w1: [u64; LEGAL_WORDS] = games[i].legal_moves(1);
                let k0: usize = match legal_square(w0, first) {
                    Some(k) => k,
                    None => {
                        proof {
                            lemma_named(g0[i as int], w0@, first as int, 0);
                            assert(!playable_at(*self, step as int, i as int, g0[i as int]));
                        }
                        return Err(IllegalMove { game: i, player: 0, board: first });
                    },
                };
                proof {
                    lemma_named(g0[i as int], w0@, first as int, 0);
                }
                let k1: usize = match legal_square(w1, second) {
                    Some(k) => k,
                    None => {
                        proof {
                            lemma_named(g0[i as int], w1@, second as int, 1);
                            assert(!playable_at(*self, step as int, i as int, g0[i as int]));
                        }
                        return Err(IllegalMove { game: i, player: 1, board: second });
                    },
                };
                proof {
                    lemma_named(g0[i as int], w1@, second as int, 1);
                }
                games[i].action_step(legal_cell(k0), legal_cell(k1), scratch);
            }
            proof {
                assert forall|j: int| 0 <= j < i + 1 implies replayed(
                    *self,
                    step as int,
                    j,
                    g0[j],
                    #[trigger] games@[j],
                ) && playable_at(*self, step as int, j, g0[j]) by {
                    if j < i {
                        assert(games@[j] == g1[j]);
                    }
                }
            }
            i = i + 1;
        }
        assert forall|j: int| 0 <= j < n implies playable_at(
            *self,
            step as int,
            j,
            #[trigger] g0[j],
        ) by {
            assert(replayed(*self, step as int, j, g0[j], games@[j]));
        }
        Ok(())
    }
}

/// A board index is legal exactly if it names a square that the mask holds.
proof fn lemma_named(g: Game, w: Seq<u64>, board: int, player: int)
    requires
        g.wf(),
        forall|k: int|
            0 <= k < 128 ==> (#[trigger] holds(w, k) <==> k < SQUARES && g.may_play(
                cell_of(k),
                player,
            )),
    ensures
        g.may_play(board, player) <==> 0 <= board < HW && even_square(board) && holds(
            w,
            board / 2,
        ),
{
    if 0 <= board < HW && even_square(board) {
        lemma_bit_of(board);
        assert(cell_of(board / 2) == board);
    }
}

// ------------------------------------------------------------------------------ state files

/// Append a number as four little-endian bytes.
fn push_le(out: &mut Vec<u8>, v: u32)
    ensures
        final(out)@.len() == old(out)@.len() + 4,
        forall|k: int| 0 <= k < old(out)@.len() ==> #[trigger] final(out)@[k] == old(out)@[k],
        le(final(out)@, old(out)@.len() as int) == v,
{
    out.push((v % 0x100) as u8);
    out.push((v / 0x100 % 0x100) as u8);
    out.push((v / 0x1_0000 % 0x100) as u8);
    out.push((v / 0x100_0000) as u8);
}

/// Does the file begin with `ALST`?
pub open spec fn has_state_magic(b: Seq<u8>) -> bool {
    b[0] == 0x41 && b[1] == 0x4C && b[2] == 0x53 && b[3] == 0x54
}

/// The header of a state file: the magic, the version, the games of a record, the board's
/// height and width, and the number of records.
pub fn state_header(games: u32, records: u32) -> (b: Vec<u8>)
    ensures
        b@.len() == HEADER,
        has_state_magic(b@),
        le(b@, 4) == VERSION,
        le(b@, 8) == games,
        le(b@, 12) == 10,
        le(b@, 16) == 16,
        le(b@, 20) == records,
{
    let mut b: Vec<u8> = Vec::new();
    b.push(0x41);
    b.push(0x4C);
    b.push(0x53);
    b.push(0x54);
    push_le(&mut b, VERSION);
    push_le(&mut b, games);
    push_le(&mut b, 10);
    push_le(&mut b, 16);
    push_le(&mut b, records);
    b
}

/// Everything that can be seen of a batch of games: boards, scores, move counts, whether they
/// are finished, and for each player the legal squares and their number.
pub struct StateRecord {
    /// One entry for each cell of each game.
    pub boards: Vec<i8>,
    /// Two entries for each game.
    pub scores: Vec<i32>,
    pub move_counts: Vec<u32>,
    pub finished: Vec<bool>,
    /// One entry for each cell of each game.
    pub mask_0: Vec<bool>,
    pub mask_1: Vec<bool>,
    pub count_0: Vec<u32>,
    pub count_1: Vec<u32>,
}

/// One player's mask over all cells of a batch: which squares the player may play.
pub open spec fn mask_shows(games: Seq<Game>, player: int, mask: Seq<bool>) -> bool {
    forall|k: int| 0 <= k < mask.len() ==> #[trigger] mask[k] == games[k / 160].may_play(k % 160, player)
}

/// One player's mask over all cells of a batch.
fn dense_mask(games: &Vec<Game>, player: usize) -> (mask: Vec<bool>)
    requires
        forall|g: int| 0 <= g < games@.len() ==> (#[trigger] games@[g]).wf(),
    ensures
        mask@.len() == games@.len() * 160,
        mask_shows(games@, player as int, mask@),
{
    let mut mask: Vec<bool> = Vec::new();
    let mut g: usize = 0;
    while g < games.len()
        invariant
            g <= games@.len(),
            forall|h: int| 0 <= h < games@.len() ==> (#[trigger] games@[h]).wf(),
            mask@.len() == g * 160,
            mask_shows(games@, player as int, mask@),
        decreases games@.len() - g,
    {
        let mut i: usize = 0;
        while i < HW
            invariant
                i <= HW,
                g < games@.len(),
                games@[g as int].wf(),
                mask@.len() == g * 160 + i,
                mask_shows(games@, player as int, mask@),
            decreases HW - i,
        {
            let ghost at = mask@.len() as int;
            assert(at / 160 == g && at % 160 == i);
            let bit: bool = games[g].holds_bit(i, player);
            mask.push(bit);
            i = i + 1;
        }
        g = g + 1;
    }
    mask
}

/// How many squares a player may play in each game of a batch.
fn dense_counts(games: &Vec<Game>, player: usize) -> (counts: Vec<u32>)
    requires
        forall|g: int| 0 <= g < games@.len() ==> (#[trigger] games@[g]).wf(),
    ensures
        counts@.len() == games@.len(),
        forall|g: int|
            0 <= g < games@.len() ==> #[trigger] counts@[g] == games@[g].moves_open(player as int),
{
    let mut counts: Vec<u32> = Vec::new();
    let mut g: usize = 0;
    while g < games.len()
        invariant
            g <= games@.len(),
            forall|h: int| 0 <= h < games@.len() ==> (#[trigger] games@[h]).wf(),
            counts@.len() == g,
            forall|h: int|
                0 <= h < g ==> #[trigger] counts@[h] == games@[h].moves_open(player as int),
        decreases games@.len() - g,
    {
        let n: u32 = games[g].legal_count(player);
        counts.push(n);
        g = g + 1;
    }
    counts
}

/// Expand the games' masks into dense board-shaped ones, with the number of squares of each.
pub fn dense_masks(games: &Vec<Game>) -> (r: (Vec<bool>, Vec<bool>, Vec<u32>, Vec<u32>))
    requires
        forall|g: int| 0 <= g < games@.len() ==> (#[trigger] games@[g]).wf(),
    ensures
        r.0@.len() == games@.len() * 160,
        r.1@.len() == games@.len() * 160,
        mask_shows(games@, 0, r.0@),
        mask_shows(games@, 1, r.1@),
        r.2@.len() == games@.len(),
        r.3@.len() == games@.len(),
        forall|g: int| 0 <= g < games@.len() ==> #[trigger] r.2@[g] == games@[g].moves_open(0),
        forall|g: int| 0 <= g < games@.len() ==> #[trigger] r.3@[g] == games@[g].moves_open(1),
{
    (dense_mask(games, 0), dense_mask(games, 1), dense_counts(games, 0), dense_counts(games, 1))
}

/// The boards of a batch, one after the other.
fn all_boards(games: &Vec<Game>) -> (boards: Vec<i8>)
    ensures
        boards@.len() == games@.len() * 160,
        forall|k: int|
            0 <= k < boards@.len() ==> #[trigger] boards@[k] == games@[k / 160].cells@[k % 160],
{
    let mut boards: Vec<i8> = Vec::new();
    let mut g: usize = 0;
    while g < games.len()
        invariant
            g <= games@.len(),
            boards@.len() == g * 160,
            forall|k: int|
                0 <= k < boards@.len() ==> #[trigger] boards@[k] == games@[k / 160].cells@[k % 160],
        decreases games@.len() - g,
    {
        let mut i: usize = 0;
        while i < HW
            invariant
                i <= HW,
                g < games@.len(),
                boards@.len() == g * 160 + i,
                forall|k: int|
                    0 <= k < boards@.len() ==> #[trigger] boards@[k] == games@[k / 160].cells@[k
                        % 160],
            decreases HW - i,
        {
            let ghost at = boards@.len() as int;
            assert(at / 160 == g && at % 160 == i);
            boards.push(games[g].cells[i]);
            i = i + 1;
        }
        g = g + 1;
    }
    boards
}

impl StateRecord {
    /// The record shows these games.
    pub open spec fn shows(&self, games: Seq<Game>) -> bool {
        &&& self.boards@.len() == games.len() * 160
        &&& forall|k: int|
            0 <= k < self.boards@.len() ==> #[trigger] self.boards@[k] == games[k / 160].cells@[k
                % 160]
        &&& self.scores@.len() == games.len() * 2
        &&& forall|k: int|
            0 <= k < self.scores@.len() ==> #[trigger] self.scores@[k] == games[k / 2].scores@[k % 2]
        &&& self.move_counts@.len() == games.len()
        &&& forall|g: int|
            0 <= g < games.len() ==> #[trigger] self.move_counts@[g] == games[g].move_count
        &&& self.finished@.len() == games.len()
        &&& forall|g: int| 0 <= g < games.len() ==> #[trigger] self.finished@[g] == games[g].finished
        &&& self.mask_0@.len() == games.len() * 160
        &&& mask_shows(games, 0, self.mask_0@)
        &&& self.mask_1@.len() == games.len() * 160
        &&& mask_shows(games, 1, self.mask_1@)
        &&& self.count_0@.len() == games.len()
        &&& forall|g: int|
            0 <= g < games.len() ==> #[trigger] self.count_0@[g] == games[g].moves_open(0)
        &&& self.count_1@.len() == games.len()
        &&& forall|g: int|
            0 <= g < games.len() ==> #[trigger] self.count_1@[g] == games[g].moves_open(1)
    }

    /// Everything that can be seen of the games.
    pub fn of(games: &Vec<Game>) -> (r: Self)
        requires
            forall|g: int| 0 <= g < games@.len() ==> (#[trigger] games@[g]).wf(),
        ensures
            r.shows(games@),
    {
        let mut scores: Vec<i32> = Vec::new();
        let mut move_counts: Vec<u32> = Vec::new();
        let mut finished: Vec<bool> = Vec::new();
        let mut g: usize = 0;
        while g < games.len()
            invariant
                g <= games@.len(),
                scores@.len() == g * 2,
                forall|k: int|
                    0 <= k < scores@.len() ==> #[trigger] scores@[k] == games@[k / 2].scores@[k % 2],
                move_counts@.len() == g,
                forall|h: int|
                    0 <= h < g ==> #[trigger] move_counts@[h] == games@[h].move_count,
                finished@.len() == g,
                forall|h: int| 0 <= h < g ==> #[trigger] finished@[h] == games@[h].finished,
            decreases games@.len() - g,
        {
            let ghost at = scores@.len() as int;
            assert(at / 2 == g && at % 2 == 0 && (at + 1) / 2 == g && (at + 1) % 2 == 1);
            scores.push(games[g].scores[0]);
            scores.push(games[g].scores[1]);
            move_counts.push(games[g].move_count);
            finished.push(games[g].finished);
            g = g + 1;
        }
        let boards = all_boards(games);
        let (mask_0, mask_1, count_0, count_1) = dense_masks(games);
        StateRecord { boards, scores, move_counts, finished, mask_0, mask_1, count_0, count_1 }
    }
}

} // verus!
