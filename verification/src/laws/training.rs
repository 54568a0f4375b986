//! What a model reads and is trained on.
use vstd::prelude::*;

use crate::board::{HW, PLAYABLE_SQUARE, PLAYER_0_MARK, PLAYER_1_MARK, SQUARES};
use crate::game::Game;
use crate::klent::{
    batch_rows, encode, finish, finished_into, input_rows, lemma_unpack_pack, mark_of, marks,
    marks_of, pack, plane_set, policy_row, return_at, returns_of, row_empty, row_shows, stored_as,
    stored_from, unpack, unpacked, Arena, Batch, Inputs, Record, Rule, PLANE_ONE,
};
use crate::legal::{cell_of, lemma_bit_of, lemma_cell_of};
use crate::mcts::train::{
    batch_row, coordinate, input_row, shows_turned, spread, square_marks, turned, Trainer,
};
use crate::mcts::variant::Variant;

verus! {

// ------------------------------------------------------------------------------- symmetries

/// The lowest two bits of a byte, as digits.
proof fn lemma_low_bits(t: u8)
    ensures
        t & 1 != 0 <==> t % 2 == 1,
        t & 2 != 0 <==> (t / 2) % 2 == 1,
{
    assert((t & 1 != 0) == (t % 2 == 1)) by (bit_vector);
    assert((t & 2 != 0) == ((t / 2) % 2 == 1)) by (bit_vector);
}

/// An odd transform turns the board upside down, and one with its second bit set mirrors it
/// from left to right: row `r`, column `c` goes to row `9 - r` or to column `15 - c`.
pub proof fn lemma_turns(r: int, c: int, transform: u8, to: usize)
    requires
        0 <= r < 10,
        0 <= c < 16,
        call_ensures(coordinate, ((16 * r + c) as usize, transform), to),
    ensures
        to / 16 == (if transform % 2 == 1 {
            9 - r
        } else {
            r
        }),
        to % 16 == (if (transform / 2) % 2 == 1 {
            15 - c
        } else {
            c
        }),
{
    lemma_low_bits(transform);
    assert((16 * r + c) / 16 == r && (16 * r + c) % 16 == c);
}

/// Each square's value is found where the transform takes the square, row by row of eight.
pub proof fn lemma_spreads<T: Copy>(
    values: [T; SQUARES],
    zero: T,
    transform: u8,
    out: Vec<T>,
    r: int,
    j: int,
)
    requires
        call_ensures(spread::<T>, (&values, zero, transform), out),
        0 <= r < 10,
        0 <= j < 8,
    ensures
        ({
            let c = 2 * j + r % 2;
            let tr = if transform % 2 == 1 {
                9 - r
            } else {
                r
            };
            let tc = if (transform / 2) % 2 == 1 {
                15 - c
            } else {
                c
            };
            &&& out@[16 * tr + tc] == values@[8 * r + j]
            &&& out@[16 * tr + (if (transform / 2) % 2 == 1 {
                14 - 2 * j + r % 2
            } else {
                2 * j + 1 - r % 2
            })] == zero
        }),
{
    lemma_low_bits(transform);
    let k = 8 * r + j;
    lemma_cell_of(k);
    assert(k / 8 == r);
    assert(cell_of(k) == 16 * r + 2 * j + r % 2);
    let i = 16 * r + 2 * j + 1 - r % 2;
    assert(i / 16 == r && i % 16 == 2 * j + 1 - r % 2);
    assert(cell_of(k) / 16 == r && cell_of(k) % 16 == 2 * j + r % 2);
    assert(out@[turned(cell_of(k), transform)] == values@[k]);
    assert(out@[turned(i, transform)] == zero);
}

// ------------------------------------------------------------------------------------ planes

/// Which plane a cell is set in, by its mark.
proof fn lemma_plane_at(m: Seq<u8>, player: int, p: int, i: int)
    requires
        0 <= p < 5,
        0 <= i < HW,
        0 <= player < 2,
    ensures
        plane_set(m, player, p * 160 + i) <==> if (i / 16 + i % 16) % 2 == 1 {
            p == 0
        } else if m[i / 2] == 0 {
            p == 1
        } else if m[i / 2] == 3 {
            p == 2
        } else if m[i / 2] == 1 {
            p == 3 + player
        } else {
            p == 4 - player
        },
{
    assert((p * 160 + i) % 160 == i && (p * 160 + i) / 160 == p);
}

/// Each cell is set in one of five planes. Cells that are no squares stand in plane 0, open
/// squares in plane 1, removed ones in plane 2, a player's own marks in plane 3 and the other
/// player's in plane 4.
pub proof fn lemma_encodes(
    marks: [u8; SQUARES],
    player: usize,
    one: u16,
    boards: &mut Vec<u16>,
    at: usize,
    p: int,
    i: int,
)
    requires
        call_ensures(encode, (&marks, player, one, boards, at), ()),
        player < 2,
        0 <= p < 5,
        0 <= i < HW,
        marks@[i / 2] < 4,
    ensures
        final(boards)@[at + p * 160 + i] == (if (i / 16 + i % 16) % 2 == 1 && p == 0 {
            one
        } else if (i / 16 + i % 16) % 2 == 0 && (p == 1 && marks@[i / 2] == 0 || p == 2
            && marks@[i / 2] == 3 || p == 3 && marks@[i / 2] == player + 1 || p == 4
            && marks@[i / 2] == 2 - player) {
            one
        } else {
            0
        }),
{
    lemma_plane_at(marks@, player as int, p, i);
    let x = at + p * 160 + i;
    assert(final(boards)@[x] == (if plane_set(marks@, player as int, x - at) {
        one
    } else {
        0
    }));
}

/// What the planes of a position show of cell `i`, where a transform takes it.
proof fn lemma_shown(
    boards: Seq<u16>,
    at: int,
    squares: Seq<i8>,
    player: int,
    transform: u8,
    p: int,
    i: int,
)
    requires
        shows_turned(boards, at, squares, player, transform),
        squares.len() == SQUARES,
        0 <= player < 2,
        0 <= p < 5,
        0 <= i < HW,
    ensures
        boards[at + p * 160 + (if transform % 2 == 1 {
            9 - i / 16
        } else {
            i / 16
        }) * 16 + (if (transform / 2) % 2 == 1 {
            15 - i % 16
        } else {
            i % 16
        })] == (if (if (i / 16 + i % 16) % 2 == 1 {
            p == 0
        } else if squares[i / 2] == PLAYABLE_SQUARE {
            p == 1
        } else if squares[i / 2] == PLAYER_0_MARK {
            p == 3 + player
        } else if squares[i / 2] == PLAYER_1_MARK {
            p == 4 - player
        } else {
            p == 2
        }) {
            0x3F80u16
        } else {
            0
        }),
{
    lemma_low_bits(transform);
    lemma_plane_at(square_marks(squares), player, p, i);
    assert(square_marks(squares)[i / 2] == mark_of(squares[i / 2]));
    let to = turned(i, transform);
    assert(boards[at + p * 160 + to] == (if plane_set(
        square_marks(squares),
        player,
        p * 160 + i,
    ) {
        PLANE_ONE
    } else {
        0
    }));
    assert(to == (if transform % 2 == 1 {
        9 - i / 16
    } else {
        i / 16
    }) * 16 + (if (transform / 2) % 2 == 1 {
        15 - i % 16
    } else {
        i % 16
    }));
}

/// One model call reads every queued position as each player sees it: row `q` is player 0's
/// view, and the row as many further on as the buffer is wide is player 1's. Cell `i` is set
/// in plane 3 where it holds a mark of the player whose view it is, and in plane 4 where it
/// holds one of the other's; plane 1 has the open squares, plane 2 the removed ones, and
/// plane 0 the cells that are no squares. Rows past the queued positions are empty.
pub proof fn lemma_model_reads<V: Variant>(
    trainer: &mut Trainer<V>,
    r: (Vec<u16>, usize),
    player: int,
    q: int,
    p: int,
    i: int,
)
    requires
        call_ensures(Trainer::<V>::inputs, (trainer,), r),
        0 <= player < 2,
        0 <= q < final(trainer).search.cfg.b,
        0 <= p < 5,
        0 <= i < HW,
    ensures
        ({
            let word = r.0@[(player * final(trainer).search.cfg.b + q) * 800 + p * 160 + i];
            let v = final(trainer).search.buffer.positions@[q]@[i / 2];
            let square = (i / 16 + i % 16) % 2 == 0;
            let own = if player == 0 {
                PLAYER_0_MARK
            } else {
                PLAYER_1_MARK
            };
            let theirs = if player == 0 {
                PLAYER_1_MARK
            } else {
                PLAYER_0_MARK
            };
            &&& word == 0 || word == 0x3F80
            &&& word != 0 <==> q < r.1 && (p == 0 && !square || p == 1 && square && v
                == PLAYABLE_SQUARE || p == 2 && square && v != PLAYABLE_SQUARE && v != own && v
                != theirs || p == 3 && square && v == own || p == 4 && square && v == theirs)
        }),
        r.1 == final(trainer).search.buffer.targets@.len(),
{
    let s = final(trainer).search;
    let b = s.cfg.b as int;
    lemma_low_bits(0);
    if q < r.1 {
        assert(input_row(s, r.0@, q));
        let at = (player * b + q) * 800;
        assert(shows_turned(r.0@, at, s.buffer.positions@[q]@, player, 0)) by {
            if player == 0 {
                assert(at == q * 800) by (nonlinear_arith)
                    requires
                        player == 0,
                        at == (player * b + q) * 800,
                ;
            } else {
                assert(at == (b + q) * 800) by (nonlinear_arith)
                    requires
                        player == 1,
                        at == (player * b + q) * 800,
                ;
            }
        }
        lemma_shown(r.0@, at, s.buffer.positions@[q]@, player, 0, p, i);
        assert((i / 16) * 16 + i % 16 == i);
        assert(r.0@[at + p * 160 + i] == r.0@[at + p * 160 + (i / 16) * 16 + i % 16]);
    } else {
        let x = (player * b + q) * 800 + p * 160 + i;
        if player == 0 {
            assert(x == q * 800 + p * 160 + i) by (nonlinear_arith)
                requires
                    player == 0,
                    x == (player * b + q) * 800 + p * 160 + i,
            ;
        } else {
            assert(x == (b + q) * 800 + p * 160 + i) by (nonlinear_arith)
                requires
                    player == 1,
                    x == (player * b + q) * 800 + p * 160 + i,
            ;
        }
        assert(r.0@[x] == 0);
    }
}

/// A training batch shows record number `ids[n]` in rows `2 n` and `2 n + 1`, as player 0 and
/// as player 1 sees it: a cell that holds the player's own mark is set in plane 3, and one
/// that holds the other's in plane 4, each where the record's transform takes it.
pub proof fn lemma_batch_shows<V: Variant>(
    trainer: Trainer<V>,
    ids: Vec<u32>,
    transforms: Vec<u8>,
    boards: Vec<u16>,
    n: int,
    player: int,
    p: int,
    i: int,
)
    requires
        call_ensures(Trainer::<V>::batch, (&trainer, &ids, &transforms), boards),
        0 <= n < ids@.len(),
        0 <= player < 2,
        0 <= p < 5,
        0 <= i < HW,
    ensures
        ({
            let tr = if transforms@[n] % 2 == 1 {
                9 - i / 16
            } else {
                i / 16
            };
            let tc = if (transforms@[n] / 2) % 2 == 1 {
                15 - i % 16
            } else {
                i % 16
            };
            let word = boards@[(2 * n + player) * 800 + p * 160 + tr * 16 + tc];
            let v = trainer.records@[ids@[n] as int].cells@[i / 2];
            let square = (i / 16 + i % 16) % 2 == 0;
            let own = if player == 0 {
                PLAYER_0_MARK
            } else {
                PLAYER_1_MARK
            };
            let theirs = if player == 0 {
                PLAYER_1_MARK
            } else {
                PLAYER_0_MARK
            };
            &&& word == 0 || word == 0x3F80
            &&& word != 0 <==> p == 0 && !square || p == 1 && square && v == PLAYABLE_SQUARE || p
                == 2 && square && v != PLAYABLE_SQUARE && v != own && v != theirs || p == 3
                && square && v == own || p == 4 && square && v == theirs
        }),
        boards@.len() == 1600 * ids@.len(),
{
    let c = trainer.records@[ids@[n] as int].cells@;
    let t = transforms@[n];
    assert(batch_row(boards@, n, c, t));
    let at = (2 * n + player) * 800;
    assert(shows_turned(boards@, at, c, player, t)) by {
        if player == 0 {
            assert(at == n * 1600);
        } else {
            assert(at == n * 1600 + 800);
        }
    }
    lemma_shown(boards@, at, c, player, t, p, i);
}

// ----------------------------------------------------------------------------------- storage

/// The marks of a board, square by square: 0 is open, 1 and 2 are the players', and 3 is
/// anything else.
pub proof fn lemma_marks_read(g: Game, m: [u8; SQUARES], i: int)
    requires
        call_ensures(marks, (&g,), m),
        0 <= i < HW,
        (i / 16 + i % 16) % 2 == 0,
    ensures
        m@[i / 2] == 0 <==> g.cells@[i] == PLAYABLE_SQUARE,
        m@[i / 2] == 1 <==> g.cells@[i] == PLAYER_0_MARK,
        m@[i / 2] == 2 <==> g.cells@[i] == PLAYER_1_MARK,
        m@[i / 2] < 4,
{
    lemma_bit_of(i);
}

/// The digits of a byte to base four.
proof fn lemma_digits(v: u8)
    ensures
        (v >> 0u8) & 3 == v % 4,
        (v >> 2u8) & 3 == (v / 4) % 4,
        (v >> 4u8) & 3 == (v / 16) % 4,
        (v >> 6u8) & 3 == v / 64,
{
    assert((v >> 0u8) & 3 == v % 4 && (v >> 2u8) & 3 == (v / 4) % 4 && (v >> 4u8) & 3 == (v / 16)
        % 4 && (v >> 6u8) & 3 == v / 64) by (bit_vector);
}

pub(crate) proof fn lemma_unpacked_digit(board: Seq<u8>, k: int)
    requires
        0 <= k < SQUARES,
    ensures
        unpacked(board)[k] == (if k % 4 == 0 {
            board[k / 4] % 4
        } else if k % 4 == 1 {
            (board[k / 4] / 4) % 4
        } else if k % 4 == 2 {
            (board[k / 4] / 16) % 4
        } else {
            board[k / 4] / 64
        }),
{
    lemma_digits(board[k / 4]);
    assert(0 <= k % 4 < 4);
}

/// A packed board holds four squares to a byte, as its digits to base four.
pub proof fn lemma_packs(m: [u8; SQUARES], board: [u8; 20], k: int)
    requires
        call_ensures(pack, (&m,), board),
        forall|j: int| 0 <= j < SQUARES ==> #[trigger] m@[j] < 4,
        0 <= k < SQUARES,
    ensures
        m@[k] == (if k % 4 == 0 {
            board@[k / 4] % 4
        } else if k % 4 == 1 {
            (board@[k / 4] / 4) % 4
        } else if k % 4 == 2 {
            (board@[k / 4] / 16) % 4
        } else {
            board@[k / 4] / 64
        }),
{
    lemma_unpack_pack(m@);
    lemma_unpacked_digit(board@, k);
}

/// Unpacking reads the digits to base four of each byte.
pub proof fn lemma_unpacks(board: [u8; 20], m: [u8; SQUARES], k: int)
    requires
        call_ensures(unpack, (&board,), m),
        0 <= k < SQUARES,
    ensures
        m@[k] == (if k % 4 == 0 {
            board@[k / 4] % 4
        } else if k % 4 == 1 {
            (board@[k / 4] / 4) % 4
        } else if k % 4 == 2 {
            (board@[k / 4] / 16) % 4
        } else {
            board@[k / 4] / 64
        }),
{
    lemma_unpacked_digit(board@, k);
}

// ------------------------------------------------------------------------------------- games

/// What a row shows of cell `i`, by its mark.
proof fn lemma_row(boards: Seq<u16>, row: int, m: Seq<u8>, player: int, p: int, i: int)
    requires
        row_shows(boards, row, m, player),
        0 <= player < 2,
        0 <= p < 5,
        0 <= i < HW,
    ensures
        boards[row * 800 + p * 160 + i] == (if (if (i / 16 + i % 16) % 2 == 1 {
            p == 0
        } else if m[i / 2] == 0 {
            p == 1
        } else if m[i / 2] == 3 {
            p == 2
        } else if m[i / 2] == 1 {
            p == 3 + player
        } else {
            p == 4 - player
        }) {
            0x3F80u16
        } else {
            0
        }),
{
    lemma_plane_at(m, player, p, i);
    let j = p * 160 + i;
    assert(boards[row * 800 + j] == boards[row * 800 + p * 160 + i]);
}

/// The model's input shows game `n` in rows `2 n` and `2 n + 1`, as player 0 and as player 1
/// sees it: own marks in plane 3, the other's in plane 4, own score first. The rows of a
/// finished game are empty.
pub proof fn lemma_games_read<R: Rule>(
    a: Arena<R>,
    x: Inputs,
    n: int,
    player: int,
    p: int,
    i: int,
)
    requires
        call_ensures(Arena::<R>::inputs, (&a,), x),
        0 <= n < a.games@.len(),
        0 <= player < 2,
        0 <= p < 5,
        0 <= i < HW,
    ensures
        ({
            let g = a.games@[n];
            let word = x.boards@[(2 * n + player) * 800 + p * 160 + i];
            let v = g.cells@[i];
            let square = (i / 16 + i % 16) % 2 == 0;
            let own = if player == 0 {
                PLAYER_0_MARK
            } else {
                PLAYER_1_MARK
            };
            let theirs = if player == 0 {
                PLAYER_1_MARK
            } else {
                PLAYER_0_MARK
            };
            &&& word == 0 || word == 0x3F80
            &&& word != 0 <==> !g.finished && (p == 0 && !square || p == 1 && square && v
                == PLAYABLE_SQUARE || p == 2 && square && v != PLAYABLE_SQUARE && v != own && v
                != theirs || p == 3 && square && v == own || p == 4 && square && v == theirs)
            &&& x.scores@[4 * n + 2 * player] == (if g.finished {
                0
            } else {
                g.scores@[player]
            })
            &&& x.scores@[4 * n + 2 * player + 1] == (if g.finished {
                0
            } else {
                g.scores@[1 - player]
            })
        }),
{
    let g = a.games@[n];
    assert(input_rows(g, x, n));
    let row = 2 * n + player;
    if g.finished {
        let j = p * 160 + i;
        assert(row_empty(x.boards@, row));
        assert(x.boards@[row * 800 + j] == 0);
    } else {
        lemma_bit_of(i);
        let m = marks_of(g.cells@);
        assert(row_shows(x.boards@, row, m, player));
        lemma_row(x.boards@, row, m, player, p, i);
        assert((i / 16 + i % 16) % 2 == 0 ==> m[i / 2] == mark_of(g.cells@[i]));
    }
}

/// A training batch shows stored position `start + n` in rows `2 n` and `2 n + 1`, as player 0
/// and as player 1 sees it, beside the player's own scores, policy, move and return. A square's
/// policy stands at its cell of the board, and so does its move.
pub proof fn lemma_positions_read<R: Rule>(
    a: Arena<R>,
    start: usize,
    count: usize,
    r: (Batch<R::Stored>, usize),
    n: int,
    player: int,
    p: int,
    i: int,
)
    requires
        call_ensures(Arena::<R>::batch, (&a, start, count), r),
        0 <= n < count,
        start + n < a.buffer@.len(),
        0 <= player < 2,
        0 <= p < 5,
        0 <= i < HW,
    ensures
        n < r.1,
        ({
            let pos = a.buffer@[start + n];
            let b = r.0;
            let row = 2 * n + player;
            let byte = pos.board@[i / 8];
            let m = if (i / 2) % 4 == 0 {
                byte % 4
            } else if (i / 2) % 4 == 1 {
                (byte / 4) % 4
            } else if (i / 2) % 4 == 2 {
                (byte / 16) % 4
            } else {
                byte / 64
            };
            let square = (i / 16 + i % 16) % 2 == 0;
            let word = b.boards@[row * 800 + p * 160 + i];
            let move_at = b.moves@[row] as int;
            &&& word == 0 || word == 0x3F80
            &&& word != 0 <==> p == 0 && !square || p == 1 && square && m == 0 || p == 2 && square
                && m == 3 || p == 3 && square && m == player + 1 || p == 4 && square && m == 2
                - player
            &&& b.scores@[2 * row] == pos.scores@[player]
            &&& b.scores@[2 * row + 1] == pos.scores@[1 - player]
            &&& b.policies@[row * 160 + i] == (if square {
                pos.policy@[player]@[i / 2]
            } else {
                0
            })
            &&& move_at / 2 == pos.actions@[player]
            &&& (move_at / 16 + move_at % 16) % 2 == 0
            &&& b.targets@[row] == pos.returns@[player]
        }),
{
    let pos = a.buffer@[start + n];
    assert(batch_rows(a.buffer@[start + n], r.0, n));
    let row = 2 * n + player;
    lemma_bit_of(i);
    let m = unpacked(pos.board@);
    assert(row_shows(r.0.boards@, row, m, player));
    lemma_row(r.0.boards@, row, m, player, p, i);
    lemma_unpacked_digit(pos.board@, i / 2);
    assert(i / 2 / 4 == i / 8);
    assert(policy_row(r.0.policies@, row, pos.policy@[player]@));
    assert(r.0.policies@[row * 160 + i] == r.0.policies@[row * 160 + i]);
    assert(0 <= i / 2 % 4 < 4);
    let act = pos.actions@[player] as int;
    assert(r.0.moves@[row] == cell_of(act));
    assert(cell_of(act) == 2 * act + (act / 8) % 2);
    assert(cell_of(act) / 2 == act);
    assert((cell_of(act) / 16 + cell_of(act) % 16) % 2 == 0) by {
        let q = act / 8;
        let z = act % 8;
        assert(act == 8 * q + z);
        assert(cell_of(act) == 16 * q + 2 * z + q % 2);
        assert(cell_of(act) / 16 == q && cell_of(act) % 16 == 2 * z + q % 2);
    }
}

/// As many positions come as are asked for, or as there are from the start on.
pub proof fn lemma_batch_size<R: Rule>(
    a: Arena<R>,
    start: usize,
    count: usize,
    r: (Batch<R::Stored>, usize),
)
    requires
        call_ensures(Arena::<R>::batch, (&a, start, count), r),
        start <= a.buffer@.len(),
    ensures
        r.1 <= count,
        start + r.1 <= a.buffer@.len(),
        r.1 == count || start + r.1 == a.buffer@.len(),
{
}

// ----------------------------------------------------------------------------------- returns

/// Position `t` of a game is stored with return `rets[t]`.
proof fn lemma_stored<R: Rule>(
    rule: R,
    h: Seq<Record<[R::Value; 2]>>,
    reward: [R::Value; 2],
    rets: Seq<[R::Value; 2]>,
    after: Seq<Record<[R::Stored; 2]>>,
    start: int,
    t: int,
)
    requires
        returns_of(rule, h, reward, rets, 0),
        stored_from::<R>(h, rets, after, start, h.len() as int),
        0 <= t < h.len(),
    ensures
        after[start + t].board == h[t].board,
        after[start + t].scores == h[t].scores,
        after[start + t].actions == h[t].actions,
        after[start + t].policy == h[t].policy,
        call_ensures(R::store, (rets[t]@[0],), after[start + t].returns@[0]),
        call_ensures(R::store, (rets[t]@[1],), after[start + t].returns@[1]),
        t == h.len() - 1 ==> rets[t] == reward,
        t > 0 ==> call_ensures(
            R::blend,
            (&rule, h[t].returns@[0], rets[t]@[0]),
            rets[t - 1]@[0],
        ),
        t > 0 ==> call_ensures(
            R::blend,
            (&rule, h[t].returns@[1], rets[t]@[1]),
            rets[t - 1]@[1],
        ),
{
    assert(stored_as::<R>(h[t], rets[t], after[start + t]));
    assert(return_at(rule, h, reward, rets, t));
    if t > 0 {
        assert(return_at(rule, h, reward, rets, t - 1));
    }
}

/// The return of the last position of a game is the reward, and that of the position before
/// any position `t` blends the value recorded at `t` with the return of `t`, for either player
/// and however long the game was. The positions are stored in order behind what was stored
/// before, each with its own board, scores, moves and policies.
pub proof fn lemma_returns<R: Rule>(
    history: &mut Vec<Record<[R::Value; 2]>>,
    reward: [R::Value; 2],
    rule: R,
    buffer: &mut Vec<Record<[R::Stored; 2]>>,
)
    requires
        call_ensures(finish::<R>, (history, reward, &rule, buffer), ()),
    ensures
        exists|rets: Seq<[R::Value; 2]>| {
            &&& #[trigger] rets.len() == old(history)@.len()
            &&& rets.len() > 0 ==> rets.last() == reward
            &&& forall|t: int|
                0 <= t < rets.len() ==> {
                    let from = #[trigger] old(history)@[t];
                    let to = final(buffer)@[old(buffer)@.len() + t];
                    &&& t > 0 ==> call_ensures(
                        R::blend,
                        (&rule, from.returns@[0], rets[t]@[0]),
                        rets[t - 1]@[0],
                    )
                    &&& t > 0 ==> call_ensures(
                        R::blend,
                        (&rule, from.returns@[1], rets[t]@[1]),
                        rets[t - 1]@[1],
                    )
                    &&& call_ensures(R::store, (rets[t]@[0],), to.returns@[0])
                    &&& call_ensures(R::store, (rets[t]@[1],), to.returns@[1])
                    &&& to.board == from.board
                    &&& to.scores == from.scores
                    &&& to.actions == from.actions
                    &&& to.policy == from.policy
                }
        },
        final(buffer)@.len() == old(buffer)@.len() + old(history)@.len(),
        forall|k: int|
            0 <= k < old(buffer)@.len() ==> #[trigger] final(buffer)@[k] == old(buffer)@[k],
        final(history)@.len() == 0,
{
    lemma_finished::<R>(rule, old(history)@, reward, old(buffer)@, final(buffer)@);
}

/// What finishing a game stores.
proof fn lemma_finished<R: Rule>(
    rule: R,
    h: Seq<Record<[R::Value; 2]>>,
    reward: [R::Value; 2],
    before: Seq<Record<[R::Stored; 2]>>,
    after: Seq<Record<[R::Stored; 2]>>,
)
    requires
        finished_into(rule, h, reward, before, after),
    ensures
        exists|rets: Seq<[R::Value; 2]>| {
            &&& #[trigger] rets.len() == h.len()
            &&& rets.len() > 0 ==> rets.last() == reward
            &&& forall|t: int|
                0 <= t < rets.len() ==> {
                    let from = #[trigger] h[t];
                    let to = after[before.len() + t];
                    &&& t > 0 ==> call_ensures(
                        R::blend,
                        (&rule, from.returns@[0], rets[t]@[0]),
                        rets[t - 1]@[0],
                    )
                    &&& t > 0 ==> call_ensures(
                        R::blend,
                        (&rule, from.returns@[1], rets[t]@[1]),
                        rets[t - 1]@[1],
                    )
                    &&& call_ensures(R::store, (rets[t]@[0],), to.returns@[0])
                    &&& call_ensures(R::store, (rets[t]@[1],), to.returns@[1])
                    &&& to.board == from.board
                    &&& to.scores == from.scores
                    &&& to.actions == from.actions
                    &&& to.policy == from.policy
                }
        },
{
    let start = before.len() as int;
    let rets = choose|rets: Seq<[R::Value; 2]>|
        returns_of(rule, h, reward, rets, 0) && #[trigger] stored_from::<R>(
            h,
            rets,
            after,
            start,
            h.len() as int,
        );
    assert forall|t: int| 0 <= t < rets.len() implies {
        let from = #[trigger] h[t];
        let to = after[start + t];
        &&& t > 0 ==> call_ensures(
            R::blend,
            (&rule, from.returns@[0], rets[t]@[0]),
            rets[t - 1]@[0],
        )
        &&& t > 0 ==> call_ensures(
            R::blend,
            (&rule, from.returns@[1], rets[t]@[1]),
            rets[t - 1]@[1],
        )
        &&& call_ensures(R::store, (rets[t]@[0],), to.returns@[0])
        &&& call_ensures(R::store, (rets[t]@[1],), to.returns@[1])
        &&& to.board == from.board
        &&& to.scores == from.scores
        &&& to.actions == from.actions
        &&& to.policy == from.policy
    } by {
        lemma_stored::<R>(rule, h, reward, rets, after, start, t);
    }
    if h.len() > 0 {
        lemma_stored::<R>(rule, h, reward, rets, after, start, h.len() - 1);
    }
    assert(rets.len() == h.len());
}

} // verus!
