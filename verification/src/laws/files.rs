//! What files and drawings hold.
use vstd::prelude::*;
use vstd::string::*;

use crate::art::{board_art, border_text, mark_text, row_text, rows_text};
use crate::board::{
    even_square, HW, PLAYABLE_SQUARE, PLAYER_0_MARK, PLAYER_1_MARK, REMOVED_SQUARE, SQUARES,
};
use crate::exchange::{
    dense_masks, le, move_at, playable_at, read_moves, replayed, state_header, IllegalMove, Moves,
    MovesError, StateRecord,
};
use crate::game::Game;
use crate::laws::rules::lemma_moved_cell;
use crate::scratch::Scratch;
use crate::text::{comma_list, decimal, digit, hex, signed};

verus! {

// --------------------------------------------------------------------------------- move files

/// A move file is read exactly if it begins with `ALMV`, is of version 1 and of a board of 10
/// rows and 16 columns, and is as long as its header says: 24 bytes, and 8 for each game in
/// each step. Each move is four bytes, the lowest first, and below zero if its highest bit is
/// set.
pub proof fn lemma_file_read(bytes: Vec<u8>, r: Result<Moves, MovesError>, i: int)
    requires
        call_ensures(read_moves, (&bytes,), r),
    ensures
        ({
            let b = bytes@;
            let word = |at: int| b[at] + 256 * b[at + 1] + 65536 * b[at + 2] + 16777216 * b[at + 3];
            &&& r is Ok <==> b.len() >= 24 && b[0] == 65 && b[1] == 76 && b[2] == 77 && b[3] == 86
                && word(4) == 1 && word(12) == 10 && word(16) == 16 && b.len() == 24 + 8 * (word(
                20,
            ) * word(8))
            &&& r matches Ok(m) ==> {
                &&& m.n == word(8)
                &&& m.n_steps == word(20)
                &&& m.data@.len() == 2 * (m.n_steps * m.n)
                &&& 0 <= i < m.data@.len() ==> m.data@[i] == b[24 + 4 * i] + 256 * b[24 + 4 * i + 1]
                    + 65536 * b[24 + 4 * i + 2] + 16777216 * (if b[24 + 4 * i + 3] < 128 {
                    b[24 + 4 * i + 3] as int
                } else {
                    b[24 + 4 * i + 3] - 256
                })
            }
            &&& r matches Err(e) ==> {
                &&& e is Short <==> b.len() < 24
                &&& e is Magic <==> b.len() >= 24 && !(b[0] == 65 && b[1] == 76 && b[2] == 77
                    && b[3] == 86)
                &&& e is Version ==> word(4) != 1
                &&& e is Geometry ==> word(4) == 1 && (word(12) != 10 || word(16) != 16)
                &&& e is Length ==> word(4) == 1 && word(12) == 10 && word(16) == 16 && b.len()
                    != 24 + 8 * (word(20) * word(8))
            }
        }),
{
    let b = bytes@;
    let p = le(b, 20);
    let q = le(b, 8);
    assert(p * q * 8 == 8 * (p * q)) by (nonlinear_arith);
    if let Ok(m) = r {
        let s = m.n_steps as int;
        let n = m.n as int;
        assert(s * n * 2 == 2 * (s * n)) by (nonlinear_arith);
        if 0 <= i < m.data@.len() {
            assert(m.data@[i] == crate::exchange::signed(le(b, 24 + 4 * i)));
        }
    }
}

/// Replaying a step: every game that is not finished makes the two moves that the file has for
/// it, player 0's before player 1's, the games of a step in order. The first move that is not
/// legal is answered, and no game from there on has moved.
pub proof fn lemma_step_replayed(
    m: Moves,
    step: usize,
    games: &mut Vec<Game>,
    scratch: &mut Scratch,
    r: Result<(), IllegalMove>,
    g: int,
    x: int,
)
    requires
        call_ensures(Moves::replay_step, (&m, step, games, scratch), r),
        m.wf(),
        step < m.n_steps,
        old(games)@.len() == m.n,
        0 <= g < m.n,
        0 <= x < HW,
        r matches Err(e) ==> g < e.game,
    ensures
        old(games)@[g].finished ==> final(games)@[g] == old(games)@[g],
        !old(games)@[g].finished ==> {
            let i0 = m.data@[2 * (step * m.n + g)] as int;
            let i1 = m.data@[2 * (step * m.n + g) + 1] as int;
            let before = old(games)@[g];
            &&& 0 <= i0 < HW
            &&& 0 <= i1 < HW
            &&& before.cells@[i0] == PLAYABLE_SQUARE
            &&& before.cells@[i1] == PLAYABLE_SQUARE
            &&& before.move_count == 0 ==> i0 % 16 < 8 && i1 % 16 >= 8
            &&& final(games)@[g].cells@[x] == (if i0 == i1 {
                if x == i0 || (x / 16 - i0 / 16 == 1 || x / 16 - i0 / 16 == -1) && (x % 16 - i0
                    % 16 == 1 || x % 16 - i0 % 16 == -1) {
                    REMOVED_SQUARE
                } else {
                    before.cells@[x]
                }
            } else if x == i0 {
                PLAYER_0_MARK
            } else if x == i1 {
                PLAYER_1_MARK
            } else {
                before.cells@[x]
            })
        },
{
    let k = step * m.n;
    assert(step * m.n * 2 + g * 2 == 2 * (k + g)) by (nonlinear_arith)
        requires
            k == step * m.n,
    ;
    let before = old(games)@[g];
    let after = final(games)@[g];
    assert(replayed(m, step as int, g, before, after));
    assert(playable_at(m, step as int, g, before));
    if !before.finished {
        lemma_moved_cell(
            before.cells@,
            move_at(m, step as int, g, 0),
            move_at(m, step as int, g, 1),
            x,
        );
    }
}

/// A replay stops at a move onto a cell that is not open, or a first move outside the player's
/// half, and says whose it is.
pub proof fn lemma_replay_stops(
    m: Moves,
    step: usize,
    games: &mut Vec<Game>,
    scratch: &mut Scratch,
    e: IllegalMove,
    g: int,
)
    requires
        call_ensures(
            Moves::replay_step,
            (&m, step, games, scratch),
            Err::<(), IllegalMove>(e),
        ),
        m.wf(),
        step < m.n_steps,
        old(games)@.len() == m.n,
        e.game <= g < m.n,
    ensures
        e.game < m.n,
        e.player < 2,
        e.board == m.data@[2 * (step * m.n + e.game) + e.player],
        ({
            let before = old(games)@[e.game as int];
            !(0 <= e.board < HW && before.cells@[e.board as int] == PLAYABLE_SQUARE && (
            before.move_count > 0 || e.player == 0 && e.board % 16 < 8 || e.player == 1 && e.board
                % 16 >= 8))
        }),
        final(games)@[g] == old(games)@[g],
{
    let k = step * m.n;
    assert(step * m.n * 2 + e.game * 2 + e.player == 2 * (k + e.game) + e.player) by (
    nonlinear_arith)
        requires
            k == step * m.n,
    ;
}

// -------------------------------------------------------------------------------- state files

/// The header of a state file, byte by byte: `ALST`, then numbers of four bytes each, lowest
/// first: version 1, the games, 10 rows, 16 columns and the records.
pub proof fn lemma_header(games: u32, records: u32, b: Vec<u8>)
    requires
        call_ensures(state_header, (games, records), b),
    ensures
        b@.len() == 24,
        b@[0] == 65 && b@[1] == 76 && b@[2] == 83 && b@[3] == 84,
        b@[4] + 256 * b@[5] + 65536 * b@[6] + 16777216 * b@[7] == 1,
        b@[8] + 256 * b@[9] + 65536 * b@[10] + 16777216 * b@[11] == games,
        b@[12] + 256 * b@[13] + 65536 * b@[14] + 16777216 * b@[15] == 10,
        b@[16] + 256 * b@[17] + 65536 * b@[18] + 16777216 * b@[19] == 16,
        b@[20] + 256 * b@[21] + 65536 * b@[22] + 16777216 * b@[23] == records,
{
}

/// A state record shows game `g` cell by cell: what the cell holds, and whether either player
/// may play it.
pub proof fn lemma_state_shown(games: Vec<Game>, r: StateRecord, g: int, x: int, player: int)
    requires
        call_ensures(StateRecord::of, (&games,), r),
        0 <= g < games@.len(),
        0 <= x < HW,
        0 <= player < 2,
    ensures
        ({
            let game = games@[g];
            let open = game.cells@[x] == PLAYABLE_SQUARE;
            &&& r.boards@[160 * g + x] == game.cells@[x]
            &&& r.scores@[2 * g + player] == game.scores@[player]
            &&& r.move_counts@[g] == game.move_count
            &&& r.finished@[g] == game.finished
            &&& r.mask_0@[160 * g + x] <==> open && (game.move_count > 0 || x % 16 < 8)
            &&& r.mask_1@[160 * g + x] <==> open && (game.move_count > 0 || x % 16 >= 8)
        }),
{
    let k = 160 * g + x;
    assert(k / 160 == g && k % 160 == x);
    assert(r.boards@[k] == games@[k / 160].cells@[k % 160]);
    assert(r.mask_0@[k] == games@[k / 160].may_play(k % 160, 0));
    assert(r.mask_1@[k] == games@[k / 160].may_play(k % 160, 1));
    let j = 2 * g + player;
    assert(j / 2 == g && j % 2 == player);
    assert(r.scores@[j] == games@[j / 2].scores@[j % 2]);
}

/// The masks of a batch of games, cell by cell.
pub proof fn lemma_masks_shown(
    games: Vec<Game>,
    r: (Vec<bool>, Vec<bool>, Vec<u32>, Vec<u32>),
    g: int,
    x: int,
)
    requires
        call_ensures(dense_masks, (&games,), r),
        0 <= g < games@.len(),
        0 <= x < HW,
    ensures
        r.0@[160 * g + x] <==> games@[g].cells@[x] == PLAYABLE_SQUARE && (games@[g].move_count > 0
            || x % 16 < 8),
        r.1@[160 * g + x] <==> games@[g].cells@[x] == PLAYABLE_SQUARE && (games@[g].move_count > 0
            || x % 16 >= 8),
{
    let k = 160 * g + x;
    assert(k / 160 == g && k % 160 == x);
    assert(r.0@[k] == games@[k / 160].may_play(k % 160, 0));
    assert(r.1@[k] == games@[k / 160].may_play(k % 160, 1));
}

// ----------------------------------------------------------------------------------- drawings

/// What stands in one cell of a drawing.
proof fn lemma_row_cells(squares: Seq<i8>, r: int, n: nat, c: int)
    requires
        0 <= r < 10,
        n <= 16,
        0 <= c < n,
    ensures
        row_text(squares, r, n).len() == 2 * n,
        row_text(squares, r, n).subrange(2 * c, 2 * c + 2) == (if (r + c) % 2 == 0 {
            mark_text(squares[(16 * r + c) / 2])
        } else {
            "  "@
        }),
    decreases n,
{
    reveal_strlit("00");
    reveal_strlit("11");
    reveal_strlit("--");
    reveal_strlit("xx");
    reveal_strlit("  ");
    let cell = r * 16 + (n - 1);
    assert(cell / 16 == r && cell % 16 == n - 1);
    let last = if even_square(cell) {
        mark_text(squares[cell / 2])
    } else {
        "  "@
    };
    assert(last.len() == 2);
    let rest = row_text(squares, r, (n - 1) as nat);
    if n > 1 {
        lemma_row_cells(
            squares,
            r,
            (n - 1) as nat,
            if c < n - 1 {
                c
            } else {
                0
            },
        );
    }
    assert(rest.len() == 2 * (n - 1));
    if c < n - 1 {
        assert(row_text(squares, r, n).subrange(2 * c, 2 * c + 2) =~= rest.subrange(
            2 * c,
            2 * c + 2,
        ));
    } else {
        assert(row_text(squares, r, n).subrange(2 * c, 2 * c + 2) =~= last);
    }
}

/// One row of a drawing: the indent, a bar, 32 characters and a bar.
proof fn lemma_rows_cells(indent: Seq<char>, squares: Seq<i8>, n: nat, r: int, c: int)
    requires
        n <= 10,
        0 <= r < n,
        0 <= c < 16,
    ensures
        ({
            let text = rows_text(indent, squares, n);
            let at = r * (indent.len() + 35) + indent.len() + 1 + 2 * c;
            &&& text.len() == n * (indent.len() + 35)
            &&& text.subrange(at, at + 2) == (if (r + c) % 2 == 0 {
                mark_text(squares[(16 * r + c) / 2])
            } else {
                "  "@
            })
        }),
    decreases n,
{
    reveal_strlit("|");
    reveal_strlit("|\n");
    let l = indent.len() as int;
    let w = l + 35;
    let rest = rows_text(indent, squares, (n - 1) as nat);
    let row = row_text(squares, n - 1, 16);
    lemma_row_cells(squares, n - 1, 16, c);
    if n > 1 {
        lemma_rows_cells(
            indent,
            squares,
            (n - 1) as nat,
            if r < n - 1 {
                r
            } else {
                0
            },
            c,
        );
    }
    assert((n - 1) * w + w == n * w) by (nonlinear_arith);
    if n == 1 {
        assert(0 * w == 0) by (nonlinear_arith);
    }
    assert(rest.len() == (n - 1) * w);
    let text = rows_text(indent, squares, n);
    assert(text.len() == n * w);
    let at = r * w + l + 1 + 2 * c;
    if r < n - 1 {
        assert(r * w + w <= (n - 1) * w) by (nonlinear_arith)
            requires
                r + 1 <= n - 1,
                w >= 0,
        ;
        assert(0 <= r * w) by (nonlinear_arith)
            requires
                r >= 0,
                w >= 0,
        ;
        assert(text.subrange(at, at + 2) =~= rest.subrange(at, at + 2));
    } else {
        assert(text.subrange(at, at + 2) =~= row.subrange(2 * c, 2 * c + 2));
    }
}

/// A drawing, cell by cell: each line is the indent and 34 characters, a frame around the
/// rows. The cell in row `r` and column `c` takes two characters: `00` and `11` for the
/// players' marks, `--` for an open square, `xx` for a removed one and blanks between squares.
pub proof fn lemma_drawn(
    out: &mut String,
    indent: &str,
    squares: [i8; SQUARES],
    r: int,
    c: int,
)
    requires
        call_ensures(board_art, (out, indent, &squares), ()),
        0 <= r < 10,
        0 <= c < 16,
    ensures
        ({
            let at = old(out)@.len() + (r + 1) * (indent@.len() + 35) + indent@.len() + 1 + 2 * c;
            let v = squares@[(16 * r + c) / 2];
            final(out)@.subrange(at, at + 2) == (if (r + c) % 2 == 1 {
                "  "@
            } else if v == PLAYER_0_MARK {
                "00"@
            } else if v == PLAYER_1_MARK {
                "11"@
            } else if v == PLAYABLE_SQUARE {
                "--"@
            } else {
                "xx"@
            })
        }),
        final(out)@.len() == old(out)@.len() + 12 * (indent@.len() + 35),
        final(out)@.subrange(0, old(out)@.len() as int) == old(out)@,
{
    reveal_strlit("+--------------------------------+\n");
    let l = indent@.len() as int;
    let w = l + 35;
    lemma_rows_cells(indent@, squares@, 10, r, c);
    let rows = rows_text(indent@, squares@, 10);
    let n = old(out)@.len() as int;
    assert(border_text(indent@).len() == w);
    let at = r * w + l + 1 + 2 * c;
    assert((r + 1) * w == r * w + w) by (nonlinear_arith);
    assert(r * w + w <= 10 * w) by (nonlinear_arith)
        requires
            r + 1 <= 10,
            w >= 0,
    ;
    assert(0 <= r * w) by (nonlinear_arith)
        requires
            r >= 0,
            w >= 0,
    ;
    assert(final(out)@.subrange(n + w + at, n + w + at + 2) =~= rows.subrange(at, at + 2));
    assert(final(out)@.subrange(0, n) =~= old(out)@);
}

// ------------------------------------------------------------------------------------ numbers

/// What a text says as a number to some base, its letters standing for ten and on.
pub open spec fn reading(text: Seq<char>, base: int) -> int
    decreases text.len(),
{
    if text.len() == 0 {
        0
    } else {
        let c = text.last() as int;
        base * reading(text.drop_last(), base) + (if c >= 97 {
            c - 87
        } else {
            c - 48
        })
    }
}

proof fn lemma_digit_read(text: Seq<char>, d: int, base: int)
    requires
        0 <= d < 16,
    ensures
        reading(text + digit(d), base) == base * reading(text, base) + d,
        digit(d).len() == 1,
{
    assert((text + digit(d)).drop_last() =~= text);
    assert((text + digit(d)).last() == digit(d)[0]);
}

/// A number in decimal reads as that number, without a zero in front.
pub proof fn lemma_decimal_read(n: nat)
    ensures
        reading(decimal(n), 10) == n,
        n > 0 ==> decimal(n)[0] != '0',
        decimal(n).len() > 0,
    decreases n,
{
    if n < 10 {
        lemma_digit_read(Seq::empty(), n as int, 10);
        assert(Seq::<char>::empty() + digit(n as int) =~= digit(n as int));
    } else {
        lemma_decimal_read(n / 10);
        lemma_digit_read(decimal(n / 10), (n % 10) as int, 10);
    }
}

/// A number in hexadecimal reads as that number, and has as many digits as were asked for at
/// least.
pub proof fn lemma_hex_read(n: nat, width: nat)
    ensures
        reading(hex(n, width), 16) == n,
        hex(n, width).len() >= width,
        hex(n, width).len() > 0,
    decreases n + width,
{
    if n < 16 && width <= 1 {
        lemma_digit_read(Seq::empty(), n as int, 16);
        assert(Seq::<char>::empty() + digit(n as int) =~= digit(n as int));
    } else {
        let w = if width == 0 {
            0
        } else {
            (width - 1) as nat
        };
        lemma_hex_read(n / 16, w);
        lemma_digit_read(hex(n / 16, w), (n % 16) as int, 16);
    }
}

/// A number below zero is a minus sign and the number without it.
pub proof fn lemma_signed_read(n: int)
    ensures
        n >= 0 ==> reading(signed(n), 10) == n,
        n < 0 ==> signed(n)[0] == '-' && reading(signed(n).skip(1), 10) == -n,
{
    if n < 0 {
        lemma_decimal_read((-n) as nat);
        assert(signed(n).skip(1) =~= decimal((-n) as nat));
    } else {
        lemma_decimal_read(n as nat);
    }
}

/// A list of numbers is its parts with a comma and a blank between them, and a list of one is
/// that number.
pub proof fn lemma_list_parts(a: Seq<usize>, b: Seq<usize>)
    requires
        a.len() > 0,
        b.len() > 0,
    ensures
        comma_list(a + b) == comma_list(a) + seq![',', ' '] + comma_list(b),
        a.len() == 1 ==> reading(comma_list(a), 10) == a[0],
    decreases b.len(),
{
    lemma_decimal_read(a[0] as nat);
    assert((a + b).drop_last() =~= a + b.drop_last());
    assert((a + b).last() == b.last());
    if b.len() > 1 {
        lemma_list_parts(a, b.drop_last());
        assert(comma_list(a + b) =~= comma_list(a) + seq![',', ' '] + comma_list(b));
    } else {
        assert(b.drop_last() =~= Seq::<usize>::empty());
        assert(a + b.drop_last() =~= a);
    }
}

} // verus!
