//! Boards as text.
use vstd::prelude::*;
use vstd::string::*;

use crate::board::{
    even_square, HEIGHT, PLAYABLE_SQUARE, PLAYER_0_MARK, PLAYER_1_MARK, SQUARES, WIDTH,
};
use crate::legal::lemma_bit_of;

verus! {

/// Two characters for what a playable square holds: `00` and `11` for the marks, `--` for an
/// open square, `xx` for a removed one.
pub open spec fn mark_text(v: i8) -> Seq<char> {
    if v == PLAYER_0_MARK {
        "00"@
    } else if v == PLAYER_1_MARK {
        "11"@
    } else if v == PLAYABLE_SQUARE {
        "--"@
    } else {
        "xx"@
    }
}

/// The first `n` cells of a row. An unplayable cell is blank.
pub open spec fn row_text(squares: Seq<i8>, r: int, n: nat) -> Seq<char>
    decreases n,
{
    if n == 0 {
        seq![]
    } else {
        let cell = r * 16 + (n - 1);
        row_text(squares, r, (n - 1) as nat) + (if even_square(cell) {
            mark_text(squares[cell / 2])
        } else {
            "  "@
        })
    }
}

/// The first `n` rows, each on a line of its own between bars.
pub open spec fn rows_text(indent: Seq<char>, squares: Seq<i8>, n: nat) -> Seq<char>
    decreases n,
{
    if n == 0 {
        seq![]
    } else {
        rows_text(indent, squares, (n - 1) as nat) + indent + "|"@ + row_text(
            squares,
            n - 1,
            WIDTH as nat,
        ) + "|\n"@
    }
}

/// The line above and below a board.
pub open spec fn border_text(indent: Seq<char>) -> Seq<char> {
    indent + "+--------------------------------+\n"@
}

/// A board as text.
pub open spec fn art_text(indent: Seq<char>, squares: Seq<i8>) -> Seq<char> {
    border_text(indent) + rows_text(indent, squares, HEIGHT as nat) + border_text(indent)
}

/// Append a row's cells.
fn push_row(out: &mut String, squares: &[i8; SQUARES], r: usize)
    requires
        r < HEIGHT,
    ensures
        final(out)@ == old(out)@ + row_text(squares@, r as int, WIDTH as nat),
{
    let ghost before = out@;
    let mut c: usize = 0;
    assert(out@ =~= before + row_text(squares@, r as int, 0));
    while c < WIDTH
        invariant
            c <= WIDTH,
            r < HEIGHT,
            out@ == before + row_text(squares@, r as int, c as nat),
        decreases WIDTH - c,
    {
        let ghost here = out@;
        let cell: usize = r * 16 + c;
        if (cell / 16 + cell % 16) % 2 == 0 {
            proof {
                lemma_bit_of(cell as int);
            }
            let v: i8 = squares[cell / 2];
            if v == PLAYER_0_MARK {
                out.append("00");
            } else if v == PLAYER_1_MARK {
                out.append("11");
            } else if v == PLAYABLE_SQUARE {
                out.append("--");
            } else {
                out.append("xx");
            }
        } else {
            out.append("  ");
        }
        c = c + 1;
        assert(out@ =~= before + row_text(squares@, r as int, c as nat));
    }
}

/// Append a board as text, one neutral view, every line behind the indent.
pub fn board_art(out: &mut String, indent: &str, squares: &[i8; SQUARES])
    ensures
        final(out)@ == old(out)@ + art_text(indent@, squares@),
{
    let ghost before = out@;
    out.append(indent);
    out.append("+--------------------------------+\n");
    let mut r: usize = 0;
    assert(out@ =~= before + border_text(indent@) + rows_text(indent@, squares@, 0));
    while r < HEIGHT
        invariant
            r <= HEIGHT,
            out@ == before + border_text(indent@) + rows_text(indent@, squares@, r as nat),
        decreases HEIGHT - r,
    {
        out.append(indent);
        out.append("|");
        push_row(out, squares, r);
        out.append("|\n");
        r = r + 1;
        assert(out@ =~= before + border_text(indent@) + rows_text(indent@, squares@, r as nat));
    }
    out.append(indent);
    out.append("+--------------------------------+\n");
    assert(out@ =~= before + art_text(indent@, squares@));
}

} // verus!
