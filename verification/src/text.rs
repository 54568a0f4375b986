//! Writing numbers as text.
use vstd::prelude::*;

use vstd::string::*;

verus! {

/// The digit for a number below 16.
pub open spec fn digit(d: int) -> Seq<char> {
    if d == 0 {
        seq!['0']
    } else if d == 1 {
        seq!['1']
    } else if d == 2 {
        seq!['2']
    } else if d == 3 {
        seq!['3']
    } else if d == 4 {
        seq!['4']
    } else if d == 5 {
        seq!['5']
    } else if d == 6 {
        seq!['6']
    } else if d == 7 {
        seq!['7']
    } else if d == 8 {
        seq!['8']
    } else if d == 9 {
        seq!['9']
    } else if d == 10 {
        seq!['a']
    } else if d == 11 {
        seq!['b']
    } else if d == 12 {
        seq!['c']
    } else if d == 13 {
        seq!['d']
    } else if d == 14 {
        seq!['e']
    } else {
        seq!['f']
    }
}

/// A number in decimal.
pub open spec fn decimal(n: nat) -> Seq<char>
    decreases n,
{
    if n < 10 {
        digit(n as int)
    } else {
        decimal(n / 10) + digit((n % 10) as int)
    }
}

/// A signed number in decimal.
pub open spec fn signed(n: int) -> Seq<char> {
    if n < 0 {
        seq!['-'] + decimal((-n) as nat)
    } else {
        decimal(n as nat)
    }
}

/// A number in hexadecimal, with zeros in front up to `width` digits.
pub open spec fn hex(n: nat, width: nat) -> Seq<char>
    decreases n + width,
{
    if n < 16 && width <= 1 {
        digit(n as int)
    } else {
        hex(
            n / 16,
            if width == 0 {
                0
            } else {
                (width - 1) as nat
            },
        ) + digit((n % 16) as int)
    }
}

/// Numbers in decimal, separated by commas.
pub open spec fn comma_list(list: Seq<usize>) -> Seq<char>
    decreases list.len(),
{
    if list.len() == 0 {
        seq![]
    } else if list.len() == 1 {
        decimal(list[0] as nat)
    } else {
        comma_list(list.drop_last()) + seq![',', ' '] + decimal(list.last() as nat)
    }
}

fn push_digit(out: &mut String, d: u64)
    requires
        d < 16,
    ensures
        final(out)@ == old(out)@ + digit(d as int),
{
    proof {
        reveal_strlit("0");
        reveal_strlit("1");
        reveal_strlit("2");
        reveal_strlit("3");
        reveal_strlit("4");
        reveal_strlit("5");
        reveal_strlit("6");
        reveal_strlit("7");
        reveal_strlit("8");
        reveal_strlit("9");
        reveal_strlit("a");
        reveal_strlit("b");
        reveal_strlit("c");
        reveal_strlit("d");
        reveal_strlit("e");
        reveal_strlit("f");
    }
    let text: &str = match d {
        0 => "0",
        1 => "1",
        2 => "2",
        3 => "3",
        4 => "4",
        5 => "5",
        6 => "6",
        7 => "7",
        8 => "8",
        9 => "9",
        10 => "a",
        11 => "b",
        12 => "c",
        13 => "d",
        14 => "e",
        _ => "f",
    };
    assert(text@ =~= digit(d as int));
    out.append(text);
}

pub(crate) fn push_decimal(out: &mut String, n: u64)
    ensures
        final(out)@ == old(out)@ + decimal(n as nat),
    decreases n,
{
    if n >= 10 {
        push_decimal(out, n / 10);
    }
    push_digit(out, n % 10);
    assert(out@ =~= old(out)@ + decimal(n as nat));
}

pub(crate) fn push_signed(out: &mut String, n: i32)
    ensures
        final(out)@ == old(out)@ + signed(n as int),
{
    if n < 0 {
        proof {
            reveal_strlit("-");
        }
        out.append("-");
        assert(out@ =~= old(out)@ + seq!['-']);
        push_decimal(out, (-(n as i64)) as u64);
        assert(out@ =~= old(out)@ + signed(n as int));
    } else {
        push_decimal(out, n as u64);
    }
}

pub(crate) fn push_hex(out: &mut String, n: u64, width: u64)
    ensures
        final(out)@ == old(out)@ + hex(n as nat, width as nat),
    decreases n + width,
{
    if n >= 16 || width > 1 {
        let less: u64 = if width == 0 {
            0
        } else {
            width - 1
        };
        push_hex(out, n / 16, less);
    }
    push_digit(out, n % 16);
    assert(out@ =~= old(out)@ + hex(n as nat, width as nat));
}

pub(crate) fn push_list(out: &mut String, list: &Vec<usize>)
    ensures
        final(out)@ == old(out)@ + comma_list(list@),
{
    let mut k: usize = 0;
    assert(list@.take(0) =~= Seq::<usize>::empty());
    assert(out@ =~= old(out)@ + comma_list(list@.take(0)));
    while k < list.len()
        invariant
            k <= list@.len(),
            out@ == old(out)@ + comma_list(list@.take(k as int)),
        decreases list@.len() - k,
    {
        let ghost t = list@.take(k + 1);
        assert(t.drop_last() =~= list@.take(k as int));
        assert(t.last() == list@[k as int]);
        if k > 0 {
            proof {
                reveal_strlit(", ");
            }
            out.append(", ");
            assert(", "@ =~= seq![',', ' ']);
        }
        push_decimal(out, list[k] as u64);
        assert(out@ =~= old(out)@ + comma_list(t));
        k = k + 1;
    }
    assert(list@.take(list@.len() as int) =~= list@);
}

} // verus!
