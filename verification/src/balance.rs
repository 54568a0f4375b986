//! How many marks a player can hold, and what follows for levels and scores.
use vstd::prelude::*;

use crate::board::{
    even_square, is_player, mark, HW, INF, NON_PLAYABLE_SQUARE, PLAYABLE_SQUARE, PLAYER_0_MARK,
    PLAYER_1_MARK, SQUARES,
};
use crate::game::playable_even;
use crate::levels::{lemma_chain, lemma_exact_local, levels_exact};
use crate::moves::moved;
use crate::score::{
    cell_point, lemma_score_by_level, lemma_score_points, lemma_uniform, score_of, ANTI, MAIN,
};
use crate::sums::{
    lemma_sum_change, lemma_sum_le, lemma_sum_lt, lemma_sum_nonneg, lemma_sum_upper, sum_to, unit,
};

verus! {

/// One if square `i` holds `v`, else zero.
pub open spec fn holding(cells: Seq<i8>, v: i8, i: int) -> int {
    unit(cells[i] == v)
}

/// How many squares hold `v`.
pub open spec fn count_of(cells: Seq<i8>, v: i8) -> int {
    sum_to(
        |i: int| holding(cells, v, i),
        HW as nat,
    )
}

/// What a square weighs in a player's share of the board: two if it is the player's, one if
/// anyone may still take it.
pub open spec fn share_weight(v: i8, p: i8) -> int {
    if v == p {
        2
    } else if v == PLAYABLE_SQUARE {
        1
    } else {
        0
    }
}

/// Twice the marks of `p` and the squares still open.
pub open spec fn share(cells: Seq<i8>, p: i8) -> int {
    sum_to(|i: int| share_weight(cells[i], p), HW as nat)
}

/// Neither player has, or can come to have, more than half of the playable squares.
pub open spec fn halved(cells: Seq<i8>) -> bool {
    share(cells, PLAYER_0_MARK) <= SQUARES && share(cells, PLAYER_1_MARK) <= SQUARES
}

/// The opening position: every even square playable, nothing played.
pub open spec fn opening() -> Seq<i8> {
    Seq::new(
        HW as nat,
        |i: int|
            if even_square(i) {
                PLAYABLE_SQUARE
            } else {
                NON_PLAYABLE_SQUARE
            },
    )
}

proof fn lemma_even_half_sum(m: nat)
    requires
        m <= SQUARES,
    ensures
        sum_to(|i: int| share_weight(opening()[i], PLAYER_0_MARK), (2 * m) as nat) == m,
        sum_to(|i: int| share_weight(opening()[i], PLAYER_1_MARK), (2 * m) as nat) == m,
    decreases m,
{
    if m > 0 {
        lemma_even_half_sum((m - 1) as nat);
        reveal_with_fuel(sum_to, 3);
        let a = 2 * m - 2;
        assert(even_square(a) != even_square(a + 1));
        assert((2 * (m - 1)) as nat == a);
    }
}

/// The opening position is halved.
pub proof fn lemma_opening_halved()
    ensures
        halved(opening()),
{
    lemma_even_half_sum(SQUARES as nat);
}

/// A legal move keeps the board halved: a pair of marks takes two open squares, and a
/// collision only takes.
pub proof fn lemma_move_halved(cells: Seq<i8>, i0: int, i1: int)
    requires
        cells.len() == HW,
        0 <= i0 < HW,
        0 <= i1 < HW,
        i0 == i1 || (cells[i0] == PLAYABLE_SQUARE && cells[i1] == PLAYABLE_SQUARE),
        halved(cells),
    ensures
        halved(moved(cells, i0, i1)),
{
    lemma_move_share(cells, i0, i1, PLAYER_0_MARK);
    lemma_move_share(cells, i0, i1, PLAYER_1_MARK);
}

proof fn lemma_move_share(cells: Seq<i8>, i0: int, i1: int, p: i8)
    requires
        is_player(p),
        cells.len() == HW,
        0 <= i0 < HW,
        0 <= i1 < HW,
        i0 == i1 || (cells[i0] == PLAYABLE_SQUARE && cells[i1] == PLAYABLE_SQUARE),
    ensures
        share(moved(cells, i0, i1), p) <= share(cells, p),
{
    let f = |i: int| share_weight(cells[i], p);
    let g = |i: int| share_weight(moved(cells, i0, i1)[i], p);
    if i0 == i1 {
        assert forall|i: int| 0 <= i < HW implies #[trigger] g(i) <= f(i) by {}
        lemma_sum_le(g, f, HW as nat);
    } else {
        let one = cells.update(i0, PLAYER_0_MARK);
        let h = |i: int| share_weight(one[i], p);
        lemma_sum_change(f, h, HW as nat, i0);
        lemma_sum_change(h, g, HW as nat, i1);
    }
}

/// A legal move takes at least one playable square, so a game from the opening has at most as
/// many moves as there are playable squares.
pub proof fn lemma_move_takes(cells: Seq<i8>, i0: int, i1: int)
    requires
        cells.len() == HW,
        0 <= i0 < HW,
        0 <= i1 < HW,
        cells[i0] == PLAYABLE_SQUARE,
        cells[i1] == PLAYABLE_SQUARE,
    ensures
        count_of(moved(cells, i0, i1), PLAYABLE_SQUARE) < count_of(cells, PLAYABLE_SQUARE),
{
    let b = moved(cells, i0, i1);
    let f = |i: int| holding(b, PLAYABLE_SQUARE, i);
    let g = |i: int| holding(cells, PLAYABLE_SQUARE, i);
    assert forall|i: int| 0 <= i < HW implies #[trigger] f(i) <= g(i) by {}
    assert(f(i0) == 0);
    lemma_sum_lt(f, g, HW as nat, i0);
}

/// A halved board has at most as many open squares as there are playable ones.
pub proof fn lemma_open_squares(cells: Seq<i8>)
    requires
        halved(cells),
    ensures
        0 <= count_of(cells, PLAYABLE_SQUARE) <= SQUARES,
{
    let f = |i: int| holding(cells, PLAYABLE_SQUARE, i);
    let g = |i: int| share_weight(cells[i], PLAYER_0_MARK);
    lemma_sum_nonneg(f, HW as nat);
    lemma_sum_le(f, g, HW as nat);
}

/// A board whose playable squares are all even has at most as many of them as there are even
/// squares.
pub proof fn lemma_playable_bound(cells: Seq<i8>)
    requires
        playable_even(cells),
    ensures
        0 <= count_of(cells, PLAYABLE_SQUARE) <= SQUARES,
{
    let o = opening();
    let f = |i: int| holding(cells, PLAYABLE_SQUARE, i);
    let g = |i: int| share_weight(o[i], PLAYER_0_MARK);
    lemma_opening_halved();
    lemma_sum_nonneg(f, HW as nat);
    assert forall|i: int| 0 <= i < HW implies #[trigger] f(i) <= g(i) by {}
    lemma_sum_le(f, g, HW as nat);
    assert(share(o, PLAYER_0_MARK) == sum_to(g, HW as nat));
}

/// A player holds at most a quarter of the board.
pub proof fn lemma_quarter(cells: Seq<i8>, p: i8)
    requires
        is_player(p),
        halved(cells),
    ensures
        0 <= count_of(cells, p) <= HW / 4,
{
    let f = |i: int| holding(cells, p, i);
    let g = |i: int| share_weight(cells[i], p);
    lemma_sum_nonneg(f, HW as nat);
    lemma_twice(f, g, HW as nat);
}

proof fn lemma_twice(f: spec_fn(int) -> int, g: spec_fn(int) -> int, n: nat)
    requires
        forall|i: int| 0 <= i < n ==> 2 * #[trigger] f(i) <= g(i),
    ensures
        2 * sum_to(f, n) <= sum_to(g, n),
    decreases n,
{
    if n > 0 {
        lemma_twice(f, g, (n - 1) as nat);
        assert(2 * f(n - 1) <= g(n - 1));
    }
}

/// A player scores at most two points for each mark: one in each family.
pub proof fn lemma_score_marks(cells: Seq<i8>, level: Seq<u8>, p: i8)
    requires
        is_player(p),
        levels_exact(cells, level),
    ensures
        0 <= score_of(cells, p) <= 2 * count_of(cells, p),
{
    assert forall|x: int| #[trigger] mark(cells, p, x) implies crate::levels::is_level(
        cells,
        x,
        level[x],
    ) by {}
    crate::score::lemma_score_bound(cells, p);
    lemma_uniform(cells, level, p);
    lemma_score_by_level(cells, level, p);
    lemma_score_points(cells, level, p);
    let f = |i: int| holding(cells, p, i);
    lemma_sum_le(|x: int| cell_point(cells, level, p, x, ANTI as int), f, HW as nat);
    lemma_sum_le(|x: int| cell_point(cells, level, p, x, MAIN as int), f, HW as nat);
}

/// On a halved board neither player scores more than there are playable squares.
pub proof fn lemma_score_halved(cells: Seq<i8>, level: Seq<u8>, p: i8)
    requires
        is_player(p),
        levels_exact(cells, level),
        halved(cells),
    ensures
        0 <= score_of(cells, p) <= SQUARES,
{
    lemma_quarter(cells, p);
    lemma_score_marks(cells, level, p);
}

/// A list of distinct cells that all hold `v` is no longer than the count of `v`.
proof fn lemma_list_count(cells: Seq<i8>, v: i8, list: Seq<int>)
    requires
        list.no_duplicates(),
        forall|j: int| 0 <= j < list.len() ==> mark(cells, v, #[trigger] list[j]),
    ensures
        list.len() <= count_of(cells, v),
{
    let f = |i: int| unit(list.contains(i));
    let g = |i: int| holding(cells, v, i);
    lemma_list_len_sum(list);
    assert forall|i: int| 0 <= i < HW implies #[trigger] f(i) <= g(i) by {
        if list.contains(i) {
            let j = list.index_of(i);
            assert(mark(cells, v, list[j]));
        }
    }
    lemma_sum_le(f, g, HW as nat);
}

proof fn lemma_list_len_sum(list: Seq<int>)
    requires
        list.no_duplicates(),
        forall|j: int| 0 <= j < list.len() ==> 0 <= #[trigger] list[j] < HW,
    ensures
        sum_to(
            |i: int| unit(list.contains(i)),
            HW as nat,
        ) == list.len(),
    decreases list.len(),
{
    let g = |i: int| unit(list.contains(i));
    if list.len() == 0 {
        lemma_sum_upper(g, HW as nat, 0);
        lemma_sum_nonneg(g, HW as nat);
    } else {
        let rest = list.drop_last();
        let k = list.last();
        assert forall|j: int| 0 <= j < rest.len() implies 0 <= #[trigger] rest[j] < HW by {
            assert(rest[j] == list[j]);
        }
        assert(0 <= list[list.len() - 1] < HW);
        lemma_list_len_sum(rest);
        let f = |i: int| unit(rest.contains(i));
        assert forall|i: int| 0 <= i < HW && i != k implies #[trigger] f(i) == g(i) by {
            if list.contains(i) {
                let j = list.index_of(i);
                assert(rest[j] == i);
            }
            if rest.contains(i) {
                let j = rest.index_of(i);
                assert(list[j] == i);
            }
        }
        assert(list.contains(k));
        if rest.contains(k) {
            let j = rest.index_of(k);
            assert(list[j] == list[list.len() - 1]);
        }
        lemma_sum_change(f, g, HW as nat, k);
    }
}

/// A level is below the number of marks of its player: a shortest route visits each of its
/// marks once. So in a game from the opening no level reaches a quarter of the board.
pub proof fn lemma_level_below_marks(cells: Seq<i8>, level: Seq<u8>, p: i8, x: int)
    requires
        is_player(p),
        levels_exact(cells, level),
        mark(cells, p, x),
        level[x] != INF,
    ensures
        level[x] < count_of(cells, p),
        halved(cells) ==> level[x] < HW / 4,
{
    assert forall|y: int| #[trigger] mark(cells, p, y) implies crate::levels::is_level(
        cells,
        y,
        level[y],
    ) by {}
    lemma_exact_local(cells, level, p);
    let s = lemma_chain(cells, level, p, x);
    assert forall|a: int, b: int| 0 <= a < s.len() && 0 <= b < s.len() && a != b implies s[a]
        != s[b] by {
        assert(mark(cells, p, s[a]) && mark(cells, p, s[b]));
    }
    lemma_list_count(cells, p, s);
    if halved(cells) {
        lemma_quarter(cells, p);
    }
}

} // verus!
