//! The rules of the game, in rows and columns.
use vstd::prelude::*;

use crate::board::{
    border, is_player, mark, nb, HW, INF, NON_PLAYABLE_SQUARE, PLAYABLE_SQUARE, PLAYER_0_MARK,
    PLAYER_1_MARK, REMOVED_SQUARE, SQUARES,
};
use crate::exchange::{legal_square, square_index};
use crate::game::{may_play_on, spread_out, Game, Scratch};
use crate::incremental::check_invariants;
use crate::legal::{
    cell_of, count_below, holds, legal_cell, lemma_bit_of, lemma_cell_of, lemma_count_mono,
    LEGAL_WORDS,
};
use crate::levels::{exact_for, is_level, live, reaches};
use crate::mcts::arena::Node;
use crate::moves::moved;
use crate::repair::rebuild_levels;
use crate::score::{
    cell_point, lemma_score_by_level, lemma_score_points, lemma_uniform, linked, score_of, ANTI,
    MAIN,
};
use crate::sums::{lemma_sum_eq, sum_to, unit};

verus! {

// ------------------------------------------------------------------------------------ moves

/// Diagonal neighbours are one row and one column apart.
pub(crate) proof fn lemma_nb_apart(i: int, x: int)
    requires
        0 <= i < HW,
        0 <= x < HW,
    ensures
        (exists|d: int| 0 <= d < 4 && x == #[trigger] nb(i, d)) <==> (x / 16 - i / 16 == 1 || x
            / 16 - i / 16 == -1) && (x % 16 - i % 16 == 1 || x % 16 - i % 16 == -1),
{
    reveal(nb);
    let dr = x / 16 - i / 16;
    let dc = x % 16 - i % 16;
    if (dr == 1 || dr == -1) && (dc == 1 || dc == -1) {
        let d = (if dr == 1 {
            2int
        } else {
            0
        }) + (if dc == 1 {
            1int
        } else {
            0
        });
        assert(nb(i, d) == x);
    }
    if exists|d: int| 0 <= d < 4 && x == #[trigger] nb(i, d) {
        let d = choose|d: int| 0 <= d < 4 && x == #[trigger] nb(i, d);
        assert(0 <= d < 4 && x == nb(i, d));
    }
}

/// What a move writes: where the players choose one square, that square and the squares one
/// row and one column from it are removed, whatever they hold; where they choose two, each
/// holds its player's mark. Every other cell stays as it was.
pub proof fn lemma_moved_cell(cells: Seq<i8>, i0: int, i1: int, x: int)
    requires
        cells.len() == HW,
        0 <= i0 < HW,
        0 <= i1 < HW,
        0 <= x < HW,
    ensures
        moved(cells, i0, i1)[x] == (if i0 == i1 {
            if x == i0 || (x / 16 - i0 / 16 == 1 || x / 16 - i0 / 16 == -1) && (x % 16 - i0 % 16
                == 1 || x % 16 - i0 % 16 == -1) {
                REMOVED_SQUARE
            } else {
                cells[x]
            }
        } else if x == i0 {
            PLAYER_0_MARK
        } else if x == i1 {
            PLAYER_1_MARK
        } else {
            cells[x]
        }),
        moved(cells, i0, i1).len() == HW,
{
    lemma_nb_apart(i0, x);
}

/// Playing two squares: a mark for each player, or a collision that removes the square and the
/// four diagonally next to it. The game is over exactly if no square is left to play, and the
/// players' masks name the squares that are.
pub proof fn lemma_plays(g: &mut Game, i0: usize, i1: usize, s: &mut Scratch, x: int)
    requires
        call_ensures(Game::action_step, (g, i0, i1, s), ()),
        i0 < HW,
        i1 < HW,
        0 <= x < HW,
    ensures
        final(g).cells@[x] == (if i0 == i1 {
            if x == i0 || (x / 16 - i0 as int / 16 == 1 || x / 16 - i0 as int / 16 == -1) && (x
                % 16 - i0 as int % 16 == 1 || x % 16 - i0 as int % 16 == -1) {
                REMOVED_SQUARE
            } else {
                old(g).cells@[x]
            }
        } else if x == i0 {
            PLAYER_0_MARK
        } else if x == i1 {
            PLAYER_1_MARK
        } else {
            old(g).cells@[x]
        }),
        final(g).move_count == old(g).move_count + 1,
        final(g).finished ==> final(g).cells@[x] != PLAYABLE_SQUARE,
        !final(g).finished ==> exists|y: int|
            0 <= y < HW && #[trigger] final(g).cells@[y] == PLAYABLE_SQUARE,
{
    lemma_moved_cell(old(g).cells@, i0 as int, i1 as int, x);
}

/// The opening position: squares with an even sum of row and column are open, and no other
/// cell is.
pub proof fn lemma_opens(g: Game, x: int)
    requires
        call_ensures(Game::new, (), g),
        0 <= x < HW,
    ensures
        g.cells@[x] == (if (x / 16 + x % 16) % 2 == 0 {
            PLAYABLE_SQUARE
        } else {
            NON_PLAYABLE_SQUARE
        }),
        g.scores@[0] == 0,
        g.scores@[1] == 0,
        g.move_count == 0,
        !g.finished,
{
}

// ----------------------------------------------------------------------------------- legality

/// A player may play the open squares, and before the first move only those of the player's
/// own half: the eight columns on the left for player 0, the eight on the right for player 1.
/// Bit `j + 8 r` of the mask is the square of row `r` in its `j`th pair of columns.
pub proof fn lemma_may_play(g: Game, player: usize, w: [u64; LEGAL_WORDS], r: int, j: int)
    requires
        g.wf(),
        call_ensures(Game::legal_moves, (&g, player), w),
        player < 2,
        0 <= r < 10,
        0 <= j < 8,
    ensures
        holds(w@, 8 * r + j) <==> g.cells@[16 * r + 2 * j + r % 2] == PLAYABLE_SQUARE && (
        g.move_count > 0 || player == 0 && 2 * j + r % 2 < 8 || player == 1 && 2 * j + r % 2 >= 8),
{
    let k = 8 * r + j;
    assert(k / 8 == r && k % 8 == j);
    assert(cell_of(k) == 16 * r + 2 * j + r % 2);
    assert(cell_of(k) % 16 == 2 * j + r % 2);
    assert(holds(w@, k) <==> k < SQUARES && g.may_play(cell_of(k), player as int));
}

/// A cell may be played exactly if it is open and, before the first move, in the player's half.
pub proof fn lemma_bit_held(g: Game, i: usize, player: usize, r: bool)
    requires
        call_ensures(Game::holds_bit, (&g, i, player), r),
        i < HW,
        player < 2,
    ensures
        r <==> g.cells@[i as int] == PLAYABLE_SQUARE && (g.move_count > 0 || player == 0 && i % 16
            < 8 || player == 1 && i % 16 >= 8),
{
}

/// The number of moves is the number of cells that are open and in the player's half where the
/// half matters.
pub proof fn lemma_moves_counted(g: Game, player: usize, n: u32)
    requires
        call_ensures(Game::legal_count, (&g, player), n),
        player < 2,
    ensures
        n == sum_to(
            |k: int|
                {
                    let i = 2 * k + (k / 8) % 2;
                    unit(
                        g.cells@[i] == PLAYABLE_SQUARE && (g.move_count > 0 || player == 0 && i
                            % 16 < 8 || player == 1 && i % 16 >= 8),
                    )
                },
            80,
        ),
{
    let first = g.move_count == 0;
    let f = |j: int|
        unit(may_play_on(g.cells@, first, cell_of(j), player as int));
    let h = |k: int|
        {
            let i = 2 * k + (k / 8) % 2;
            unit(
                g.cells@[i] == PLAYABLE_SQUARE && (g.move_count > 0 || player == 0 && i % 16 < 8
                    || player == 1 && i % 16 >= 8),
            )
        };
    assert forall|k: int| 0 <= k < 80 implies #[trigger] f(k) == h(k) by {
        lemma_cell_of(k);
    }
    lemma_sum_eq(f, h, 80);
}

/// The squares of a mask come in board order: a later one stands later on the board.
pub proof fn lemma_selected_order(
    w: [u64; LEGAL_WORDS],
    k: u32,
    i: usize,
    m: u32,
    j: usize,
)
    requires
        call_ensures(Game::select, (w, k), i),
        call_ensures(Game::select, (w, m), j),
        k < m,
    ensures
        i < j,
        holds(w@, i as int / 2),
        holds(w@, j as int / 2),
{
    let a = choose|b: int|
        0 <= b < 128 && i == cell_of(b) && #[trigger] holds(w@, b) && count_below(w@, b as nat)
            == k;
    let c = choose|b: int|
        0 <= b < 128 && j == cell_of(b) && #[trigger] holds(w@, b) && count_below(w@, b as nat)
            == m;
    if c <= a {
        lemma_count_mono(w@, c as nat, a as nat);
    }
    assert(cell_of(a) / 2 == a && cell_of(c) / 2 == c);
}

// ------------------------------------------------------------------------------------ results

/// A player has won exactly with the strictly higher score and lost exactly with the strictly
/// lower one; level scores are a draw.
pub proof fn lemma_winner(g: Game, v: [i8; 2], player: int)
    requires
        call_ensures(Game::terminal_values, (&g,), v),
        0 <= player < 2,
    ensures
        v@[player] == 1 <==> g.scores@[player] > g.scores@[1 - player],
        v@[player] == -1 <==> g.scores@[player] < g.scores@[1 - player],
        v@[player] == 0 <==> g.scores@[player] == g.scores@[1 - player],
{
}

/// The same of the game that a node of a search holds.
pub proof fn lemma_node_winner<S>(node: Node<S>, v: [i8; 2], player: int)
    requires
        call_ensures(Node::<S>::terminal_values, (&node,), v),
        0 <= player < 2,
    ensures
        v@[player] == 1 <==> node.game.scores@[player] > node.game.scores@[1 - player],
        v@[player] == -1 <==> node.game.scores@[player] < node.game.scores@[1 - player],
        v@[player] == 0 <==> node.game.scores@[player] == node.game.scores@[1 - player],
{
}

// ------------------------------------------------------------------------------------ scoring

/// Is `path` a walk over marks of `p`, one row and one column at a time, from `x` to the edge
/// of the board?
pub open spec fn walk_to_edge(cells: Seq<i8>, p: i8, x: int, path: Seq<int>) -> bool {
    &&& path.len() > 0
    &&& path[0] == x
    &&& forall|n: int|
        0 <= n < path.len() ==> 0 <= #[trigger] path[n] < HW && cells[path[n]] == p
    &&& forall|n: int|
        0 < n < path.len() ==> {
            let dr = #[trigger] path[n] / 16 - path[n - 1] / 16;
            let dc = path[n] % 16 - path[n - 1] % 16;
            (dr == 1 || dr == -1) && (dc == 1 || dc == -1)
        }
    &&& (path.last() / 16 == 0 || path.last() / 16 == 9 || path.last() % 16 == 0 || path.last()
        % 16 == 15)
}

/// A route of at most `k` steps is a walk of at most `k + 1` cells.
proof fn lemma_route_walk(cells: Seq<i8>, p: i8, x: int, k: nat) -> (path: Seq<int>)
    requires
        reaches(cells, p, x, k),
    ensures
        walk_to_edge(cells, p, x, path),
        path.len() <= k + 1,
    decreases k,
{
    if border(x) {
        seq![x]
    } else {
        let d = choose|d: int| 0 <= d < 4 && reaches(cells, p, #[trigger] nb(x, d), (k - 1) as nat);
        let y = nb(x, d);
        let rest = lemma_route_walk(cells, p, y, (k - 1) as nat);
        lemma_nb_apart(x, y);
        let path = seq![x] + rest;
        assert(path.len() == rest.len() + 1);
        assert forall|n: int| 0 <= n < path.len() implies 0 <= #[trigger] path[n] < HW
            && cells[path[n]] == p by {
            if n > 0 {
                assert(path[n] == rest[n - 1]);
            }
        }
        assert forall|n: int| 0 < n < path.len() implies {
            let dr = #[trigger] path[n] / 16 - path[n - 1] / 16;
            let dc = path[n] % 16 - path[n - 1] % 16;
            (dr == 1 || dr == -1) && (dc == 1 || dc == -1)
        } by {
            assert(path[n] == rest[n - 1]);
            if n > 1 {
                assert(path[n - 1] == rest[n - 2]);
            }
        }
        assert(path.last() == rest.last());
        path
    }
}

/// A walk of `n` cells is a route of `n - 1` steps.
proof fn lemma_walk_route(cells: Seq<i8>, p: i8, x: int, path: Seq<int>)
    requires
        walk_to_edge(cells, p, x, path),
    ensures
        reaches(cells, p, x, (path.len() - 1) as nat),
    decreases path.len(),
{
    assert(0 <= path[0] < HW && cells[path[0]] == p);
    if path.len() > 1 {
        let y = path[1];
        let rest = path.skip(1);
        assert forall|n: int| 0 <= n < rest.len() implies 0 <= #[trigger] rest[n] < HW
            && cells[rest[n]] == p by {
            assert(rest[n] == path[n + 1]);
        }
        assert forall|n: int| 0 < n < rest.len() implies {
            let dr = #[trigger] rest[n] / 16 - rest[n - 1] / 16;
            let dc = rest[n] % 16 - rest[n - 1] % 16;
            (dr == 1 || dr == -1) && (dc == 1 || dc == -1)
        } by {
            assert(rest[n] == path[n + 1]);
            assert(rest[n - 1] == path[n]);
        }
        assert(rest.last() == path.last());
        lemma_walk_route(cells, p, y, rest);
        assert(0 <= path[1] < HW);
        lemma_nb_apart(x, y);
        let d = choose|d: int| 0 <= d < 4 && y == #[trigger] nb(x, d);
        assert(reaches(cells, p, nb(x, d), (path.len() - 1 - 1) as nat));
    }
}

/// A mark's level is the length of the shortest walk over own marks from it to the edge of the
/// board, and [`INF`] where there is none. A cell without a mark has no level.
pub proof fn lemma_level_is_distance(g: Game, x: int, path: Seq<int>)
    requires
        g.wf(),
        0 <= x < HW,
    ensures
        g.levels@[x] != INF ==> exists|best: Seq<int>|
            #[trigger] walk_to_edge(g.cells@, g.cells@[x], x, best) && best.len() == g.levels@[x]
                + 1,
        (g.cells@[x] == PLAYER_0_MARK || g.cells@[x] == PLAYER_1_MARK) && walk_to_edge(
            g.cells@,
            g.cells@[x],
            x,
            path,
        ) ==> g.levels@[x] != INF && g.levels@[x] + 1 <= path.len(),
        g.cells@[x] != PLAYER_0_MARK && g.cells@[x] != PLAYER_1_MARK ==> g.levels@[x] == INF,
{
    let l = g.levels@[x];
    let p = g.cells@[x];
    assert(is_level(g.cells@, x, l));
    if l != INF {
        let best = lemma_route_walk(g.cells@, p, x, l as nat);
        lemma_walk_route(g.cells@, p, x, best);
        assert(best.len() == l + 1);
    }
    if is_player(p) && walk_to_edge(g.cells@, p, x, path) {
        lemma_walk_route(g.cells@, p, x, path);
        assert(live(g.cells@, p, x));
    }
}

/// Is `l` how far the mark on `x` is from the edge of the board: the number of steps of the
/// shortest walk there over own marks, and 255 where there is no walk, or no mark?
pub open spec fn is_distance(cells: Seq<i8>, x: int, l: u8) -> bool {
    let p = cells[x];
    if p != PLAYER_0_MARK && p != PLAYER_1_MARK {
        l == 255
    } else if l == 255 {
        forall|path: Seq<int>| !#[trigger] walk_to_edge(cells, p, x, path)
    } else {
        &&& exists|path: Seq<int>| #[trigger]
            walk_to_edge(cells, p, x, path) && path.len() == l + 1
        &&& forall|path: Seq<int>| #[trigger]
            walk_to_edge(cells, p, x, path) ==> path.len() >= l + 1
    }
}

/// Levels are distances.
pub(crate) proof fn lemma_distance(cells: Seq<i8>, x: int, l: u8)
    requires
        0 <= x < HW,
    ensures
        is_level(cells, x, l) <==> is_distance(cells, x, l),
{
    let p = cells[x];
    if is_player(p) {
        assert forall|path: Seq<int>| #[trigger] walk_to_edge(cells, p, x, path) implies reaches(
            cells,
            p,
            x,
            (path.len() - 1) as nat,
        ) && live(cells, p, x) by {
            lemma_walk_route(cells, p, x, path);
        }
        assert forall|k: nat| #[trigger] reaches(cells, p, x, k) implies exists|path: Seq<int>|
            #[trigger] walk_to_edge(cells, p, x, path) && path.len() <= k + 1 by {
            let path = lemma_route_walk(cells, p, x, k);
            assert(walk_to_edge(cells, p, x, path));
        }
        if l != INF && is_level(cells, x, l) {
            let path = choose|path: Seq<int>| #[trigger]
                walk_to_edge(cells, p, x, path) && path.len() <= l + 1;
            assert(path.len() == l + 1);
        }
        if l != INF && is_distance(cells, x, l) {
            assert forall|k: nat| k < l implies !reaches(cells, p, x, k) by {
                if reaches(cells, p, x, k) {
                    let path = choose|path: Seq<int>| #[trigger]
                        walk_to_edge(cells, p, x, path) && path.len() <= k + 1;
                    assert(path.len() >= l + 1);
                }
            }
        }
    }
}

/// A point for a mark of `p` that has a way to the edge and an own mark next to it along the
/// diagonal that falls to the right.
pub open spec fn falling_point(cells: Seq<i8>, level: Seq<u8>, p: i8, x: int) -> int {
    unit(
        cells[x] == p && level[x] != 255 && (x / 16 > 0 && x % 16 > 0 && cells[x - 17] == p || x
            / 16 < 9 && x % 16 < 15 && cells[x + 17] == p),
    )
}

/// The same along the diagonal that rises to the right.
pub open spec fn rising_point(cells: Seq<i8>, level: Seq<u8>, p: i8, x: int) -> int {
    unit(
        cells[x] == p && level[x] != 255 && (x / 16 > 0 && x % 16 < 15 && cells[x - 15] == p || x
            / 16 < 9 && x % 16 > 0 && cells[x + 15] == p),
    )
}

/// All points of `p`.
pub open spec fn points(cells: Seq<i8>, level: Seq<u8>, p: i8) -> int {
    sum_to(|x: int| falling_point(cells, level, p, x), 160) + sum_to(
        |x: int| rising_point(cells, level, p, x),
        160,
    )
}

/// The score is those points.
pub(crate) proof fn lemma_points(c: Seq<i8>, l: Seq<u8>, p: i8)
    requires
        is_player(p),
        c.len() == HW,
        l.len() == HW,
        exact_for(c, l, p),
    ensures
        score_of(c, p) == points(c, l, p),
{
    lemma_score_by_level(c, l, p);
    lemma_uniform(c, l, p);
    lemma_score_points(c, l, p);
    let main = |x: int| falling_point(c, l, p, x);
    let anti = |x: int| rising_point(c, l, p, x);
    let f = |x: int| cell_point(c, l, p, x, MAIN as int);
    let h = |x: int| cell_point(c, l, p, x, ANTI as int);
    assert forall|x: int| 0 <= x < 160 implies #[trigger] f(x) == main(x) by {
        lemma_linked(c, p, x);
    }
    assert forall|x: int| 0 <= x < 160 implies #[trigger] h(x) == anti(x) by {
        lemma_linked(c, p, x);
    }
    lemma_sum_eq(f, main, 160);
    lemma_sum_eq(h, anti, 160);
}

/// A board passes the check exactly if every mark's level is its distance and both scores are
/// the players' points.
pub proof fn lemma_check_passes(cells: &[i8], level: &[u8], score: &[i32], r: Result<(), String>)
    requires
        call_ensures(check_invariants, (cells, level, score), r),
        cells@.len() == HW,
        level@.len() == HW,
    ensures
        r is Ok <==> {
            &&& forall|x: int|
                0 <= x < HW && (cells@[x] == PLAYER_0_MARK || cells@[x] == PLAYER_1_MARK)
                    ==> is_distance(cells@, x, #[trigger] level@[x])
            &&& score@[0] == points(cells@, level@, PLAYER_0_MARK)
            &&& score@[1] == points(cells@, level@, PLAYER_1_MARK)
        },
{
    lemma_sound(cells@, level@);
}

/// Exact levels are distances, and then scores are points.
pub(crate) proof fn lemma_sound(c: Seq<i8>, l: Seq<u8>)
    requires
        c.len() == HW,
        l.len() == HW,
    ensures
        exact_for(c, l, PLAYER_0_MARK) && exact_for(c, l, PLAYER_1_MARK) <==> forall|x: int|
            0 <= x < HW && (c[x] == PLAYER_0_MARK || c[x] == PLAYER_1_MARK) ==> is_distance(
                c,
                x,
                #[trigger] l[x],
            ),
        exact_for(c, l, PLAYER_0_MARK) ==> score_of(c, PLAYER_0_MARK) == points(
            c,
            l,
            PLAYER_0_MARK,
        ),
        exact_for(c, l, PLAYER_1_MARK) ==> score_of(c, PLAYER_1_MARK) == points(
            c,
            l,
            PLAYER_1_MARK,
        ),
{
    assert forall|x: int| 0 <= x < HW implies (is_level(c, x, #[trigger] l[x]) <==> is_distance(
        c,
        x,
        l[x],
    )) by {
        lemma_distance(c, x, l[x]);
    }
    if exact_for(c, l, PLAYER_0_MARK) {
        lemma_points(c, l, PLAYER_0_MARK);
    }
    if exact_for(c, l, PLAYER_1_MARK) {
        lemma_points(c, l, PLAYER_1_MARK);
    }
    if exact_for(c, l, PLAYER_0_MARK) && exact_for(c, l, PLAYER_1_MARK) {
        assert forall|x: int|
            0 <= x < HW && (c[x] == PLAYER_0_MARK || c[x] == PLAYER_1_MARK) implies is_distance(
            c,
            x,
            #[trigger] l[x],
        ) by {
            if c[x] == PLAYER_0_MARK {
                assert(mark(c, PLAYER_0_MARK, x));
            } else {
                assert(mark(c, PLAYER_1_MARK, x));
            }
            assert(is_level(c, x, l[x]));
        }
    }
    if forall|x: int|
        0 <= x < HW && (c[x] == PLAYER_0_MARK || c[x] == PLAYER_1_MARK) ==> is_distance(
            c,
            x,
            #[trigger] l[x],
        ) {
        assert forall|x: int| #[trigger] mark(c, PLAYER_0_MARK, x) implies is_level(
            c,
            x,
            l[x],
        ) by {
            assert(is_distance(c, x, l[x]));
        }
        assert forall|x: int| #[trigger] mark(c, PLAYER_1_MARK, x) implies is_level(
            c,
            x,
            l[x],
        ) by {
            assert(is_distance(c, x, l[x]));
        }
    }
}

/// Own neighbours along one diagonal, by coordinates.
proof fn lemma_linked(cells: Seq<i8>, p: i8, x: int)
    requires
        0 <= x < HW,
    ensures
        linked(cells, p, x, MAIN as int) <==> (x / 16 > 0 && x % 16 > 0 && cells[x
            - 17] == p || x / 16 < 9 && x % 16 < 15 && cells[x + 17] == p),
        linked(cells, p, x, ANTI as int) <==> (x / 16 > 0 && x % 16 < 15 && cells[x
            - 15] == p || x / 16 < 9 && x % 16 > 0 && cells[x + 15] == p),
{
    reveal(nb);
}

/// A player's score is one point for each mark that has a way to the edge over own marks and an
/// own mark next to it along the one diagonal, and one for each along the other.
pub proof fn lemma_score_counted(g: Game, player: int)
    requires
        g.wf(),
        0 <= player < 2,
    ensures
        ({
            let p = if player == 0 {
                PLAYER_0_MARK
            } else {
                PLAYER_1_MARK
            };
            let c = g.cells@;
            g.scores@[player] == sum_to(
                |x: int|
                    unit(
                        c[x] == p && g.levels@[x] != INF && (x / 16 > 0 && x % 16 > 0 && c[x - 17]
                            == p || x / 16 < 9 && x % 16 < 15 && c[x + 17] == p),
                    ),
                160,
            ) + sum_to(
                |x: int|
                    unit(
                        c[x] == p && g.levels@[x] != INF && (x / 16 > 0 && x % 16 < 15 && c[x - 15]
                            == p || x / 16 < 9 && x % 16 > 0 && c[x + 15] == p),
                    ),
                160,
            )
        }),
{
    let p = if player == 0 {
        PLAYER_0_MARK
    } else {
        PLAYER_1_MARK
    };
    let c = g.cells@;
    let l = g.levels@;
    assert(exact_for(c, l, p)) by {
        assert forall|x: int| #[trigger] mark(c, p, x) implies is_level(c, x, l[x]) by {}
    }
    lemma_score_by_level(c, l, p);
    lemma_uniform(c, l, p);
    lemma_score_points(c, l, p);
    let main = |x: int|
        unit(
            c[x] == p && l[x] != INF && (x / 16 > 0 && x % 16 > 0 && c[x - 17] == p || x / 16 < 9
                && x % 16 < 15 && c[x + 17] == p),
        );
    let anti = |x: int|
        unit(
            c[x] == p && l[x] != INF && (x / 16 > 0 && x % 16 < 15 && c[x - 15] == p || x / 16 < 9
                && x % 16 > 0 && c[x + 15] == p),
        );
    let f = |x: int| cell_point(c, l, p, x, MAIN as int);
    let h = |x: int| cell_point(c, l, p, x, ANTI as int);
    assert forall|x: int| 0 <= x < 160 implies #[trigger] f(x) == main(x) by {
        lemma_linked(c, p, x);
    }
    assert forall|x: int| 0 <= x < 160 implies #[trigger] h(x) == anti(x) by {
        lemma_linked(c, p, x);
    }
    lemma_sum_eq(f, main, 160);
    lemma_sum_eq(h, anti, 160);
}

// ------------------------------------------------------------------------------------- boards

/// Where the squares of a spread out board stand.
proof fn lemma_spread_cell(squares: Seq<i8>, i: int)
    requires
        0 <= i < HW,
    ensures
        spread_out(squares)[i] == (if (i / 16 + i % 16) % 2 == 0 {
            squares[i / 2]
        } else {
            NON_PLAYABLE_SQUARE
        }),
{
}

/// A board adopted square by square, in pairs of cells: the cell of a pair whose row and column
/// have an even sum is the square, and the other is none. Reading the squares back gives the
/// same ones.
#[verifier::spinoff_prover]
pub proof fn lemma_adopts_squares(squares: [i8; SQUARES], s: &mut Scratch, g: Game, i: int)
    requires
        call_ensures(Game::from_squares, (squares, s), g),
        0 <= i < HW,
    ensures
        g.cells@[i] == (if (i / 16 + i % 16) % 2 == 0 {
            squares@[i / 2]
        } else {
            NON_PLAYABLE_SQUARE
        }),
{
    assert(g.cells@ == spread_out(squares@));
    lemma_spread_cell(squares@, i);
}

/// The squares of a board, in pairs of cells.
pub proof fn lemma_reads_squares(g: Game, squares: [i8; SQUARES], i: int)
    requires
        call_ensures(Game::squares, (&g,), squares),
        0 <= i < HW,
        (i / 16 + i % 16) % 2 == 0,
    ensures
        squares@[i / 2] == g.cells@[i],
{
    lemma_bit_of(i);
}

/// A board adopted as it is counts as begun exactly if a cell holds a mark or was removed.
pub proof fn lemma_adopts_cells(cells: [i8; HW], s: &mut Scratch, g: Game, x: int)
    requires
        call_ensures(Game::from_cells, (cells, s), g),
        0 <= x < HW,
    ensures
        g.cells == cells,
        cells@[x] != PLAYABLE_SQUARE && cells@[x] != NON_PLAYABLE_SQUARE ==> g.move_count == 1,
        g.move_count == 0 || g.move_count == 1,
        g.move_count == 1 ==> exists|y: int|
            0 <= y < HW && #[trigger] cells@[y] != PLAYABLE_SQUARE && cells@[y]
                != NON_PLAYABLE_SQUARE,
        g.finished ==> cells@[x] != PLAYABLE_SQUARE,
        !g.finished ==> exists|y: int| 0 <= y < HW && #[trigger] cells@[y] == PLAYABLE_SQUARE,
{
}

/// A cell has a square exactly if its row and column add up to an even number; squares are
/// numbered along the rows, eight to each.
pub proof fn lemma_square_of(board: i32, r: Option<usize>)
    requires
        call_ensures(square_index, (board,), r),
    ensures
        r is Some <==> 0 <= board < HW && (board as int / 16 + board as int % 16) % 2 == 0,
        r matches Some(k) ==> k == 8 * (board as int / 16) + (board as int % 16) / 2,
{
    if let Some(k) = r {
        lemma_cell_of(k as int);
    }
}

/// The same of the squares of a mask.
pub proof fn lemma_square_in_mask(mask: [u64; LEGAL_WORDS], board: i32, r: Option<usize>)
    requires
        call_ensures(legal_square, (mask, board), r),
    ensures
        r is Some ==> 0 <= board < HW && (board as int / 16 + board as int % 16) % 2 == 0,
        r matches Some(k) ==> k == 8 * (board as int / 16) + (board as int % 16) / 2 && holds(
            mask@,
            k as int,
        ),
        r is None && 0 <= board < HW && (board as int / 16 + board as int % 16) % 2 == 0 ==> !holds(
            mask@,
            8 * (board as int / 16) + (board as int % 16) / 2,
        ),
{
    if let Some(k) = r {
        lemma_cell_of(k as int);
    }
}

/// The cell of a square, by rows and columns: eight squares to a row, the odd rows shifted by
/// one.
pub proof fn lemma_cell_of_square(k: usize, i: usize)
    requires
        call_ensures(legal_cell, (k,), i),
        k < SQUARES,
    ensures
        i as int / 16 == k as int / 8,
        i as int % 16 == 2 * (k as int % 8) + (k as int / 8) % 2,
{
    lemma_cell_of(k as int);
}

/// Levels rebuilt from a board are its distances.
pub proof fn lemma_rebuilt(cells: &[i8], level: &mut [u8], s: &mut Scratch, x: int)
    requires
        call_ensures(rebuild_levels, (cells, level, s), ()),
        0 <= x < HW,
    ensures
        is_distance(cells@, x, final(level)@[x]),
        final(s).counters() == old(s).counters(),
{
    assert(is_level(cells@, x, final(level)@[x]));
    lemma_distance(cells@, x, final(level)@[x]);
}

} // verus!
