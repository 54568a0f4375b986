//! What happens to the games of a batch.
use vstd::prelude::*;

use crate::balance::opening;
use crate::board::{
    mark, HW, NON_PLAYABLE_SQUARE, PLAYABLE_SQUARE, PLAYER_0_MARK, PLAYER_1_MARK, REMOVED_SQUARE,
};
use crate::game::any_playable;
use crate::incremental::{illegal_message, open_to, IncrementalGame, Position};
use crate::laws::rules::{is_distance, lemma_distance, lemma_moved_cell, lemma_sound, points};
use crate::legal::{cell_of, holds, in_half, lemma_bit_of, lemma_cell_of, scanned, LEGAL_WORDS};
use crate::levels::{exact_for, is_level, levels_exact};
use crate::sums::{lemma_sum_eq, sum_to, unit};
use crate::text::comma_list;

verus! {

/// One game's entries among those of the batch.
pub(crate) proof fn lemma_entries(b: IncrementalGame, g: int, x: int)
    requires
        b.shaped(),
        0 <= g < b.n,
        0 <= x < HW,
    ensures
        b.position(g).cells[x] == b.boards@[160 * g + x],
        b.position(g).cells.len() == HW,
        b.position(g).levels[x] == b.levels@[160 * g + x],
        b.position(g).scores[0] == b.scores@[2 * g],
        b.position(g).scores[1] == b.scores@[2 * g + 1],
        b.position(g).words[0] == b.legal@[2 * g],
        b.position(g).words[1] == b.legal@[2 * g + 1],
        b.position(g).move_count == b.move_counts@[g],
        b.position(g).finished == b.finished@[g],
{
    assert(0 <= 160 * g && 160 * g + 160 <= 160 * b.n);
}

/// What a move makes of one game's cell.
pub(crate) proof fn lemma_stepped_cell(before: Position, after: Position, i0: int, i1: int, x: int)
    requires
        before.stepped(after, i0, i1),
        before.cells.len() == HW,
        0 <= i0 < HW,
        0 <= i1 < HW,
        0 <= x < HW,
    ensures
        after.cells[x] == (if i0 == i1 {
            if x == i0 || (x / 16 - i0 / 16 == 1 || x / 16 - i0 / 16 == -1) && (x % 16 - i0 % 16
                == 1 || x % 16 - i0 % 16 == -1) {
                REMOVED_SQUARE
            } else {
                before.cells[x]
            }
        } else if x == i0 {
            PLAYER_0_MARK
        } else if x == i1 {
            PLAYER_1_MARK
        } else {
            before.cells[x]
        }),
        after.move_count == before.move_count + 1,
{
    lemma_moved_cell(before.cells, i0, i1, x);
}

/// Moves for a whole batch are taken or refused together. They are refused exactly if some
/// game that is not finished has a move onto a cell that is not open, or a first move outside
/// the player's half, and then nothing changes. Otherwise every game that is not finished makes
/// its two moves, and the others stay as they are.
pub proof fn lemma_batch_moves(
    b: &mut IncrementalGame,
    idx_0: &[i64],
    idx_1: &[i64],
    r: Result<(), String>,
    g: int,
    x: int,
)
    requires
        call_ensures(IncrementalGame::action_step, (b, idx_0, idx_1), r),
        old(b).wf(),
        0 <= g < old(b).n,
        !old(b).finished@[g] ==> 0 <= idx_0@[g] < HW && 0 <= idx_1@[g] < HW,
        0 <= x < HW,
    ensures
        r is Err ==> *final(b) == *old(b),
        r is Err ==> exists|h: int| {
            let i0 = #[trigger] idx_0@[h] as int;
            let i1 = idx_1@[h] as int;
            &&& 0 <= h < old(b).n
            &&& !old(b).finished@[h]
            &&& 0 <= i0 < HW && 0 <= i1 < HW ==> old(b).boards@[160 * h + i0] != PLAYABLE_SQUARE
                || old(b).boards@[160 * h + i1] != PLAYABLE_SQUARE || old(b).move_counts@[h] == 0
                && (i0 % 16 >= 8 || i1 % 16 < 8)
        },
        r is Ok && old(b).finished@[g] ==> {
            &&& final(b).boards@[160 * g + x] == old(b).boards@[160 * g + x]
            &&& final(b).move_counts@[g] == old(b).move_counts@[g]
            &&& final(b).finished@[g]
        },
        r is Ok && !old(b).finished@[g] ==> {
            let i0 = idx_0@[g] as int;
            let i1 = idx_1@[g] as int;
            let was = old(b).boards@[160 * g + x];
            &&& old(b).boards@[160 * g + i0] == PLAYABLE_SQUARE
            &&& old(b).boards@[160 * g + i1] == PLAYABLE_SQUARE
            &&& old(b).move_counts@[g] == 0 ==> i0 % 16 < 8 && i1 % 16 >= 8
            &&& final(b).boards@[160 * g + x] == (if i0 == i1 {
                if x == i0 || (x / 16 - i0 / 16 == 1 || x / 16 - i0 / 16 == -1) && (x % 16 - i0
                    % 16 == 1 || x % 16 - i0 % 16 == -1) {
                    REMOVED_SQUARE
                } else {
                    was
                }
            } else if x == i0 {
                PLAYER_0_MARK
            } else if x == i1 {
                PLAYER_1_MARK
            } else {
                was
            })
            &&& final(b).move_counts@[g] == old(b).move_counts@[g] + 1
        },
{
    let n = old(b).n as nat;
    let p = old(b).position(g);
    let q = final(b).position(g);
    lemma_illegal_listed(*old(b), idx_0@, idx_1@, n);
    lemma_entries(*old(b), g, x);
    lemma_entries(*final(b), g, x);
    if r is Err {
        let list = old(b).illegal_games(idx_0@, idx_1@, n);
        let h = list[0] as int;
        assert(list.contains(list[0]));
        let i0 = idx_0@[h] as int;
        let i1 = idx_1@[h] as int;
        if 0 <= i0 < HW {
            lemma_entries(*old(b), h, i0);
        }
        if 0 <= i1 < HW {
            lemma_entries(*old(b), h, i1);
        }
    } else if !old(b).finished@[g] {
        let i0 = idx_0@[g] as int;
        let i1 = idx_1@[g] as int;
        assert(p.stepped(q, i0, i1));
        lemma_stepped_cell(p, q, i0, i1, x);
        lemma_entries(*old(b), g, i0);
        lemma_entries(*old(b), g, i1);
        assert(old(b).legal_pair(idx_0@, idx_1@, g));
    } else {
        assert(q == p);
    }
}

/// The list of games with an illegal move rises and has exactly those games.
proof fn lemma_illegal_listed(b: IncrementalGame, idx_0: Seq<i64>, idx_1: Seq<i64>, n: nat)
    requires
        n <= b.n,
    ensures
        ({
            let list = b.illegal_games(idx_0, idx_1, n);
            &&& forall|i: int, j: int| 0 <= i < j < list.len() ==> list[i] < list[j]
            &&& forall|i: int| 0 <= i < list.len() ==> (#[trigger] list[i]) < n
            &&& forall|i: int|
                0 <= i < list.len() ==> !b.finished@[(#[trigger] list[i]) as int] && !b.legal_pair(
                    idx_0,
                    idx_1,
                    list[i] as int,
                )
            &&& forall|h: int|
                0 <= h < n && !#[trigger] b.finished@[h] && !b.legal_pair(idx_0, idx_1, h)
                    ==> list.contains(h as usize)
        }),
        b.illegal_games(idx_0, idx_1, n).len() == 0 ==> forall|h: int|
            0 <= h < n && !#[trigger] b.finished@[h] ==> b.legal_pair(idx_0, idx_1, h),
    decreases n,
{
    if n > 0 {
        lemma_illegal_listed(b, idx_0, idx_1, (n - 1) as nat);
        let rest = b.illegal_games(idx_0, idx_1, (n - 1) as nat);
        let list = b.illegal_games(idx_0, idx_1, n);
        assert forall|h: int|
            0 <= h < n && !#[trigger] b.finished@[h] && !b.legal_pair(
                idx_0,
                idx_1,
                h,
            ) implies list.contains(h as usize) by {
            if h < n - 1 {
                assert(rest.contains(h as usize));
                let i = choose|i: int| 0 <= i < rest.len() && rest[i] == h as usize;
                assert(list[i] == h as usize);
            } else {
                assert(list[list.len() - 1] == h as usize);
            }
        }
        if list.len() == 0 {
            assert(rest.len() == 0);
        }
    }
}

/// A refusal names the games it is for, in order, each once and no other.
pub proof fn lemma_refusal_names(
    b: &mut IncrementalGame,
    idx_0: &[i64],
    idx_1: &[i64],
    e: String,
)
    requires
        call_ensures(IncrementalGame::action_step, (b, idx_0, idx_1), Err::<(), String>(e)),
        old(b).wf(),
    ensures
        exists|list: Seq<usize>| {
            &&& e@ == "Invalid move detected in batch at game indices: ["@ + #[trigger] comma_list(
                list,
            ) + "]. Execution aborted; no games updated."@
            &&& list.len() > 0
            &&& forall|i: int, j: int| 0 <= i < j < list.len() ==> list[i] < list[j]
            &&& forall|i: int|
                0 <= i < list.len() ==> (#[trigger] list[i]) < old(b).n && !old(b).finished@[
                    list[i] as int
                ]
            &&& forall|h: int|
                0 <= h < old(b).n && !#[trigger] old(b).finished@[h] && 0 <= idx_0@[h] < HW && 0
                    <= idx_1@[h] < HW ==> {
                    let i0 = idx_0@[h] as int;
                    let i1 = idx_1@[h] as int;
                    list.contains(h as usize) <==> old(b).boards@[160 * h + i0] != PLAYABLE_SQUARE
                        || old(b).boards@[160 * h + i1] != PLAYABLE_SQUARE
                        || old(b).move_counts@[h] == 0 && (i0 % 16 >= 8 || i1 % 16 < 8)
                }
        },
{
    let n = old(b).n as nat;
    lemma_illegal_listed(*old(b), idx_0@, idx_1@, n);
    let list = old(b).illegal_games(idx_0@, idx_1@, n);
    assert(e@ == illegal_message(list));
    assert forall|h: int|
        0 <= h < old(b).n && !#[trigger] old(b).finished@[h] && 0 <= idx_0@[h] < HW && 0
            <= idx_1@[h] < HW implies {
        let i0 = idx_0@[h] as int;
        let i1 = idx_1@[h] as int;
        list.contains(h as usize) <==> old(b).boards@[160 * h + i0] != PLAYABLE_SQUARE || old(
            b,
        ).boards@[160 * h + i1] != PLAYABLE_SQUARE || old(b).move_counts@[h] == 0 && (i0 % 16 >= 8
            || i1 % 16 < 8)
    } by {
        lemma_entries(*old(b), h, idx_0@[h] as int);
        lemma_entries(*old(b), h, idx_1@[h] as int);
        if list.contains(h as usize) {
            let i = choose|i: int| 0 <= i < list.len() && list[i] == h as usize;
            assert(!old(b).legal_pair(idx_0@, idx_1@, list[i] as int));
        }
    }
}

/// One game of a batch moves by itself, by rows and columns; no other game changes.
pub proof fn lemma_game_moves(
    b: &mut IncrementalGame,
    g: usize,
    r0: i64,
    c0: i64,
    r1: i64,
    c1: i64,
    h: int,
    x: int,
)
    requires
        call_ensures(IncrementalGame::apply_game, (b, g, r0, c0, r1, c1), ()),
        old(b).wf(),
        g < old(b).n,
        0 <= r0 < 10,
        0 <= c0 < 16,
        0 <= r1 < 10,
        0 <= c1 < 16,
        0 <= h < old(b).n,
        0 <= x < HW,
    ensures
        ({
            let was = old(b).boards@[160 * h + x];
            let r = x / 16;
            let c = x % 16;
            final(b).boards@[160 * h + x] == (if h != g {
                was
            } else if r0 == r1 && c0 == c1 {
                if r == r0 && c == c0 || (r - r0 == 1 || r - r0 == -1) && (c - c0 == 1 || c - c0
                    == -1) {
                    REMOVED_SQUARE
                } else {
                    was
                }
            } else if r == r0 && c == c0 {
                PLAYER_0_MARK
            } else if r == r1 && c == c1 {
                PLAYER_1_MARK
            } else {
                was
            })
        }),
        final(b).move_counts@[h] == old(b).move_counts@[h] + (if h == g {
            1int
        } else {
            0
        }),
{
    lemma_entries(*old(b), h, x);
    lemma_entries(*final(b), h, x);
    if h == g {
        let i0 = r0 * 16 + c0;
        let i1 = r1 * 16 + c1;
        assert(i0 / 16 == r0 && i0 % 16 == c0);
        assert(i1 / 16 == r1 && i1 % 16 == c1);
        lemma_stepped_cell(old(b).position(h), final(b).position(h), i0, i1, x);
    } else {
        assert(final(b).position(h) == old(b).position(h));
    }
}

/// A batch begins with every game at the opening.
pub proof fn lemma_batch_opens(n: usize, seed: u64, b: IncrementalGame, g: int, x: int)
    requires
        call_ensures(IncrementalGame::new, (n, seed), b),
        0 <= g < n,
        0 <= x < HW,
    ensures
        b.n == n,
        b.boards@[160 * g + x] == (if (x / 16 + x % 16) % 2 == 0 {
            PLAYABLE_SQUARE
        } else {
            NON_PLAYABLE_SQUARE
        }),
        b.move_counts@[g] == 0,
        !b.finished@[g],
{
    lemma_entries(b, g, x);
    assert(b.position(g).cells == opening());
}

/// The masks of a batch in order name, cell by cell, what each player may play: open cells, and
/// before a game's first move only those of the player's half.
pub proof fn lemma_batch_masks(
    b: IncrementalGame,
    r: (Vec<bool>, Vec<bool>, Vec<u32>, Vec<u32>),
    g: int,
    x: int,
)
    requires
        call_ensures(IncrementalGame::get_legal_masks, (&b,), r),
        b.wf(),
        b.tidy(),
        0 <= g < b.n,
        0 <= x < HW,
    ensures
        r.0@[160 * g + x] <==> b.boards@[160 * g + x] == PLAYABLE_SQUARE && (b.move_counts@[g] != 0
            || x % 16 < 8),
        r.1@[160 * g + x] <==> b.boards@[160 * g + x] == PLAYABLE_SQUARE && (b.move_counts@[g] != 0
            || x % 16 >= 8),
        r.2@[g] == sum_to(|k: int| unit(r.0@[160 * g + 2 * k + (k / 8) % 2]), 80),
        r.3@[g] == sum_to(|k: int| unit(r.1@[160 * g + 2 * k + (k / 8) % 2]), 80),
{
    assert(b.masked(g, r.0@, r.1@, r.2@, r.3@));
    let pos = b.position(g);
    assert(pos.tidy());
    lemma_mask_entry(b, r, g, x);
    let f0 = |k: int|
        unit(holds(pos.words, k) && in_half(k, 0, pos.move_count == 0));
    let f1 = |k: int|
        unit(holds(pos.words, k) && in_half(k, 1, pos.move_count == 0));
    let h0 = |k: int| unit(r.0@[160 * g + 2 * k + (k / 8) % 2]);
    let h1 = |k: int| unit(r.1@[160 * g + 2 * k + (k / 8) % 2]);
    assert forall|k: int| 0 <= k < 80 implies #[trigger] f0(k) == h0(k) && f1(k) == h1(k) by {
        lemma_cell_of(k);
        let i = cell_of(k);
        assert(r.0@[g * 160 + i] == open_to(pos, 0, i));
        assert(r.1@[g * 160 + i] == open_to(pos, 1, i));
        assert(160 * g + 2 * k + (k / 8) % 2 == g * 160 + i);
    }
    assert forall|k: int| 0 <= k < 80 implies #[trigger] f1(k) == h1(k) by {
        assert(f0(k) == h0(k) && f1(k) == h1(k));
    }
    lemma_sum_eq(f0, h0, 80);
    lemma_sum_eq(f1, h1, 80);
}

proof fn lemma_mask_entry(
    b: IncrementalGame,
    r: (Vec<bool>, Vec<bool>, Vec<u32>, Vec<u32>),
    g: int,
    x: int,
)
    requires
        b.wf(),
        b.tidy(),
        0 <= g < b.n,
        0 <= x < HW,
        b.masked(g, r.0@, r.1@, r.2@, r.3@),
    ensures
        r.0@[160 * g + x] <==> b.boards@[160 * g + x] == PLAYABLE_SQUARE && (b.move_counts@[g] != 0
            || x % 16 < 8),
        r.1@[160 * g + x] <==> b.boards@[160 * g + x] == PLAYABLE_SQUARE && (b.move_counts@[g] != 0
            || x % 16 >= 8),
{
    let pos = b.position(g);
    assert(pos.tidy());
    lemma_entries(b, g, x);
    lemma_bit_of(x);
    lemma_cell_of(x / 2);
    assert(r.0@[g * 160 + x] == open_to(pos, 0, x));
    assert(r.1@[g * 160 + x] == open_to(pos, 1, x));
    assert(holds(pos.words, x / 2) <==> pos.cells[cell_of(x / 2)] == PLAYABLE_SQUARE);
}

/// A game's mask is its two words among those of the batch.
pub proof fn lemma_words(b: IncrementalGame, g: usize, w: [u64; LEGAL_WORDS])
    requires
        call_ensures(IncrementalGame::legal_bits, (&b, g), w),
        b.shaped(),
        g < b.n,
    ensures
        w@[0] == b.legal@[2 * g],
        w@[1] == b.legal@[2 * g + 1],
{
    lemma_entries(b, g as int, 0);
}

/// Every active game of a batch makes its own two moves, by rows and columns, and the others
/// stay as they are.
pub proof fn lemma_active_move(
    b: &mut IncrementalGame,
    r0: &[i64],
    c0: &[i64],
    r1: &[i64],
    c1: &[i64],
    active: &[bool],
    g: int,
    x: int,
)
    requires
        call_ensures(IncrementalGame::apply_step, (b, r0, c0, r1, c1, active), ()),
        old(b).wf(),
        0 <= g < old(b).n,
        0 <= r0@[g] < 10,
        0 <= c0@[g] < 16,
        0 <= r1@[g] < 10,
        0 <= c1@[g] < 16,
        0 <= x < HW,
    ensures
        ({
            let was = old(b).boards@[160 * g + x];
            let r = x / 16;
            let c = x % 16;
            final(b).boards@[160 * g + x] == (if !active@[g] {
                was
            } else if r0@[g] == r1@[g] && c0@[g] == c1@[g] {
                if r == r0@[g] && c == c0@[g] || (r - r0@[g] == 1 || r - r0@[g] == -1) && (c - c0@[g]
                    == 1 || c - c0@[g] == -1) {
                    REMOVED_SQUARE
                } else {
                    was
                }
            } else if r == r0@[g] && c == c0@[g] {
                PLAYER_0_MARK
            } else if r == r1@[g] && c == c1@[g] {
                PLAYER_1_MARK
            } else {
                was
            })
        }),
        final(b).move_counts@[g] == old(b).move_counts@[g] + (if active@[g] {
            1int
        } else {
            0
        }),
{
    lemma_entries(*old(b), g, x);
    lemma_entries(*final(b), g, x);
    let p = old(b).position(g);
    let q = final(b).position(g);
    if active@[g] {
        let i0 = r0@[g] * 16 + c0@[g];
        let i1 = r1@[g] * 16 + c1@[g];
        assert(i0 / 16 == r0@[g] && i0 % 16 == c0@[g]);
        assert(i1 / 16 == r1@[g] && i1 % 16 == c1@[g]);
        assert(p.stepped(q, i0, i1));
        lemma_stepped_cell(p, q, i0, i1, x);
    } else {
        assert(q == p);
    }
}

/// A batch made from boards has those boards, and for each game its own levels, scores and
/// mask: every mark's level is its distance, the scores are the players' points, and a bit is
/// set exactly if one of its two cells is open.
pub proof fn lemma_batch_adopts(
    boards: Vec<i8>,
    move_counts: Vec<i32>,
    finished: Vec<bool>,
    seed: u64,
    b: IncrementalGame,
    g: int,
    x: int,
    k: int,
)
    requires
        call_ensures(IncrementalGame::from_state, (boards, move_counts, finished, seed), b),
        0 <= g < move_counts@.len(),
        0 <= x < HW,
        0 <= k < 80,
    ensures
        ({
            let cells = boards@.subrange(160 * g, 160 * g + 160);
            let levels = b.levels@.subrange(160 * g, 160 * g + 160);
            &&& b.boards == boards
            &&& b.move_counts == move_counts
            &&& b.finished == finished
            &&& is_distance(cells, x, b.levels@[160 * g + x])
            &&& b.scores@[2 * g] == points(cells, levels, PLAYER_0_MARK)
            &&& b.scores@[2 * g + 1] == points(cells, levels, PLAYER_1_MARK)
            &&& (b.legal@[2 * g + k / 64] >> ((k % 64) as u64)) & 1 == 1 <==> cells[2 * k]
                == PLAYABLE_SQUARE || cells[2 * k + 1] == PLAYABLE_SQUARE
        }),
{
    let pos = b.position(g);
    assert(pos.scored());
    lemma_entries(b, g, x);
    let cells = boards@.subrange(160 * g, 160 * g + 160);
    let levels = b.levels@.subrange(160 * g, 160 * g + 160);
    assert(pos.cells =~= cells);
    assert(pos.levels =~= levels);
    assert(is_level(pos.cells, x, pos.levels[x]));
    lemma_distance(cells, x, pos.levels[x]);
    lemma_exact(cells, levels);
    lemma_sound(cells, levels);
    assert(scanned(pos.cells, pos.words));
    assert(holds(pos.words, k) <==> k < 80 && (pos.cells[2 * k] == PLAYABLE_SQUARE || pos.cells[2
        * k + 1] == PLAYABLE_SQUARE));
    assert(pos.words[k / 64] == b.legal@[2 * g + k / 64]);
}

proof fn lemma_exact(cells: Seq<i8>, levels: Seq<u8>)
    requires
        levels_exact(cells, levels),
    ensures
        exact_for(cells, levels, PLAYER_0_MARK),
        exact_for(cells, levels, PLAYER_1_MARK),
{
    assert forall|p: i8, x: int| #[trigger] mark(cells, p, x) implies is_level(
        cells,
        x,
        levels[x],
    ) by {}
}

/// A batch passes the check exactly if every game does: every mark's level is its distance, the
/// scores are the players' points, a bit is set exactly if one of its two cells is open, and a
/// game is finished exactly if no cell is.
pub proof fn lemma_batch_passes(b: IncrementalGame, r: Result<(), String>, g: int)
    requires
        call_ensures(IncrementalGame::check_invariants, (&b,), r),
        b.shaped(),
        0 <= g < b.n,
    ensures
        r is Ok ==> sound(b, g),
        r is Err ==> exists|h: int| 0 <= h < b.n && !#[trigger] sound(b, h),
{
    assert forall|h: int| 0 <= h < b.n implies (#[trigger] b.position(h)).sane() == sound(b, h) by {
        lemma_sane(b, h);
    }
    if r is Ok {
        assert(b.position(g).sane());
    } else {
        let h = choose|h: int| 0 <= h < b.n && !(#[trigger] b.position(h)).sane();
        assert(b.position(h).sane() == sound(b, h));
    }
}

/// Is everything that game `g` of a batch carries what its board says?
pub open spec fn sound(b: IncrementalGame, g: int) -> bool {
    let cells = b.boards@.subrange(160 * g, 160 * g + 160);
    let levels = b.levels@.subrange(160 * g, 160 * g + 160);
    &&& forall|x: int|
        0 <= x < HW && (cells[x] == PLAYER_0_MARK || cells[x] == PLAYER_1_MARK) ==> is_distance(
            cells,
            x,
            #[trigger] levels[x],
        )
    &&& b.scores@[2 * g] == points(cells, levels, PLAYER_0_MARK)
    &&& b.scores@[2 * g + 1] == points(cells, levels, PLAYER_1_MARK)
    &&& forall|k: int|
        0 <= k < 128 ==> (#[trigger] holds(b.legal@.subrange(2 * g, 2 * g + 2), k) <==> k < 80 && (
        cells[2 * k] == PLAYABLE_SQUARE || cells[2 * k + 1] == PLAYABLE_SQUARE))
    &&& b.finished@[g] <==> forall|x: int| 0 <= x < HW ==> #[trigger] cells[x] != PLAYABLE_SQUARE
}

proof fn lemma_sane(b: IncrementalGame, g: int)
    requires
        b.shaped(),
        0 <= g < b.n,
    ensures
        b.position(g).sane() == sound(b, g),
{
    let pos = b.position(g);
    lemma_entries(b, g, 0);
    let cells = b.boards@.subrange(160 * g, 160 * g + 160);
    let levels = b.levels@.subrange(160 * g, 160 * g + 160);
    let words = b.legal@.subrange(2 * g, 2 * g + 2);
    assert(pos.cells =~= cells);
    assert(pos.levels =~= levels);
    assert(pos.words =~= words);
    lemma_sound(cells, levels);
    assert(scanned(cells, words) <==> forall|k: int|
        0 <= k < 128 ==> (#[trigger] holds(words, k) <==> k < 80 && (cells[2 * k] == PLAYABLE_SQUARE
            || cells[2 * k + 1] == PLAYABLE_SQUARE)));
    if !any_playable(cells) {
        assert forall|x: int| 0 <= x < HW implies #[trigger] cells[x] != PLAYABLE_SQUARE by {}
    }
}

/// Masks filled in place are the same.
pub proof fn lemma_masks_into(
    b: IncrementalGame,
    mask_0: &mut [bool],
    mask_1: &mut [bool],
    count_0: &mut [u32],
    count_1: &mut [u32],
    r: (Vec<bool>, Vec<bool>, Vec<u32>, Vec<u32>),
    g: int,
    x: int,
)
    requires
        call_ensures(
            IncrementalGame::legal_masks_into,
            (&b, mask_0, mask_1, count_0, count_1),
            (),
        ),
        call_ensures(IncrementalGame::get_legal_masks, (&b,), r),
        0 <= g < b.n,
        0 <= x < HW,
    ensures
        final(mask_0)@[160 * g + x] == r.0@[160 * g + x],
        final(mask_1)@[160 * g + x] == r.1@[160 * g + x],
        final(count_0)@[g] == r.2@[g],
        final(count_1)@[g] == r.3@[g],
{
    assert(b.masked(g, r.0@, r.1@, r.2@, r.3@));
    assert(b.all_masked(final(mask_0)@, final(mask_1)@, final(count_0)@, final(count_1)@));
    assert(b.masked(g, final(mask_0)@, final(mask_1)@, final(count_0)@, final(count_1)@));
    assert(160 * g + x == g * 160 + x);
    assert(r.0@[g * 160 + x] == open_to(b.position(g), 0, x));
    assert(r.1@[g * 160 + x] == open_to(b.position(g), 1, x));
    assert(final(mask_0)@[g * 160 + x] == open_to(b.position(g), 0, x));
    assert(final(mask_1)@[g * 160 + x] == open_to(b.position(g), 1, x));
}

} // verus!
