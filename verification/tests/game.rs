//! One game by itself, reachability, move files, drawings, and the stand-in player.

use alpha_lines_game::art::board_art;
use alpha_lines_game::exchange::{
    dense_masks, legal_square, read_moves, square_index, state_header, IllegalMove, Moves,
    MovesError, StateRecord,
};
use alpha_lines_game::game::{
    legal_cell, Rng, Scratch, HW, INF, MAX_LEVEL, PLAYABLE_SQUARE, PLAYER_0_MARK, PLAYER_1_MARK,
    REMOVED_SQUARE, SQUARES, WIDTH,
};
use alpha_lines_game::profile::{
    bar, bucket_of, bucket_start, spread_times, MovePath, BUCKETS,
};
use alpha_lines_game::scratch::Stats;
use alpha_lines_game::stub::spike_square;
use alpha_lines_game::Game;

fn at(r: usize, c: usize) -> usize {
    r * WIDTH + c
}

fn played(plies: usize, seed: u64) -> Game {
    let mut g = Game::new();
    let mut rng = Rng::new(seed);
    let mut scratch = Scratch::new();
    for _ in 0..plies {
        g.uniform_step(&mut rng, &mut scratch);
    }
    g
}

#[test]
fn the_opening_has_forty_squares_a_side() {
    let g = Game::new();
    assert_eq!((g.legal_count(0), g.legal_count(1)), (40, 40));
    assert!(g.holds_bit(at(0, 0), 0) && !g.holds_bit(at(0, 0), 1));
    assert!(g.holds_bit(at(0, 8), 1) && !g.holds_bit(at(0, 8), 0));
    assert!(!g.holds_bit(at(0, 1), 0), "not a square of the board's colour");
    assert!(!g.holds_bit(HW, 0), "off the board");
    assert_eq!(g, Game::default());
}

#[test]
fn a_move_marks_both_squares_and_opens_the_board() {
    let mut g = Game::new();
    let mut scratch = Scratch::new();
    g.action_step(at(0, 0), at(0, 8), &mut scratch);
    assert_eq!(g.cells[at(0, 0)], PLAYER_0_MARK);
    assert_eq!(g.cells[at(0, 8)], PLAYER_1_MARK);
    assert_eq!((g.legal_count(0), g.legal_count(1)), (78, 78));
    assert_eq!(g.move_count, 1);
    g.action_step(at(1, 1), at(1, 9), &mut scratch);
    assert_eq!(g.scores, [2, 2]);
    assert_eq!(g.terminal_values(), [0, 0]);
}

#[test]
fn a_collision_clears_five_squares() {
    let mut g = Game::new();
    let mut scratch = Scratch::new();
    g.action_step(at(0, 0), at(0, 8), &mut scratch);
    g.action_step(at(1, 1), at(1, 1), &mut scratch);
    for (r, c) in [(1, 1), (0, 0), (0, 2), (2, 0), (2, 2)] {
        assert_eq!(g.cells[at(r, c)], REMOVED_SQUARE);
    }
    assert_eq!(g.legal_count(0), 74);
}

/// A board adopted from outside has the same derived state as one that was played.
#[test]
fn an_adopted_board_scores_as_the_played_one() {
    let mut scratch = Scratch::new();
    for seed in 0..40 {
        let g = played(seed as usize % 25 + 1, seed);
        let h = Game::from_cells(g.cells, &mut scratch);
        assert_eq!((h.levels, h.scores, h.legal), (g.levels, g.scores, g.legal));
        assert_eq!((h.finished, h.move_count), (g.finished, 1));
        assert_eq!(Game::from_squares(g.squares(), &mut scratch), h);
    }
    assert_eq!(Game::from_cells(Game::new().cells, &mut scratch), Game::new());
}

/// The square at a rank of a mask.
#[test]
fn a_rank_selects_a_square() {
    let w = Game::new().legal_moves(1);
    let mut on = Vec::new();
    for k in 0..SQUARES {
        if w[k >> 6] >> (k & 63) & 1 == 1 {
            on.push(legal_cell(k));
        }
    }
    for (k, &cell) in on.iter().enumerate() {
        assert_eq!(Game::select(w, k as u32), cell);
    }
    let mut a = Rng::new(8);
    let mut b = Rng::new(8);
    for _ in 0..50 {
        assert_eq!(Game::uniform(w, &mut a), on[b.randint(40) as usize]);
    }
}

#[test]
fn a_uniform_step_draws_player_zero_first() {
    let mut g = Game::new();
    let mut h = Game::new();
    let mut scratch = Scratch::new();
    let mut a = Rng::new(12);
    let mut b = Rng::new(12);
    while !g.finished {
        g.uniform_step(&mut a, &mut scratch);
        let i0 = Game::uniform(h.legal_moves(0), &mut b);
        let i1 = Game::uniform(h.legal_moves(1), &mut b);
        h.action_step(i0, i1, &mut scratch);
        assert_eq!(g, h);
    }
    let s = g.scores;
    let want = (s[0] > s[1]) as i8 - (s[0] < s[1]) as i8;
    assert_eq!(g.terminal_values(), [want, -want]);
}

// ----------------------------------------------------------------------------- reachability

/// Every position of a game is reachable from every earlier one, and from no later one.
#[test]
fn squares_only_go_one_way() {
    let mut g = Game::new();
    let mut line = vec![g.clone()];
    let mut rng = Rng::new(31);
    let mut scratch = Scratch::new();
    while !g.finished {
        g.uniform_step(&mut rng, &mut scratch);
        line.push(g.clone());
    }
    for (i, a) in line.iter().enumerate() {
        for (j, b) in line.iter().enumerate() {
            assert_eq!(b.reachable_from(a), i <= j, "{i} to {j}");
        }
    }
}

#[test]
fn a_mark_of_the_other_player_is_out_of_reach() {
    let mut scratch = Scratch::new();
    let mut a = Game::new();
    a.action_step(at(0, 0), at(0, 8), &mut scratch);
    let mut b = Game::new();
    b.action_step(at(0, 2), at(0, 8), &mut scratch);
    assert!(!a.reachable_from(&b));
    assert!(!b.reachable_from(&a));
}

// ------------------------------------------------------------------------------- move files

fn file(n: u32, steps: u32, moves: &[i32]) -> Vec<u8> {
    let mut out = b"ALMV".to_vec();
    for v in [1, n, 10, 16, steps] {
        out.extend(u32::to_le_bytes(v));
    }
    for &m in moves {
        out.extend(m.to_le_bytes());
    }
    out
}

#[test]
fn a_move_file_is_read_back() {
    let m = read_moves(&file(2, 1, &[0, 8, 34, -1])).unwrap();
    assert_eq!((m.n, m.n_steps), (2, 1));
    assert_eq!(m.data, vec![0, 8, 34, -1]);
}

#[test]
fn each_fault_of_a_move_file_is_named() {
    let good = file(1, 1, &[0, 8]);
    assert_eq!(read_moves(&good[..23].to_vec()).unwrap_err(), MovesError::Short);
    let mut bad = good.clone();
    bad[0] = b'X';
    assert_eq!(read_moves(&bad).unwrap_err(), MovesError::Magic);
    let mut bad = good.clone();
    bad[4] = 2;
    assert_eq!(read_moves(&bad).unwrap_err(), MovesError::Version);
    let mut bad = good.clone();
    bad[12] = 11;
    assert_eq!(read_moves(&bad).unwrap_err(), MovesError::Geometry);
    let mut bad = good.clone();
    bad[16] = 17;
    assert_eq!(read_moves(&bad).unwrap_err(), MovesError::Geometry);
    let mut bad = good.clone();
    bad.push(0);
    assert_eq!(read_moves(&bad).unwrap_err(), MovesError::Length);
    assert!(read_moves(&good).is_ok());
}

#[test]
fn a_board_index_names_a_square() {
    assert_eq!(square_index(-1), None);
    assert_eq!(square_index(160), None);
    assert_eq!(square_index(1), None, "not a square of the board's colour");
    assert_eq!(square_index(0), Some(0));
    assert_eq!(square_index(17), Some(8));
    for k in 0..SQUARES {
        assert_eq!(square_index(legal_cell(k) as i32), Some(k));
    }
    let w = Game::new().legal_moves(0);
    assert_eq!(legal_square(w, 0), Some(0));
    assert_eq!(legal_square(w, 8), None, "the other half");
}

#[test]
fn a_replay_plays_the_file() {
    let m = read_moves(&file(2, 2, &[0, 8, 34, 42, 17, 25, 0, 8])).unwrap();
    let mut games = vec![Game::new(), Game::new()];
    let mut scratch = Scratch::new();
    m.replay_step(0, &mut games, &mut scratch).unwrap();
    m.replay_step(1, &mut games, &mut scratch).unwrap();
    assert_eq!(games[0].scores, [2, 2]);
    assert_eq!(games[0].cells[17], PLAYER_0_MARK);
    assert_eq!(games[1].cells[8], PLAYER_1_MARK);
}

#[test]
fn a_replay_stops_at_the_first_illegal_move() {
    let mut scratch = Scratch::new();
    let m = Moves { n: 2, n_steps: 1, data: vec![0, 8, 2, 4] };
    let mut games = vec![Game::new(), Game::new()];
    let err = m.replay_step(0, &mut games, &mut scratch).unwrap_err();
    assert_eq!(err, IllegalMove { game: 1, player: 1, board: 4 });
    assert_eq!(games[0].move_count, 1, "the games before it have moved");
    assert_eq!(games[1], Game::new());
    let m = Moves { n: 1, n_steps: 1, data: vec![8, 8] };
    let mut games = vec![Game::new()];
    let err = m.replay_step(0, &mut games, &mut scratch).unwrap_err();
    assert_eq!(err, IllegalMove { game: 0, player: 0, board: 8 });
}

#[test]
fn a_state_file_begins_with_its_shape() {
    let h = state_header(300, 45);
    let mut want = b"ALST".to_vec();
    for v in [1u32, 300, 10, 16, 45] {
        want.extend(v.to_le_bytes());
    }
    assert_eq!(h, want);
}

#[test]
fn a_state_record_shows_every_field() {
    let games = vec![Game::new(), played(9, 2), played(20, 3)];
    let r = StateRecord::of(&games);
    let (m0, m1, c0, c1) = dense_masks(&games);
    assert_eq!((&r.mask_0, &r.mask_1), (&m0, &m1));
    assert_eq!((&r.count_0, &r.count_1), (&c0, &c1));
    assert_eq!((c0[0], c1[0]), (40, 40));
    for (g, game) in games.iter().enumerate() {
        assert_eq!(r.boards[g * HW..(g + 1) * HW], game.cells);
        assert_eq!(r.scores[g * 2..g * 2 + 2], game.scores);
        assert_eq!((r.move_counts[g], r.finished[g]), (game.move_count, game.finished));
        for i in 0..HW {
            assert_eq!(m0[g * HW + i], game.holds_bit(i, 0));
            assert_eq!(m1[g * HW + i], game.holds_bit(i, 1));
        }
        assert_eq!(c0[g], game.legal_count(0));
    }
}

// -------------------------------------------------------------------------------- profiling

#[test]
fn the_counters_tell_the_path() {
    let zero = Stats::default();
    let moved = Stats { inserts: 2, ..zero };
    assert_eq!(MovePath::of(&zero, &zero, false), MovePath::Unknown);
    assert_eq!(MovePath::of(&zero, &moved, false), MovePath::InsertFast);
    assert_eq!(MovePath::of(&zero, &Stats { inserts_dead: 1, ..moved }, false), MovePath::InsertFast);
    assert_eq!(MovePath::of(&zero, &Stats { inserts_dead: 2, ..moved }, false), MovePath::InsertDead);
    assert_eq!(MovePath::of(&zero, &Stats { inserts_slow: 1, ..moved }, false), MovePath::InsertSlow);
    let hit = Stats { removes: 5, ..zero };
    assert_eq!(MovePath::of(&zero, &hit, true), MovePath::CollisionCheap);
    assert_eq!(MovePath::of(&zero, &Stats { removes_slow: 1, ..hit }, true), MovePath::CollisionSlow);
    assert_eq!(MovePath::InsertSlow.label(), "move, slow path (revives a dead blob)");
}

#[test]
fn times_fall_into_growing_buckets() {
    assert_eq!(bucket_of(0), 0);
    assert_eq!(bucket_of(99), 0);
    assert_eq!(bucket_of(100), 1);
    assert_eq!(bucket_of(25_599), 14);
    assert_eq!(bucket_of(25_600), 15);
    assert_eq!(bucket_of(u64::MAX), 15);
    for b in 0..BUCKETS {
        assert_eq!(bucket_of(bucket_start(b)), b);
    }
    let counts = spread_times(&vec![5, 120, 130, 1_000_000]);
    assert_eq!((counts[0], counts[1], counts[15]), (1, 2, 1));
    assert_eq!(counts.iter().sum::<usize>(), 4);
    assert_eq!((bar(7, 7), bar(1, 1000), bar(500, 1000)), (56, 1, 28));
}

// --------------------------------------------------------------------------------- drawings

#[test]
fn a_board_is_drawn_row_by_row() {
    let mut squares = Game::new().squares();
    squares[0] = PLAYER_0_MARK;
    squares[1] = PLAYER_1_MARK;
    squares[8] = REMOVED_SQUARE;
    let mut out = String::from("board\n");
    board_art(&mut out, "  ", &squares);
    let lines: Vec<&str> = out.lines().collect();
    assert_eq!(lines.len(), 13);
    assert_eq!(lines[0], "board");
    assert_eq!(lines[1], "  +--------------------------------+");
    assert_eq!(lines[2], "  |00  11  --  --  --  --  --  --  |");
    assert_eq!(lines[3], "  |  xx  --  --  --  --  --  --  --|");
    assert_eq!(lines[12], lines[1]);
}

// ---------------------------------------------------------------------------- the stand-in

#[test]
fn the_stand_in_has_a_favourite_square() {
    let mut squares = Game::new().squares();
    assert_eq!(spike_square(&squares, 0), 0);
    assert_eq!(spike_square(&squares, 1), 4);
    squares[0] = PLAYER_0_MARK;
    squares[4] = PLAYER_1_MARK;
    assert_eq!(spike_square(&squares, 0), 1);
    assert_eq!(spike_square(&squares, 1), 1);
    let full = [REMOVED_SQUARE; SQUARES];
    assert_eq!(spike_square(&full, 1), 0);
    let mut last = full;
    last[77] = PLAYABLE_SQUARE;
    assert_eq!(spike_square(&last, 0), 77);
}

/// The bound on levels in play, and that it holds of games played out.
#[test]
fn levels_in_play_stay_below_the_bound() {
    assert_eq!(MAX_LEVEL, 40);
    let mut scratch = Scratch::new();
    let mut rng = Rng::new(0x1e5e1);
    let mut highest = 0;
    for _ in 0..200 {
        let mut g = Game::new();
        while !g.finished {
            g.uniform_step(&mut rng, &mut scratch);
            for &l in g.levels.iter().filter(|&&l| l != INF) {
                assert!(l < MAX_LEVEL);
                highest = highest.max(l);
            }
        }
    }
    assert!(highest > 3, "only {highest}");
}
