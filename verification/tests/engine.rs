//! The batched engine against a plain reference: a board that is rescored from scratch after
//! every move, with legality read off the squares.
//!
//! First come targeted cases for the situations the level bookkeeping turns on: a severed
//! cycle, a line anchored at both ends cut in the middle, a dead blob revived, collisions.
//! Then rollouts that compare every observable field after every move.

use alpha_lines_game::game::legal_cell;
use alpha_lines_game::incremental::{
    apply_move, check_invariants, insert, rebuild_levels, remove, Rng, Scratch, HEIGHT, HW, INF,
    LEGAL_WORDS, MAX_LEVEL, NON_PLAYABLE_SQUARE, PLAYABLE_SQUARE, PLAYER_0_MARK, PLAYER_1_MARK,
    REMOVED_SQUARE, WIDTH,
};
use alpha_lines_game::profile::MovePath;
use alpha_lines_game::sampling::Weights;
use alpha_lines_game::{Game, IncrementalGame};

const P0: i8 = PLAYER_0_MARK;
const P1: i8 = PLAYER_1_MARK;

/// A double in [0, 1) with 53 bits of entropy.
fn random(rng: &mut Rng) -> f64 {
    (rng.next_u64() >> 11) as f64 * (1.0 / (1u64 << 53) as f64)
}

// ---------------------------------------------------------------------------- the reference

fn flood(cells: &[i8], mark: i8) -> Vec<bool> {
    let mut reached = vec![false; HW];
    let mut stack = Vec::new();
    for r in 0..HEIGHT {
        for c in 0..WIDTH {
            let border = r == 0 || r == HEIGHT - 1 || c == 0 || c == WIDTH - 1;
            if border && cells[r * WIDTH + c] == mark {
                reached[r * WIDTH + c] = true;
                stack.push((r as i64, c as i64));
            }
        }
    }
    while let Some((r, c)) = stack.pop() {
        for dr in -1i64..2 {
            for dc in -1i64..2 {
                let (nr, nc) = (r + dr, c + dc);
                if nr < 0 || nr >= HEIGHT as i64 || nc < 0 || nc >= WIDTH as i64 {
                    continue;
                }
                let ni = nr as usize * WIDTH + nc as usize;
                if cells[ni] == mark && !reached[ni] {
                    reached[ni] = true;
                    stack.push((nr, nc));
                }
            }
        }
    }
    reached
}

/// The scoring rule by itself: every maximal diagonal run of two or more marks that reaches
/// the border scores its length.
fn score_player(cells: &[i8], mark: i8) -> i32 {
    let reached = flood(cells, mark);
    let mut score = 0;
    for dc in [-1i64, 1] {
        for r in 0..HEIGHT as i64 {
            for c in 0..WIDTH as i64 {
                let inside = |r: i64, c: i64| {
                    r >= 0 && r < HEIGHT as i64 && c >= 0 && c < WIDTH as i64
                };
                let held = |r: i64, c: i64| {
                    inside(r, c) && cells[r as usize * WIDTH + c as usize] == mark
                };
                if !held(r, c) || held(r - 1, c - dc) {
                    continue; // not where a run starts
                }
                let (mut len, mut reach) = (0, false);
                let (mut y, mut x) = (r, c);
                while held(y, x) {
                    len += 1;
                    reach |= reached[y as usize * WIDTH + x as usize];
                    y += 1;
                    x += dc;
                }
                if len >= 2 && reach {
                    score += len;
                }
            }
        }
    }
    score
}

/// A batch as plain arrays, rescored after every move.
struct Reference {
    n: usize,
    boards: Vec<i8>,
    scores: Vec<i32>,
    move_counts: Vec<i32>,
    finished: Vec<bool>,
    rng: Rng,
}

impl Reference {
    fn new(n: usize, seed: u64) -> Self {
        let mut boards = vec![NON_PLAYABLE_SQUARE; n * HW];
        for (i, v) in boards.iter_mut().enumerate() {
            let at = i % HW;
            if (at / WIDTH + at % WIDTH) % 2 == 0 {
                *v = PLAYABLE_SQUARE;
            }
        }
        Reference {
            n,
            boards,
            scores: vec![0; n * 2],
            move_counts: vec![0; n],
            finished: vec![false; n],
            rng: Rng::new(seed),
        }
    }

    fn masks(&self) -> (Vec<bool>, Vec<bool>) {
        let half = WIDTH / 2;
        let mut m0 = vec![false; self.n * HW];
        let mut m1 = vec![false; self.n * HW];
        for i in 0..self.n * HW {
            let first = self.move_counts[i / HW] == 0;
            let c = i % WIDTH;
            if self.boards[i] == PLAYABLE_SQUARE {
                m0[i] = !(first && c >= half);
                m1[i] = !(first && c < half);
            }
        }
        (m0, m1)
    }

    fn apply(&mut self, idx_0: &[i64], idx_1: &[i64]) {
        for g in 0..self.n {
            if self.finished[g] {
                continue;
            }
            let cells = &mut self.boards[g * HW..(g + 1) * HW];
            if idx_0[g] == idx_1[g] {
                let (r, c) = (idx_0[g] / WIDTH as i64, idx_0[g] % WIDTH as i64);
                for (dr, dc) in [(0, 0), (-1, -1), (-1, 1), (1, -1), (1, 1)] {
                    let (nr, nc) = (r + dr, c + dc);
                    if nr >= 0 && nr < HEIGHT as i64 && nc >= 0 && nc < WIDTH as i64 {
                        cells[nr as usize * WIDTH + nc as usize] = REMOVED_SQUARE;
                    }
                }
            } else {
                cells[idx_0[g] as usize] = P0;
                cells[idx_1[g] as usize] = P1;
            }
            self.move_counts[g] += 1;
            self.finished[g] = cells.iter().all(|&v| v != PLAYABLE_SQUARE);
            self.scores[g * 2] = score_player(cells, P0);
            self.scores[g * 2 + 1] = score_player(cells, P1);
        }
    }

    /// One move per active game, drawn from a weight per square.
    fn sample(&mut self, d: &[f32], mask: &[bool]) -> Vec<i64> {
        let mut out = vec![0i64; self.n];
        for g in 0..self.n {
            if self.finished[g] {
                continue;
            }
            let weight = |i: usize| if mask[g * HW + i] { f64::from(d[g * HW + i]) } else { 0.0 };
            let total: f64 = (0..HW).map(weight).sum();
            if total < 1e-8 {
                out[g] = self.rng.randint(HW as u64) as i64;
                continue;
            }
            let threshold = random(&mut self.rng) * total;
            let mut cum = 0.0f64;
            for i in 0..HW {
                let v = weight(i);
                if v > 0.0 {
                    cum += v;
                    if cum >= threshold {
                        out[g] = i as i64;
                        break;
                    }
                }
            }
        }
        out
    }

    /// One move for all active games, drawn from a pair of distributions.
    fn distribution_step(&mut self, d0: &[f32], d1: &[f32]) {
        let (m0, m1) = self.masks();
        let a = self.sample(d0, &m0);
        let b = self.sample(d1, &m1);
        self.apply(&a, &b);
    }

    fn over(&self) -> bool {
        self.finished.iter().all(|&f| f)
    }
}

/// A weight for each cell of each game.
struct Dist<'a>(&'a [f32]);

struct Sum {
    threshold: f64,
    cum: f64,
}

impl Weights for Dist<'_> {
    type Scan = Sum;

    fn open(
        &self,
        game: usize,
        legal: [u64; LEGAL_WORDS],
        mut rng: Rng,
    ) -> (Option<Sum>, Rng) {
        let mut total = 0.0f64;
        for k in 0..80 {
            if legal[k >> 6] >> (k & 63) & 1 == 1 {
                total += f64::from(self.0[game * HW + legal_cell(k)]);
            }
        }
        if total < 1e-8 {
            return (None, rng);
        }
        let threshold = random(&mut rng) * total;
        (Some(Sum { threshold, cum: 0.0 }), rng)
    }

    fn reaches(&self, mut scan: Sum, game: usize, cell: usize) -> (Sum, bool) {
        let v = f64::from(self.0[game * HW + cell]);
        if v > 0.0 {
            scan.cum += v;
            let over = scan.cum >= scan.threshold;
            return (scan, over);
        }
        (scan, false)
    }
}

fn weights(n: usize, rng: &mut Rng) -> Vec<f32> {
    (0..n * HW).map(|_| random(rng) as f32).collect()
}

/// Every level must equal what a from-scratch search would produce, and every running score
/// must equal what the scoring rule says about the same board.
fn check_levels_and_scores(inc: &IncrementalGame, at: &str) {
    let mut scratch = Scratch::new();
    let mut fresh = vec![0u8; HW];
    for g in 0..inc.n {
        let cells = &inc.boards[g * HW..(g + 1) * HW];
        rebuild_levels(cells, &mut fresh, &mut scratch);
        assert_eq!(&inc.levels[g * HW..(g + 1) * HW], &fresh[..], "{at}: game {g} levels");
        assert_eq!(inc.scores[g * 2], score_player(cells, P0), "{at}: game {g} player 0");
        assert_eq!(inc.scores[g * 2 + 1], score_player(cells, P1), "{at}: game {g} player 1");
    }
}

/// Every legality bit must match the board, and `finished` must match whether any is left.
fn check_legality(inc: &IncrementalGame, at: &str) {
    for g in 0..inc.n {
        let cells = &inc.boards[g * HW..(g + 1) * HW];
        let bits = inc.legal_bits(g);
        let mut any = false;
        for i in 0..HW {
            let k = i >> 1;
            let playable = cells[i] == PLAYABLE_SQUARE;
            let parity = i % 2 == (i / WIDTH) % 2;
            let set = parity && bits[k >> 6] >> (k & 63) & 1 == 1;
            assert_eq!(set, playable, "{at}: game {g} cell {i} legality bit");
            any |= playable;
        }
        assert_eq!(inc.finished[g], !any, "{at}: game {g} finished flag");
    }
}

/// One uniformly random legal index per game; 0 for finished games.
fn pick(mask: &[bool], finished: &[bool], n: usize, rng: &mut Rng) -> Vec<i64> {
    let mut out = vec![0i64; n];
    for g in 0..n {
        if finished[g] {
            continue;
        }
        let legal: Vec<i64> = (0..HW).filter(|i| mask[g * HW + i]).map(|i| i as i64).collect();
        assert!(!legal.is_empty(), "active game {g} has no legal moves");
        out[g] = legal[rng.randint(legal.len() as u64) as usize];
    }
    out
}

// -------------------------------------------------------------------------------- one board

/// A single board with its levels and running score.
struct Board {
    cells: Vec<i8>,
    level: Vec<u8>,
    score: Vec<i32>,
    legal: Vec<u64>,
    scratch: Scratch,
}

impl Board {
    fn new() -> Self {
        let g = Game::new();
        Board {
            cells: g.cells.to_vec(),
            level: vec![INF; HW],
            score: vec![0; 2],
            legal: g.legal.to_vec(),
            scratch: Scratch::new(),
        }
    }

    fn put(&mut self, r: usize, c: usize, p: i8) -> &mut Self {
        let i = r * WIDTH + c;
        insert(&mut self.cells, &mut self.level, &mut self.score, i, p, &mut self.scratch);
        self.check();
        self
    }

    fn take(&mut self, r: usize, c: usize) -> &mut Self {
        let i = r * WIDTH + c;
        remove(&mut self.cells, &mut self.level, &mut self.score, i, &mut self.scratch);
        self.check();
        self
    }

    fn collide(&mut self, r: usize, c: usize) -> &mut Self {
        apply_move(
            &mut self.cells,
            &mut self.level,
            &mut self.score,
            &mut self.legal,
            (r, c),
            (r, c),
            &mut self.scratch,
        );
        self.check();
        self
    }

    fn check(&self) {
        check_invariants(&self.cells, &self.level, &self.score).unwrap();
    }

    fn level_at(&self, r: usize, c: usize) -> u8 {
        self.level[r * WIDTH + c]
    }

    fn score_of(&self, p: i8) -> i32 {
        self.score[if p == P0 { 0 } else { 1 }]
    }
}

#[test]
fn a_border_mark_is_level_zero_and_an_isolated_interior_mark_is_unreachable() {
    let mut b = Board::new();
    b.put(0, 4, P0);
    assert_eq!(b.level_at(0, 4), 0);
    b.put(4, 4, P0);
    assert_eq!(b.level_at(4, 4), INF, "an interior mark with no route to the border is dead");
    assert_eq!(b.score_of(P0), 0);
}

#[test]
fn levels_count_steps_to_the_nearest_border() {
    let mut b = Board::new();
    for k in 0..5 {
        b.put(k, k, P0);
    }
    for k in 0..5 {
        assert_eq!(b.level_at(k, k), k as u8, "cell ({k},{k})");
    }
}

#[test]
fn a_new_anchor_pulls_the_levels_down_behind_it() {
    // A chain anchored only at (0,0), so levels count up along it. Anchoring the far end
    // gives every cell in the tail a shorter route, and those levels have to fall.
    let mut b = Board::new();
    for k in 0..HEIGHT - 1 {
        b.put(k, k, P0);
    }
    for k in 0..HEIGHT - 1 {
        assert_eq!(b.level_at(k, k), k as u8);
    }
    assert_eq!(b.score_of(P0), (HEIGHT - 1) as i32);

    b.put(HEIGHT - 1, HEIGHT - 1, P0); // (9,9) is on the bottom border
    assert_eq!(b.level_at(9, 9), 0);
    assert_eq!(b.level_at(8, 8), 1, "the new anchor beats the old route of length 8");
    assert_eq!(b.level_at(7, 7), 2);
    assert_eq!(b.level_at(6, 6), 3);
    assert_eq!(b.level_at(5, 5), 4);
    assert_eq!(b.level_at(4, 4), 4, "the old route was already this good, so it stands");
    assert_eq!(b.score_of(P0), HEIGHT as i32, "the run just got one cell longer");
}

#[test]
fn levels_never_exceed_the_cap() {
    let mut b = Board::new();
    for k in 0..8 {
        b.put(k, k, P0);
    }
    for i in 0..HW {
        if b.cells[i] == P0 {
            assert!(b.level[i] <= MAX_LEVEL || b.level[i] == INF);
        }
    }
}

#[test]
fn a_lone_mark_scores_nothing_and_a_pair_scores_two() {
    let mut b = Board::new();
    b.put(0, 0, P0);
    assert_eq!(b.score_of(P0), 0);
    b.put(1, 1, P0);
    assert_eq!(b.score_of(P0), 2, "a reachable run of 2 scores its full length");
}

#[test]
fn filling_a_gap_between_two_lone_marks_scores_three() {
    let mut b = Board::new();
    b.put(0, 0, P0); // border anchor
    b.put(2, 2, P0);
    assert_eq!(b.score_of(P0), 0, "not adjacent yet");
    b.put(1, 1, P0);
    assert_eq!(b.score_of(P0), 3);
}

#[test]
fn a_cell_in_two_qualifying_runs_is_counted_twice() {
    // an X centred at (1,1): both diagonals through it qualify
    let mut b = Board::new();
    b.put(0, 0, P0).put(1, 1, P0).put(2, 2, P0).put(0, 2, P0).put(2, 0, P0);
    assert_eq!(b.score_of(P0), 6);
}

#[test]
fn an_unreachable_run_scores_nothing_until_it_is_connected() {
    let mut b = Board::new();
    b.put(4, 4, P0).put(5, 5, P0).put(6, 6, P0);
    assert_eq!(b.score_of(P0), 0, "an interior blob has no route to the border");
    for i in [4, 5, 6] {
        assert_eq!(b.level_at(i, i), INF);
    }
}

#[test]
fn reviving_a_dead_blob_scores_the_whole_thing_at_once() {
    let mut b = Board::new();
    // build the chain inwards-out, so every cell is dead as it is placed
    for k in (1..7).rev() {
        b.put(k, k, P0);
        assert_eq!(b.score_of(P0), 0, "still no route to the border");
    }
    // the border cell wakes all six at once
    b.put(0, 0, P0);
    assert_eq!(b.score_of(P0), 7, "a run of 7, now reachable");
    for k in 0..7 {
        assert_eq!(b.level_at(k, k), k as u8);
    }
}

#[test]
fn cutting_a_line_anchored_at_both_ends_keeps_both_halves_alive() {
    // the case a plain reachable bit cannot answer without a full flood fill
    let mut b = Board::new();
    for k in 0..HEIGHT {
        b.put(k, k, P0); // (0,0) and (9,9) are both on the border
    }
    assert_eq!(b.score_of(P0), HEIGHT as i32);
    assert_eq!(b.level_at(4, 4), 4);
    assert_eq!(b.level_at(5, 5), 4, "level is distance to the *nearest* border");

    b.take(4, 4);
    // two runs of 4 and 5, both still anchored
    assert_eq!(b.score_of(P0), 9);
    for k in 0..HEIGHT {
        if k != 4 {
            assert_ne!(b.level_at(k, k), INF, "({k},{k}) still has a route");
        }
    }
}

#[test]
fn cutting_a_line_anchored_at_one_end_kills_the_far_half() {
    let mut b = Board::new();
    for k in 0..6 {
        b.put(k, k, P0); // only (0,0) is on the border
    }
    assert_eq!(b.score_of(P0), 6);

    b.take(2, 2);
    assert_eq!(b.score_of(P0), 2, "only the anchored run of 2 still counts");
    assert_eq!(b.level_at(0, 0), 0);
    assert_eq!(b.level_at(1, 1), 1);
    for k in 3..6 {
        assert_eq!(b.level_at(k, k), INF, "({k},{k}) was cut off");
    }
}

#[test]
fn a_severed_cycle_climbs_to_unreachable_without_any_cycle_detection() {
    // A on the border, B and D adjacent to A, C adjacent to both B and D. Removing A leaves
    // B, C, D justifying each other.
    let (a, bb, c, d) = ((0, 4), (1, 5), (2, 4), (1, 3));
    let mut b = Board::new();
    b.put(a.0, a.1, P0).put(bb.0, bb.1, P0).put(c.0, c.1, P0).put(d.0, d.1, P0);

    assert_eq!(b.level_at(a.0, a.1), 0);
    assert_eq!(b.level_at(bb.0, bb.1), 1);
    assert_eq!(b.level_at(d.0, d.1), 1);
    assert_eq!(b.level_at(c.0, c.1), 2);
    assert_eq!(b.score_of(P0), 8, "four runs of 2, two per diagonal family");

    b.take(a.0, a.1);
    assert_eq!(b.score_of(P0), 0, "nothing in the loop reaches the border any more");
    for (r, cc) in [bb, c, d] {
        assert_eq!(b.level_at(r, cc), INF, "({r},{cc}) should have climbed to INF");
    }
}

#[test]
fn removing_a_cell_nobody_routed_through_takes_the_local_path() {
    // (3,3) hangs off the side of an anchored chain; nothing routes through it
    let mut b = Board::new();
    b.put(0, 0, P0).put(1, 1, P0).put(2, 2, P0).put(3, 3, P0);
    assert_eq!(b.score_of(P0), 4);
    b.take(3, 3);
    assert_eq!(b.score_of(P0), 3);
    assert_eq!(b.level_at(2, 2), 2, "the survivors keep their levels");
}

#[test]
fn a_collision_clears_the_centre_and_its_four_diagonal_neighbours() {
    let mut b = Board::new();
    b.put(3, 3, P0).put(5, 5, P1);
    b.collide(4, 4);
    assert_eq!(b.cells[4 * WIDTH + 4], REMOVED_SQUARE);
    for (r, c) in [(3, 3), (3, 5), (5, 3), (5, 5)] {
        assert_eq!(b.cells[r * WIDTH + c], REMOVED_SQUARE, "({r},{c})");
    }
}

#[test]
fn a_collision_can_cut_both_players_at_once() {
    let mut b = Board::new();
    // player 0 runs down the main diagonal, player 1 down an anti-diagonal
    b.put(0, 0, P0).put(1, 1, P0).put(2, 2, P0).put(3, 3, P0);
    b.put(0, 8, P1).put(1, 7, P1).put(2, 6, P1).put(3, 5, P1);
    assert_eq!(b.score_of(P0), 4);
    assert_eq!(b.score_of(P1), 4);

    // (4,4) is empty and playable; its diagonal neighbours include (3,3) and (3,5),
    // one cell from each player
    b.collide(4, 4);
    assert_eq!(b.score_of(P0), 3, "player 0 lost the tail of its run");
    assert_eq!(b.score_of(P1), 3, "player 1 lost the tail of its run");
}

#[test]
fn incremental_a_corner_collision_stays_in_bounds() {
    let mut b = Board::new();
    b.put(1, 1, P0);
    b.collide(0, 0);
    assert_eq!(b.cells[0], REMOVED_SQUARE);
    assert_eq!(b.cells[WIDTH + 1], REMOVED_SQUARE);
}

/// A collision takes its five squares out of the mask, and no others.
#[test]
fn a_collision_clears_five_bits_of_the_mask() {
    let mut b = Board::new();
    let before = b.legal[0].count_ones() + b.legal[1].count_ones();
    b.collide(4, 4);
    assert_eq!(b.legal[0].count_ones() + b.legal[1].count_ones(), before - 5);
    for i in [68usize, 51, 53, 83, 85] {
        assert_eq!(b.legal[(i / 2) >> 6] >> ((i / 2) & 63) & 1, 0);
    }
}

#[test]
fn a_wrong_level_is_reported_with_its_square() {
    let mut b = Board::new();
    b.put(0, 0, P0).put(1, 1, P0);
    b.level[17] = 5;
    assert_eq!(
        check_invariants(&b.cells, &b.level, &b.score).unwrap_err(),
        "level invariant broken at cell 17 (r1 c1): stored 5, derived 1"
    );
}

#[test]
fn a_wrong_score_is_reported_with_its_player() {
    let mut b = Board::new();
    b.put(0, 0, P0).put(1, 1, P0);
    b.score[0] = 3;
    assert_eq!(
        check_invariants(&b.cells, &b.level, &b.score).unwrap_err(),
        "score for player 0 is 3, reference scorer says 2"
    );
    b.score[0] = 2;
    b.score[1] = -4;
    assert_eq!(
        check_invariants(&b.cells, &b.level, &b.score).unwrap_err(),
        "score for player 1 is -4, reference scorer says 0"
    );
}

// --------------------------------------------------------------------------------- scoring

fn with_marks(marks: &[(usize, usize, i8)]) -> Vec<i8> {
    let mut b = Game::new().cells.to_vec();
    for &(r, c, v) in marks {
        b[r * WIDTH + c] = v;
    }
    b
}

/// The score a game adopts with a board.
fn adopted(cells: &[i8], mark: i8) -> i32 {
    let mut s = Scratch::new();
    let g = Game::from_cells(cells.to_vec().try_into().unwrap(), &mut s);
    g.scores[if mark == P0 { 0 } else { 1 }]
}

/// One board as a batch.
fn batch(boards: Vec<i8>, move_counts: Vec<i32>, finished: Vec<bool>) -> IncrementalGame {
    IncrementalGame::from_state(boards, move_counts, finished, 0)
}

#[test]
fn empty_board_scores_zero() {
    let b = with_marks(&[]);
    assert_eq!(adopted(&b, P0), 0);
    assert_eq!(adopted(&b, P1), 0);
}

#[test]
fn single_stone_scores_zero() {
    // runs shorter than 2 never score, even on the border
    let b = with_marks(&[(0, 0, P0)]);
    assert_eq!(adopted(&b, P0), 0);
}

#[test]
fn border_touching_run_of_two_scores_its_length() {
    // (0,0) and (1,1) are on the same main diagonal; (0,0) is on the border
    let b = with_marks(&[(0, 0, P0), (1, 1, P0)]);
    assert_eq!(adopted(&b, P0), 2);
}

#[test]
fn interior_run_not_connected_to_border_scores_zero() {
    // (4,4)-(5,5) is a diagonal run of 2 that touches no edge and no edge-connected stone
    let b = with_marks(&[(4, 4, P0), (5, 5, P0)]);
    assert_eq!(adopted(&b, P0), 0);
}

#[test]
fn interior_run_scores_once_reachable_through_a_chain() {
    // a chain from the left border to the interior run makes the run count
    let mut marks = vec![(4, 4, P0), (5, 5, P0)];
    for (r, c) in [(4, 0), (4, 2), (5, 1), (5, 3)] {
        marks.push((r, c, P0));
    }
    let b = with_marks(&marks);
    let s = adopted(&b, P0);
    assert!(s > 0, "expected the border-connected chain to make runs count, got {s}");
}

#[test]
fn reachability_is_eight_connected_not_four() {
    // (0,0) on the border, (1,1) diagonally adjacent: 8-connectivity reaches it,
    // 4-connectivity would not (the orthogonal neighbours are non-playable)
    let b = with_marks(&[(0, 0, P0), (1, 1, P0), (2, 2, P0)]);
    assert_eq!(adopted(&b, P0), 3);
}

#[test]
fn both_diagonal_directions_are_counted() {
    let b = with_marks(&[(0, 0, P0), (1, 1, P0), (2, 2, P0), (0, 2, P0), (2, 0, P0)]);
    assert_eq!(adopted(&b, P0), 6);
}

#[test]
fn players_are_scored_independently() {
    let b = with_marks(&[(0, 0, P0), (1, 1, P0), (0, 4, P1), (1, 5, P1), (2, 6, P1)]);
    assert_eq!(adopted(&b, P0), 2);
    assert_eq!(adopted(&b, P1), 3);
}

#[test]
fn score_batch_matches_per_game_scoring() {
    let mut boards = Vec::new();
    let a = with_marks(&[(0, 0, P0), (1, 1, P0)]);
    let b = with_marks(&[(9, 1, P0), (8, 2, P0), (7, 3, P0)]);
    boards.extend_from_slice(&a);
    boards.extend_from_slice(&b);
    let g = batch(boards, vec![1, 1], vec![false, false]);
    assert_eq!(g.scores[0], adopted(&a, P0));
    assert_eq!(g.scores[2], adopted(&b, P0));
    assert_eq!(g.scores[0], 2);
    assert_eq!(g.scores[2], 3);
}

// ------------------------------------------------------------------------------ legal masks

#[test]
fn first_move_splits_the_board_between_players() {
    let g = batch(with_marks(&[]), vec![0], vec![false]);
    let (m0, m1, c0, c1) = g.get_legal_masks();
    for r in 0..HEIGHT {
        for c in 0..WIDTH {
            let playable = (r + c) % 2 == 0;
            let i = r * WIDTH + c;
            assert_eq!(m0[i], playable && c < WIDTH / 2, "p0 at {r},{c}");
            assert_eq!(m1[i], playable && c >= WIDTH / 2, "p1 at {r},{c}");
        }
    }
    assert_eq!(c0[0], 40);
    assert_eq!(c1[0], 40);
    assert_eq!(c0[0] + c1[0], 80);
}

#[test]
fn after_the_first_move_both_players_see_every_playable_square() {
    let g = batch(with_marks(&[]), vec![1], vec![false]);
    let (m0, m1, c0, c1) = g.get_legal_masks();
    assert_eq!(m0, m1);
    assert_eq!(c0[0], 80);
    assert_eq!(c1[0], 80);
}

#[test]
fn occupied_and_removed_squares_are_illegal() {
    let boards = with_marks(&[(0, 0, P0), (2, 2, P1), (4, 4, REMOVED_SQUARE)]);
    let g = batch(boards, vec![1], vec![false]);
    let (m0, _, c0, _) = g.get_legal_masks();
    assert!(!m0[0]);
    assert!(!m0[2 * WIDTH + 2]);
    assert!(!m0[4 * WIDTH + 4]);
    assert_eq!(c0[0], 77);
}

#[test]
fn masks_are_computed_per_game() {
    let mut boards = with_marks(&[]);
    boards.extend_from_slice(&with_marks(&[]));
    let g = batch(boards, vec![0, 3], vec![false, false]);
    let (_, _, c0, c1) = g.get_legal_masks();
    assert_eq!((c0[0], c1[0]), (40, 40)); // still on its first move
    assert_eq!((c0[1], c1[1]), (80, 80)); // past it
}

#[test]
fn masks_overwrite_a_dirty_buffer() {
    let g = batch(with_marks(&[(0, 0, P0)]), vec![1], vec![false]);
    let (m0, m1, c0, c1) = g.get_legal_masks();
    let mut d0 = vec![true; HW];
    let mut d1 = vec![true; HW];
    let mut n0 = vec![9u32; 1];
    let mut n1 = vec![9u32; 1];
    g.legal_masks_into(&mut d0, &mut d1, &mut n0, &mut n1);
    assert_eq!((d0, d1, n0, n1), (m0, m1, c0, c1));
}

// ------------------------------------------------------------------------- move application

#[test]
fn distinct_moves_place_one_mark_each() {
    let mut g = batch(with_marks(&[]), vec![0], vec![false]);
    g.apply_step(&[0], &[0], &[2], &[2], &[true]);
    assert_eq!(g.boards[0], P0);
    assert_eq!(g.boards[2 * WIDTH + 2], P1);
    assert_eq!(g.move_counts[0], 1);
    assert!(!g.finished[0]);
}

#[test]
fn a_collision_removes_the_square_and_its_playable_neighbours() {
    let mut g = batch(with_marks(&[]), vec![0], vec![false]);
    // both players pick (4, 4)
    g.apply_step(&[4], &[4], &[4], &[4], &[true]);
    assert_eq!(g.boards[4 * WIDTH + 4], REMOVED_SQUARE);
    // the four diagonal neighbours are playable-parity, so they go too
    for (r, c) in [(3, 3), (3, 5), (5, 3), (5, 5)] {
        assert_eq!(g.boards[r * WIDTH + c], REMOVED_SQUARE, "({r},{c}) should be removed");
    }
    // the orthogonal neighbours are the wrong parity and stay non-playable
    for (r, c) in [(3, 4), (5, 4), (4, 3), (4, 5)] {
        assert_eq!(g.boards[r * WIDTH + c], NON_PLAYABLE_SQUARE, "({r},{c}) should be untouched");
    }
    assert_eq!(g.move_counts[0], 1);
}

#[test]
fn kernels_a_corner_collision_stays_in_bounds() {
    let mut g = batch(with_marks(&[]), vec![0], vec![false]);
    g.apply_step(&[0], &[0], &[0], &[0], &[true]);
    assert_eq!(g.boards[0], REMOVED_SQUARE);
    assert_eq!(g.boards[WIDTH + 1], REMOVED_SQUARE);
}

#[test]
fn inactive_games_are_untouched() {
    let mut g = batch(with_marks(&[]), vec![7], vec![true]);
    let before = g.boards.clone();
    g.apply_step(&[0], &[0], &[2], &[2], &[false]);
    assert_eq!(g.boards, before);
    assert_eq!(g.move_counts[0], 7);
}

#[test]
fn finished_flips_when_the_last_playable_square_goes() {
    let mut boards = vec![NON_PLAYABLE_SQUARE; HW];
    boards[0] = PLAYABLE_SQUARE;
    boards[2 * WIDTH + 2] = PLAYABLE_SQUARE;
    let mut g = batch(boards, vec![1], vec![false]);
    g.apply_step(&[0], &[0], &[2], &[2], &[true]);
    assert!(g.finished[0], "board has no playable squares left");
}

#[test]
fn scores_are_refreshed_by_move_application() {
    let mut g = batch(with_marks(&[(0, 0, P0)]), vec![1], vec![false]);
    // player 0 extends the border-connected diagonal to length 2
    g.apply_step(&[1], &[1], &[8], &[8], &[true]);
    assert_eq!(g.scores[0], 2);
    assert_eq!(g.scores[1], 0);
}

#[test]
fn a_collision_blast_overwrites_marks_already_on_the_board() {
    let mut g = batch(with_marks(&[(3, 3, P0), (5, 5, P1)]), vec![1], vec![false]);
    g.apply_step(&[4], &[4], &[4], &[4], &[true]);
    assert_eq!(g.boards[3 * WIDTH + 3], REMOVED_SQUARE);
    assert_eq!(g.boards[5 * WIDTH + 5], REMOVED_SQUARE);
}

#[test]
fn one_game_can_be_moved_by_itself() {
    let mut g = IncrementalGame::new(2, 0);
    g.apply_game(1, 0, 0, 0, 8);
    assert_eq!(g.boards[HW], P0);
    assert_eq!(g.boards[HW + 8], P1);
    assert_eq!(g.boards[..HW], Game::new().cells);
    assert_eq!(g.move_counts, vec![0, 1]);
}

// ------------------------------------------------------------------------------ action_step

fn idx(r: usize, c: usize) -> i64 {
    (r * WIDTH + c) as i64
}

#[test]
fn a_fresh_batch_is_the_checkerboard_starting_position() {
    let g = IncrementalGame::new(3, 0);
    assert_eq!(g.n, 3);
    assert_eq!(g.half_width, WIDTH / 2);
    for game in 0..3 {
        for r in 0..HEIGHT {
            for c in 0..WIDTH {
                let want = if (r + c) % 2 == 0 { PLAYABLE_SQUARE } else { NON_PLAYABLE_SQUARE };
                assert_eq!(g.boards[game * HW + r * WIDTH + c], want, "game {game} at {r},{c}");
            }
        }
    }
    assert!(g.scores.iter().all(|&s| s == 0));
    assert!(g.move_counts.iter().all(|&m| m == 0));
    assert!(g.finished.iter().all(|&f| !f));
}

#[test]
fn action_step_places_both_marks() {
    let mut g = IncrementalGame::new(1, 0);
    g.action_step(&[idx(0, 0)], &[idx(0, 8)]).unwrap();
    assert_eq!(g.boards[0], P0);
    assert_eq!(g.boards[8], P1);
    assert_eq!(g.move_counts[0], 1);
}

#[test]
fn action_step_rejects_an_illegal_move_with_the_python_message() {
    let mut g = IncrementalGame::new(2, 0);
    // player 0's first move must be in the left half; (0, 8) is not
    let err = g.action_step(&[idx(0, 0), idx(0, 8)], &[idx(0, 8), idx(0, 10)]).unwrap_err();
    assert_eq!(
        err,
        "Invalid move detected in batch at game indices: [1]. \
         Execution aborted; no games updated."
    );
}

#[test]
fn a_rejected_action_step_leaves_every_game_untouched() {
    let mut g = IncrementalGame::new(2, 0);
    let boards = g.boards.clone();
    let move_counts = g.move_counts.clone();
    // game 0's move is fine, game 1's is not; neither may be applied
    assert!(g.action_step(&[idx(0, 0), idx(0, 8)], &[idx(0, 8), idx(0, 10)]).is_err());
    assert_eq!(g.boards, boards);
    assert_eq!(g.move_counts, move_counts);
}

#[test]
fn the_first_move_is_restricted_to_opposite_halves() {
    let mut g = IncrementalGame::new(1, 0);
    // player 1 may not open in the left half
    assert!(g.action_step(&[idx(0, 0)], &[idx(0, 2)]).is_err());
    // player 0 may not open in the right half
    assert!(g.action_step(&[idx(0, 10)], &[idx(0, 8)]).is_err());
    // the legal pairing works, and afterwards the restriction is gone
    g.action_step(&[idx(0, 0)], &[idx(0, 8)]).unwrap();
    g.action_step(&[idx(0, 10)], &[idx(0, 2)]).unwrap();
    assert_eq!(g.move_counts[0], 2);
}

#[test]
fn action_step_on_an_all_finished_batch_is_a_no_op() {
    let mut g = IncrementalGame::new(1, 0);
    g.finished[0] = true;
    let boards = g.boards.clone();
    g.action_step(&[idx(0, 0)], &[idx(0, 8)]).unwrap();
    assert_eq!(g.boards, boards);
    assert_eq!(g.move_counts[0], 0);
}

#[test]
fn a_collision_via_action_step_removes_the_neighbourhood() {
    let mut g = IncrementalGame::new(1, 0);
    g.action_step(&[idx(0, 0)], &[idx(0, 8)]).unwrap();
    g.action_step(&[idx(4, 4)], &[idx(4, 4)]).unwrap();
    assert_eq!(g.boards[4 * WIDTH + 4], REMOVED_SQUARE);
    for (r, c) in [(3, 3), (3, 5), (5, 3), (5, 5)] {
        assert_eq!(g.boards[r * WIDTH + c], REMOVED_SQUARE);
    }
}

#[test]
fn a_broken_batch_is_named_by_its_game() {
    let mut g = IncrementalGame::new(2, 0);
    g.check_invariants().unwrap();
    g.finished[1] = true;
    let err = g.check_invariants().unwrap_err();
    assert!(err.contains("game 1"), "{err}");
    let mut g = IncrementalGame::new(2, 0);
    g.legal[0] = 0;
    let err = g.check_invariants().unwrap_err();
    assert!(err.contains("game 0"), "{err}");
    let mut g = IncrementalGame::new(2, 0);
    g.scores[3] = 1;
    let err = g.check_invariants().unwrap_err();
    assert!(err.contains("game 1"), "{err}");
}

// --------------------------------------------------------------------------------- rollouts

/// Drives both through the same random legal moves and compares state after every move.
/// Returns how many collisions occurred.
fn differential_rollout(n: usize, seed: u64, check_every_step: bool) -> usize {
    let mut refg = Reference::new(n, seed);
    let mut inc = IncrementalGame::new(n, seed);
    let mut rng = Rng::new(seed ^ 0x9e37_79b9);
    let mut collisions = 0usize;
    let mut steps = 0usize;

    while !refg.over() {
        let (m0, m1) = refg.masks();
        let idx0 = pick(&m0, &refg.finished, n, &mut rng);
        let idx1 = pick(&m1, &refg.finished, n, &mut rng);
        for g in 0..n {
            if !refg.finished[g] && idx0[g] == idx1[g] {
                collisions += 1;
            }
        }

        refg.apply(&idx0, &idx1);
        inc.action_step(&idx0, &idx1).unwrap();

        assert_eq!(inc.boards, refg.boards, "seed {seed} step {steps}: boards diverged");
        assert_eq!(inc.scores, refg.scores, "seed {seed} step {steps}: scores diverged");
        assert_eq!(inc.move_counts, refg.move_counts, "seed {seed} step {steps}");
        assert_eq!(inc.finished, refg.finished, "seed {seed} step {steps}");
        if check_every_step {
            inc.check_invariants()
                .unwrap_or_else(|e| panic!("seed {seed} step {steps}: {e}"));
        }

        steps += 1;
        assert!(steps < 200, "rollout did not terminate");
    }
    collisions
}

#[test]
fn matches_the_reference_over_random_rollouts() {
    let mut collisions = 0;
    for seed in 0..12u64 {
        collisions += differential_rollout(128, seed, false);
    }
    assert!(collisions > 100, "expected the collision path to be exercised, saw {collisions}");
}

#[test]
fn holds_its_invariants_after_every_move_of_a_full_rollout() {
    let mut collisions = 0;
    for seed in 100..103u64 {
        collisions += differential_rollout(24, seed, true);
    }
    assert!(collisions > 0, "expected at least one collision, saw {collisions}");
}

/// Collisions are rare under random play, so this forces them.
#[test]
fn matches_the_reference_under_heavy_collision_pressure() {
    for seed in 0..6u64 {
        let n = 64;
        let mut refg = Reference::new(n, seed);
        let mut inc = IncrementalGame::new(n, seed);
        let mut rng = Rng::new(seed ^ 0xfeed);
        let mut collisions = 0usize;
        let mut steps = 0usize;

        while !refg.over() {
            let (m0, m1) = refg.masks();
            let idx0 = pick(&m0, &refg.finished, n, &mut rng);
            let mut idx1 = pick(&m1, &refg.finished, n, &mut rng);
            // Every other game is steered into a collision, but only where the square is
            // legal for both players: on the opening move the halves are disjoint.
            for g in (0..n).step_by(2) {
                if !refg.finished[g] && m1[g * HW + idx0[g] as usize] {
                    idx1[g] = idx0[g];
                }
            }
            for g in 0..n {
                if !refg.finished[g] && idx0[g] == idx1[g] {
                    collisions += 1;
                }
            }

            refg.apply(&idx0, &idx1);
            inc.action_step(&idx0, &idx1).unwrap();
            assert_eq!(inc.boards, refg.boards, "seed {seed} step {steps}");
            assert_eq!(inc.scores, refg.scores, "seed {seed} step {steps}");
            inc.check_invariants().unwrap();

            steps += 1;
            assert!(steps < 200);
        }
        assert!(collisions > 50, "seed {seed}: only {collisions} collisions");
    }
}

/// The two ways to repair levels behind a cut leave the same state.
#[test]
fn both_repairs_leave_the_same_state() {
    let n = 64;
    let mut walking = IncrementalGame::new(n, 0);
    let mut rebuilding = IncrementalGame::new(n, 0);
    walking.set_bfs_repair(false);
    rebuilding.set_bfs_repair(true);
    let mut rng = Rng::new(77);
    while !walking.finished.iter().all(|&f| f) {
        let (m0, m1, _, _) = walking.get_legal_masks();
        let idx0 = pick(&m0, &walking.finished, n, &mut rng);
        let idx1 = pick(&m1, &walking.finished, n, &mut rng);
        walking.action_step(&idx0, &idx1).unwrap();
        rebuilding.action_step(&idx0, &idx1).unwrap();
        assert_eq!(walking.boards, rebuilding.boards);
        assert_eq!(walking.levels, rebuilding.levels);
        assert_eq!(walking.scores, rebuilding.scores);
    }
    walking.reset_stats();
    assert_eq!(walking.stats(), IncrementalGame::new(1, 0).stats());
}

#[test]
fn distribution_step_matches_a_from_scratch_rescore() {
    let n = 96;
    let mut inc = IncrementalGame::new(n, 7);
    let dist = weights(n, &mut Rng::new(11));
    let mut steps = 0;
    while !inc.finished.iter().all(|&f| f) {
        inc.distribution_step(&Dist(&dist), &Dist(&dist));
        steps += 1;
        assert!(steps < 200);
    }
    inc.check_invariants().unwrap();
    for g in 0..n {
        let cells = &inc.boards[g * HW..(g + 1) * HW];
        assert_eq!(inc.scores[g * 2], score_player(cells, P0));
        assert_eq!(inc.scores[g * 2 + 1], score_player(cells, P1));
    }
}

#[test]
fn from_state_reconstructs_levels_and_scores() {
    // play a while, then rebuild from the raw board alone and check nothing was lost
    let n = 32;
    let mut inc = IncrementalGame::new(n, 3);
    let dist = weights(n, &mut Rng::new(5));
    for _ in 0..15 {
        inc.distribution_step(&Dist(&dist), &Dist(&dist));
    }
    let rebuilt = IncrementalGame::from_state(
        inc.boards.clone(),
        inc.move_counts.clone(),
        inc.finished.clone(),
        0,
    );
    assert_eq!(rebuilt.levels, inc.levels);
    assert_eq!(rebuilt.scores, inc.scores);
    rebuilt.check_invariants().unwrap();
}

#[test]
fn the_live_list_survives_collisions_and_stays_row_major() {
    let n = 48;
    let mut inc = IncrementalGame::new(n, 21);
    // one shared distribution makes both players collide far more often
    let dist = weights(n, &mut Rng::new(99));
    let mut steps = 0;
    while !inc.finished.iter().all(|&f| f) {
        inc.distribution_step(&Dist(&dist), &Dist(&dist));
        // the mask equals the playable squares
        inc.check_invariants().unwrap();
        steps += 1;
        assert!(steps < 200);
    }
}

#[test]
fn the_live_list_sampler_picks_the_same_moves_as_the_reference_sampler() {
    for seed in 0..6u64 {
        let n = 96;
        let mut refg = Reference::new(n, seed);
        let mut inc = IncrementalGame::new(n, seed);
        let mut rng = Rng::new(seed ^ 0x5171);
        let d0 = weights(n, &mut rng);
        let d1 = weights(n, &mut rng);

        let mut steps = 0;
        while !refg.over() {
            refg.distribution_step(&d0, &d1);
            inc.distribution_step(&Dist(&d0), &Dist(&d1));
            assert_eq!(inc.boards, refg.boards, "seed {seed} step {steps}: different move chosen");
            assert_eq!(inc.scores, refg.scores, "seed {seed} step {steps}");
            assert_eq!(inc.finished, refg.finished, "seed {seed} step {steps}");
            steps += 1;
            assert!(steps < 200);
        }
        inc.check_invariants().unwrap();
    }
}

#[test]
fn distribution_step_only_plays_legal_squares() {
    let mut g = IncrementalGame::new(64, 99);
    let dist = vec![1.0f32; 64 * HW];
    let mut steps = 0;
    while !g.finished.iter().all(|&f| f) {
        let before = g.boards.clone();
        let finished_before = g.finished.clone();
        let (m0, m1, _, _) = g.get_legal_masks();
        g.distribution_step(&Dist(&dist), &Dist(&dist));

        for game in 0..g.n {
            if finished_before[game] {
                continue;
            }
            for i in 0..HW {
                let (b, a) = (before[game * HW + i], g.boards[game * HW + i]);
                if b == a {
                    continue;
                }
                match a {
                    // a mark can only be placed on a square the mask allowed
                    PLAYER_0_MARK => assert!(m0[game * HW + i], "game {game} illegal p0 move"),
                    PLAYER_1_MARK => assert!(m1[game * HW + i], "game {game} illegal p1 move"),
                    // a collision overwrites, and only ever with a removed square
                    REMOVED_SQUARE => {}
                    other => panic!("game {game} square {i} became {other}"),
                }
            }
        }
        steps += 1;
        assert!(steps < 200);
    }
}

// ---------------------------------------------------------------------------------- sampler

fn sample(g: &mut IncrementalGame, dist: &[f32], active: bool) -> (i64, i64) {
    let (mut r, mut c) = ([9i64], [9i64]);
    g.sample_moves(&Dist(dist), 0, &[active], &mut r, &mut c);
    (r[0], c[0])
}

fn sampled_board(boards: Vec<i8>, seed: u64) -> IncrementalGame {
    IncrementalGame::from_state(boards, vec![1], vec![false], seed)
}

#[test]
fn sampler_only_ever_returns_legal_squares() {
    let boards = with_marks(&[(0, 0, P0), (2, 2, REMOVED_SQUARE)]);
    let mut g = sampled_board(boards, 7);
    let (mask, _, _, _) = g.get_legal_masks();
    let dist = vec![1.0f32; HW];
    for _ in 0..20_000 {
        let (r, c) = sample(&mut g, &dist, true);
        let i = r as usize * WIDTH + c as usize;
        assert!(mask[i], "sampled illegal square ({r}, {c})");
    }
}

#[test]
fn sampler_ignores_inactive_games_and_leaves_the_placeholder() {
    let mut g = sampled_board(with_marks(&[]), 7);
    let dist = vec![1.0f32; HW];
    assert_eq!(sample(&mut g, &dist, false), (0, 0));
}

#[test]
fn sampler_is_deterministic_for_a_one_hot_distribution() {
    let mut g = sampled_board(with_marks(&[]), 11);
    let mut dist = vec![0.0f32; HW];
    dist[6 * WIDTH + 4] = 1.0; // (6,4) is playable
    for _ in 0..1000 {
        assert_eq!(sample(&mut g, &dist, true), (6, 4));
    }
}

#[test]
fn sampler_frequencies_track_the_distribution() {
    // two legal squares with weights 3:1
    let a = 0usize; // (0,0)
    let b = 2 * WIDTH + 2; // (2,2)
    let mut boards = vec![NON_PLAYABLE_SQUARE; HW];
    boards[a] = PLAYABLE_SQUARE;
    boards[b] = PLAYABLE_SQUARE;
    let mut g = sampled_board(boards, 2024);
    let mut dist = vec![0.0f32; HW];
    dist[a] = 3.0;
    dist[b] = 1.0;

    let trials = 200_000;
    let mut hits_a = 0;
    for _ in 0..trials {
        if sample(&mut g, &dist, true) == (0, 0) {
            hits_a += 1;
        }
    }
    let p = hits_a as f64 / trials as f64;
    assert!((p - 0.75).abs() < 0.01, "expected ~0.75, got {p}");
}

#[test]
fn sampler_falls_back_to_an_unmasked_uniform_draw_when_all_weight_is_zero() {
    // the degenerate branch ignores the mask entirely
    let mut g = sampled_board(with_marks(&[]), 3);
    let dist = vec![0.0f32; HW];
    let mut seen = std::collections::HashSet::new();
    for _ in 0..5000 {
        let (r, c) = sample(&mut g, &dist, true);
        assert!((r as usize) < HEIGHT && (c as usize) < WIDTH);
        seen.insert((r, c));
    }
    assert!(seen.len() > HW / 2, "fallback should cover the whole board, saw {}", seen.len());
}

/// Verdicts on the squares of a mask come to the first favourable one.
#[test]
fn verdicts_decide_the_square() {
    // squares 0, 3 and 64: cells 0, 6 and 128
    let legal = [0b1001, 1];
    let mut rng = Rng::new(1);
    let mut same = Rng::new(1);
    let on = |squares: &[usize]| {
        let mut v = vec![false; 128];
        for &k in squares {
            v[k] = true;
        }
        Some(v)
    };
    let cell = |v: Option<Vec<bool>>, rng: &mut Rng| IncrementalGame::sampled_cell(legal, &v, rng);
    assert_eq!(cell(on(&[3, 64]), &mut rng), 6);
    assert_eq!(cell(on(&[64]), &mut rng), 128);
    assert_eq!(cell(on(&[]), &mut rng), 0);
    assert_eq!(cell(None, &mut rng), same.randint(160) as usize);
    // a game by itself keeps to its mask
    assert_eq!(Game::sampled(legal, &on(&[3, 64]), &mut rng), 6);
    for v in [None, on(&[])] {
        let want = [0, 6, 128][same.randint(3) as usize];
        assert_eq!(Game::sampled(legal, &v, &mut rng), want);
    }
}

/// A game whose weights are all zero still plays legal moves.
#[test]
fn a_game_without_weights_plays_uniformly() {
    let zero = vec![0.0f32; HW];
    let mut weighted = Game::new();
    let mut uniform = Game::new();
    let (mut a, mut b) = (Rng::new(9), Rng::new(9));
    let mut scratch = Scratch::new();
    while !weighted.finished {
        weighted.distribution_step(&Dist(&zero), &Dist(&zero), &mut a, &mut scratch);
        uniform.uniform_step(&mut b, &mut scratch);
        assert_eq!(weighted, uniform);
    }
}

/// Where no legal square carries weight, any square of the board is drawn, and played whatever
/// is on it. Levels and scores stay those of the board.
#[test]
fn a_batch_without_weights_plays_any_square() {
    let zero = vec![0.0f32; HW];
    let (mut open, mut closed) = (0, 0);
    for seed in 0..200 {
        let mut twin = IncrementalGame::new(1, seed);
        let (mut r, mut c) = ([0i64; 2], [0i64; 2]);
        for player in 0..2 {
            let (rows, cols) = (&mut r[player..player + 1], &mut c[player..player + 1]);
            twin.sample_moves(&Dist(&zero), player, &[true], rows, cols);
        }
        let cells = [0, 1].map(|p| r[p] as usize * WIDTH + c[p] as usize);

        let mut g = IncrementalGame::new(1, seed);
        let before = g.boards.clone();
        g.distribution_step(&Dist(&zero), &Dist(&zero));
        if cells[0] == cells[1] {
            assert_eq!(g.boards[cells[0]], REMOVED_SQUARE, "seed {seed}");
        } else {
            assert_eq!([g.boards[cells[0]], g.boards[cells[1]]], [P0, P1], "seed {seed}");
        }
        if cells.iter().all(|&i| before[i] == PLAYABLE_SQUARE) {
            open += 1;
        } else {
            closed += 1;
        }
        assert_eq!(g.move_counts[0], 1);
        check_invariants(&g.boards, &g.levels, &g.scores).unwrap();
        assert_eq!(g.scores[0], score_player(&g.boards, P0));
        assert_eq!(g.scores[1], score_player(&g.boards, P1));
    }
    assert!(open > 0 && closed > 0, "{open} on open squares, {closed} not");
}

/// A mark takes the place of one that is already there.
#[test]
fn a_mark_takes_the_place_of_a_mark() {
    let mut g = IncrementalGame::new(1, 0);
    g.apply_game(0, 0, 0, 5, 9);
    g.apply_game(0, 1, 1, 7, 7);
    assert_eq!(g.scores[..], [2, 0]);
    // each player takes a square from the other
    g.apply_game(0, 7, 7, 0, 0);
    assert_eq!([g.boards[0], g.boards[7 * WIDTH + 7]], [P1, P0]);
    check_invariants(&g.boards, &g.levels, &g.scores).unwrap();
    assert_eq!(g.scores[..], [0, 0]);
    let s = g.stats();
    assert_eq!((s.inserts, s.removes), (6, 2));
    assert_eq!((s.removes_dead, s.removes_slow), (1, 1));
}

/// Every mark that is placed or taken is counted by the path it took.
#[test]
fn a_move_counts_its_path() {
    let mut g = IncrementalGame::new(1, 0);
    g.set_bfs_repair(true);
    let zero = g.stats();
    // nothing near the border: both marks are dead
    g.apply_game(0, 2, 2, 2, 8);
    let dead = g.stats();
    assert_eq!((dead.inserts, dead.inserts_dead), (2, 2));
    assert_eq!(MovePath::of(&zero, &dead, false), MovePath::InsertDead);
    g.apply_game(0, 1, 1, 3, 9);
    // player 0 revives a line of two, and player 1 starts one on the border
    let before = g.stats();
    g.apply_game(0, 0, 0, 0, 6);
    let slow = g.stats();
    assert_eq!((slow.inserts, slow.inserts_dead), (6, 4));
    assert_eq!((slow.inserts_slow, slow.inserts_fast), (1, 1));
    assert_eq!((slow.component_walks, slow.component_cells), (1, 3));
    assert_eq!(slow.relax_pops, 4);
    assert_eq!(MovePath::of(&before, &slow, false), MovePath::InsertSlow);
    // both lines grow
    g.apply_game(0, 3, 3, 1, 7);
    let fast = g.stats();
    assert_eq!((fast.inserts_fast, fast.relax_pops), (2, 8));
    assert_eq!(MovePath::of(&slow, &fast, false), MovePath::InsertSlow);
    // nothing to clear, then the root of a line of four, then the end of a line
    g.apply_game(0, 7, 13, 7, 13);
    let empty = g.stats();
    assert_eq!((empty.removes, empty.removes_nonmark), (5, 5));
    assert_eq!(MovePath::of(&fast, &empty, true), MovePath::CollisionCheap);
    g.apply_game(0, 0, 0, 0, 0);
    let cut = g.stats();
    assert_eq!((cut.removes, cut.removes_slow, cut.removes_dead), (7, 1, 1));
    assert_eq!((cut.bfs_repairs, cut.bfs_cells), (1, 3));
    assert_eq!((cut.repair_pops, cut.repair_max_level), (0, 0));
    assert_eq!(MovePath::of(&empty, &cut, true), MovePath::CollisionSlow);
    check_invariants(&g.boards, &g.levels, &g.scores).unwrap();
    g.reset_stats();
    assert_eq!(g.stats(), zero);
}

/// The two repairs take the same path and differ in the work they count.
#[test]
fn each_repair_counts_its_own_work() {
    let play = |bfs: bool| {
        let mut g = IncrementalGame::new(1, 0);
        g.set_bfs_repair(bfs);
        for k in 0..4 {
            g.apply_game(0, k, k, 5, 15 - 2 * k);
        }
        g.reset_stats();
        // the line loses its root and the mark behind it
        g.apply_game(0, 0, 0, 0, 0);
        check_invariants(&g.boards, &g.levels, &g.scores).unwrap();
        g.stats()
    };
    let (rebuilt, walked) = (play(true), play(false));
    for s in [rebuilt, walked] {
        assert_eq!((s.removes, s.removes_slow, s.removes_dead), (2, 1, 1));
        assert_eq!((s.component_walks, s.component_cells), (1, 4));
    }
    assert_eq!((rebuilt.bfs_repairs, rebuilt.bfs_cells, rebuilt.repair_pops), (1, 3, 0));
    assert_eq!((walked.bfs_repairs, walked.bfs_cells), (0, 0));
    assert!(walked.repair_pops >= 3);
    assert_eq!(walked.repair_dead + walked.repair_capped, 3);
}

/// Moves of different games do not get in each other's way: step by step, game by game and
/// with the games in any order, a batch ends in the same state.
#[test]
fn the_order_of_games_does_not_matter() {
    let n = 24;
    let mut lead = IncrementalGame::new(n, 77);
    let dist = weights(n, &mut Rng::new(13));
    let mut by_step = IncrementalGame::new(n, 1);
    let mut steps: Vec<[Vec<i64>; 4]> = Vec::new();
    let mut actives: Vec<Vec<bool>> = Vec::new();
    while !lead.finished.iter().all(|&f| f) {
        let active: Vec<bool> = lead.finished.iter().map(|f| !f).collect();
        let mut m = [vec![0i64; n], vec![0i64; n], vec![0i64; n], vec![0i64; n]];
        let (first, second) = m.split_at_mut(2);
        let (r0, c0) = first.split_at_mut(1);
        lead.sample_moves(&Dist(&dist), 0, &active, &mut r0[0], &mut c0[0]);
        let (r1, c1) = second.split_at_mut(1);
        lead.sample_moves(&Dist(&dist), 1, &active, &mut r1[0], &mut c1[0]);
        lead.apply_step(&m[0], &m[1], &m[2], &m[3], &active);
        by_step.apply_step(&m[0], &m[1], &m[2], &m[3], &active);
        steps.push(m);
        actives.push(active);
    }
    let mut by_game = IncrementalGame::new(n, 2);
    for g in (0..n).rev() {
        for (m, active) in steps.iter().zip(&actives) {
            if active[g] {
                by_game.apply_game(g, m[0][g], m[1][g], m[2][g], m[3][g]);
            }
        }
    }
    for b in [&by_step, &by_game] {
        assert_eq!(b.boards, lead.boards);
        assert_eq!(b.levels, lead.levels);
        assert_eq!(b.scores, lead.scores);
        assert_eq!(b.finished, lead.finished);
        assert_eq!(b.move_counts, lead.move_counts);
        b.check_invariants().unwrap();
    }
}

#[test]
fn a_full_random_rollout_keeps_every_state_invariant() {
    let n = 128;
    let mut g = IncrementalGame::new(n, 4242);
    let dist = weights(n, &mut Rng::new(7));

    let mut steps = 0;
    while !g.finished.iter().all(|&f| f) {
        let prev_counts = g.move_counts.clone();
        let prev_finished = g.finished.clone();
        g.distribution_step(&Dist(&dist), &Dist(&dist));
        steps += 1;
        assert!(steps < 200, "rollout did not terminate");

        for game in 0..g.n {
            let cells = &g.boards[game * HW..(game + 1) * HW];
            // wrong-parity squares can never become playable or occupied
            for r in 0..HEIGHT {
                for c in 0..WIDTH {
                    if (r + c) % 2 != 0 {
                        assert_eq!(cells[r * WIDTH + c], NON_PLAYABLE_SQUARE);
                    }
                }
            }
            assert!(cells.iter().all(|&v| (0..5).contains(&v)));

            // cached scores agree with a from-scratch rescore
            assert_eq!(g.scores[game * 2], score_player(cells, P0), "game {game} p0 score drifted");
            assert_eq!(
                g.scores[game * 2 + 1],
                score_player(cells, P1),
                "game {game} p1 score drifted"
            );

            // finished is exactly "no playable square left", and is sticky
            let any_playable = cells.iter().any(|&v| v == PLAYABLE_SQUARE);
            assert_eq!(g.finished[game], !any_playable, "game {game} finished flag is wrong");
            if prev_finished[game] {
                assert!(g.finished[game], "game {game} un-finished itself");
            }

            // active games advance by exactly one move, finished games not at all
            let want = prev_counts[game] + if prev_finished[game] { 0 } else { 1 };
            assert_eq!(g.move_counts[game], want, "game {game} move count");
        }

        // masks never mark a non-playable square
        let (m0, m1, c0, c1) = g.get_legal_masks();
        for game in 0..g.n {
            let mut n0 = 0;
            let mut n1 = 0;
            for i in 0..HW {
                let playable = g.boards[game * HW + i] == PLAYABLE_SQUARE;
                assert!(playable || !m0[game * HW + i]);
                assert!(playable || !m1[game * HW + i]);
                n0 += u32::from(m0[game * HW + i]);
                n1 += u32::from(m1[game * HW + i]);
            }
            assert_eq!(c0[game], n0);
            assert_eq!(c1[game], n1);
        }
    }
}

// ----------------------------------------------------------------------------------- parity

#[test]
fn the_engine_matches_the_oracle_bit_for_bit() {
    let n: usize = 10_000;
    let seed = 0xa1f_41e5u64;

    let mut refg = Reference::new(n, seed);
    let mut inc = IncrementalGame::new(n, seed);

    let mut rng = Rng::new(seed ^ 0x9e37_79b9);
    // [random, forced]: the odd-numbered games and the even-numbered ones
    let mut moves = [0usize; 2];
    let mut collisions = [0usize; 2];
    let mut steps = 0usize;

    while !refg.over() {
        let (m0, m1) = refg.masks();
        let idx0 = pick(&m0, &refg.finished, n, &mut rng);
        let mut idx1 = pick(&m1, &refg.finished, n, &mut rng);

        // every sixth step, steer the even-numbered games onto their opponent's square
        // wherever that square is legal for both
        if steps % 6 == 0 {
            for g in (0..n).step_by(2) {
                if !refg.finished[g] && m1[g * HW + idx0[g] as usize] {
                    idx1[g] = idx0[g];
                }
            }
        }
        for g in 0..n {
            if !refg.finished[g] {
                let half = 1 - g % 2; // 0 = random, 1 = forced
                moves[half] += 1;
                if idx0[g] == idx1[g] {
                    collisions[half] += 1;
                }
            }
        }

        refg.apply(&idx0, &idx1);
        inc.action_step(&idx0, &idx1).unwrap();

        assert_eq!(inc.boards, refg.boards, "boards diverged at step {steps}");
        assert_eq!(inc.scores, refg.scores, "scores diverged at step {steps}");
        assert_eq!(inc.move_counts, refg.move_counts, "move counts at step {steps}");
        assert_eq!(inc.finished, refg.finished, "finished flags at step {steps}");
        let (m0, m1) = refg.masks();
        let (w0, w1, _, _) = inc.get_legal_masks();
        assert_eq!((w0, w1), (m0, m1), "legality at step {steps}");
        check_levels_and_scores(&inc, &format!("step {steps}"));
        check_legality(&inc, &format!("step {steps}"));

        steps += 1;
        assert!(steps < 200, "rollout did not terminate");
    }

    assert!(moves[0] + moves[1] > n * 30, "only {} moves over {n} games", moves[0] + moves[1]);
    assert!(
        collisions[0] * 100 > moves[0],
        "random play produced only {} collisions in {} moves",
        collisions[0],
        moves[0]
    );
    assert!(
        collisions[1] * 8 > moves[1],
        "the nudged half produced only {} collisions in {} moves",
        collisions[1],
        moves[1]
    );
}

/// The engine's sampler walks set bits; the reference walks 160 squares against a mask. Same
/// order, same accumulation, same draws, so a seeded rollout agrees move for move.
#[test]
fn the_bitboard_sampler_picks_the_same_moves_as_the_oracle_sampler() {
    let n: usize = 2_000;
    let seed = 0x5a3_1e5u64;

    let mut rng = Rng::new(seed);
    let d0 = weights(n, &mut rng);
    let d1 = weights(n, &mut rng);

    let mut refg = Reference::new(n, seed);
    let mut inc = IncrementalGame::new(n, seed);
    let mut steps = 0usize;

    while !refg.over() {
        refg.distribution_step(&d0, &d1);
        inc.distribution_step(&Dist(&d0), &Dist(&d1));
        assert_eq!(inc.boards, refg.boards, "sampler diverged at step {steps}");
        assert_eq!(inc.scores, refg.scores, "scores diverged at step {steps}");
        check_levels_and_scores(&inc, &format!("step {steps}"));
        check_legality(&inc, &format!("step {steps}"));
        steps += 1;
        assert!(steps < 200, "rollout did not terminate");
    }
    assert_eq!(steps, 44, "a full rollout should take 44 steps, took {steps}");
}

#[test]
fn every_public_call_agrees_with_the_oracle() {
    let n: usize = 512;
    let seed = 0xc0de_5eedu64;
    let half = WIDTH / 2;

    let mut rng = Rng::new(seed);
    let d0 = weights(n, &mut rng);
    let d1 = weights(n, &mut rng);

    let mut refg = Reference::new(n, seed);
    let mut inc = IncrementalGame::new(n, seed);
    let mut steps = 0usize;

    loop {
        assert_eq!(inc.boards, refg.boards, "boards at step {steps}");
        assert_eq!(inc.scores, refg.scores, "scores at step {steps}");
        assert_eq!(inc.move_counts, refg.move_counts, "move_counts at step {steps}");
        assert_eq!(inc.finished, refg.finished, "finished at step {steps}");
        assert_eq!(inc.scores.len(), 2 * n, "one integer score per player per game");

        // legal_bits, cell by cell, against the board and against the dense masks
        let (want0, want1, wc0, wc1) = inc.get_legal_masks();
        for g in 0..n {
            let bits = inc.legal_bits(g);
            assert_eq!(bits.len(), LEGAL_WORDS);
            let first = refg.move_counts[g] == 0;
            let (mut n0, mut n1) = (0, 0);
            for i in 0..HW {
                let k = i >> 1;
                let set = i % 2 == (i / WIDTH) % 2 && bits[k >> 6] >> (k & 63) & 1 == 1;
                let playable = refg.boards[g * HW + i] == PLAYABLE_SQUARE;
                assert_eq!(set, playable, "legal_bits g{g} cell {i} at step {steps}");
                let c = i % WIDTH;
                let want_0 = playable && !(first && c >= half);
                let want_1 = playable && !(first && c < half);
                assert_eq!(want0[g * HW + i], want_0, "mask0 g{g} cell {i}");
                assert_eq!(want1[g * HW + i], want_1, "mask1 g{g} cell {i}");
                n0 += u32::from(want_0);
                n1 += u32::from(want_1);
            }
            assert_eq!((wc0[g], wc1[g]), (n0, n1), "legal counts g{g} at step {steps}");
        }

        // from_state has to rebuild the levels, the scores and the masks
        let rebuilt = IncrementalGame::from_state(
            inc.boards.clone(),
            inc.move_counts.clone(),
            inc.finished.clone(),
            seed,
        );
        assert_eq!(rebuilt.scores, inc.scores, "from_state scores at step {steps}");
        assert_eq!(rebuilt.levels, inc.levels, "from_state levels at step {steps}");
        check_levels_and_scores(&rebuilt, "from_state");
        check_legality(&rebuilt, "from_state");

        if refg.over() {
            break;
        }
        refg.distribution_step(&d0, &d1);
        inc.distribution_step(&Dist(&d0), &Dist(&d1));
        steps += 1;
        assert!(steps < 200, "rollout did not terminate");
    }

    // an illegal action must be rejected, name the games it was wrong about, and leave the
    // batch exactly as it was
    let mut a = IncrementalGame::new(n, seed);
    let before = a.boards.clone();
    let bad = vec![1i64; n]; // (0,1) is not a playable square
    let err = a.action_step(&bad, &bad).unwrap_err();
    assert!(err.contains("Invalid move"), "unexpected rejection message: {err}");
    assert!(err.contains(&format!("{}", n - 1)), "the message should name every bad game");
    assert_eq!(a.boards, before, "a rejected action_step must leave the batch untouched");
}

/// Levels stay below the cap in real play, and the run reaches deep levels.
#[test]
fn no_real_level_ever_comes_close_to_the_cap() {
    let n = 2048;
    let seed = 0x1e5e1u64;
    let mut rng = Rng::new(seed);
    let d0 = weights(n, &mut rng);
    let d1 = weights(n, &mut rng);

    let mut inc = IncrementalGame::new(n, seed);
    let mut highest = 0u8;
    while !inc.finished.iter().all(|&f| f) {
        inc.distribution_step(&Dist(&d0), &Dist(&d1));
        for &l in &inc.levels {
            if l != INF && l > highest {
                highest = l;
            }
        }
    }
    assert!(highest < MAX_LEVEL, "a real level reached {highest}, but the cap is {MAX_LEVEL}");
    assert!(highest > 5, "highest level was only {highest}; this run is not testing the bound");
}

#[test]
fn the_engine_and_the_oracle_still_agree_on_the_encoding_and_the_rng() {
    assert_eq!(NON_PLAYABLE_SQUARE, 0);
    assert_eq!(PLAYABLE_SQUARE, 1);
    assert_eq!(REMOVED_SQUARE, 2);
    assert_eq!(PLAYER_0_MARK, 3);
    assert_eq!(PLAYER_1_MARK, 4);

    // xoshiro256++ seeded through SplitMix64
    let mut z = 0xabcu64;
    let mut next = || {
        z = z.wrapping_add(0x9E37_79B9_7F4A_7C15);
        let mut x = z;
        x = (x ^ (x >> 30)).wrapping_mul(0xBF58_476D_1CE4_E5B9);
        x = (x ^ (x >> 27)).wrapping_mul(0x94D0_49BB_1331_11EB);
        x ^ (x >> 31)
    };
    let mut s = [next(), next(), next(), next()];
    let mut a = Rng::new(0xabc);
    for k in 0..1000 {
        let want = s[0].wrapping_add(s[3]).rotate_left(23).wrapping_add(s[0]);
        let t = s[1] << 17;
        s[2] ^= s[0];
        s[3] ^= s[1];
        s[1] ^= s[2];
        s[0] ^= s[3];
        s[2] ^= t;
        s[3] = s[3].rotate_left(45);
        assert_eq!(a.next_u64(), want, "rng streams diverged at draw {k}");
    }
}

/// A bounded draw is the high half of a product, redrawn where that would be biased.
#[test]
fn bounded_draws_are_the_high_half_of_a_product() {
    let mut a = Rng::new(5);
    let mut b = Rng::new(5);
    for n in [1u64, 2, 3, 80, 160, 1 << 40, u64::MAX] {
        let threshold = n.wrapping_neg() % n;
        let want = loop {
            let m = u128::from(b.next_u64()) * u128::from(n);
            if m as u64 >= threshold {
                break (m >> 64) as u64;
            }
        };
        let got = a.randint(n);
        assert_eq!(got, want);
        assert!(got < n);
    }
}
