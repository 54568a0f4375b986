//! Collecting games for training and playing one model against another, under a rule that
//! mixes a policy with action values.

use alpha_lines_game::game::{legal_cell, Game, Rng, Scratch, LEGAL_WORDS, SQUARES};
use alpha_lines_game::klent::{
    encode, finish, marks, pack, seen_scores, unpack, Arena, Record, Rule, PLANES, PLANE_ONE,
};

fn bf16(x: f32) -> u16 {
    let bits = x.to_bits();
    ((bits.wrapping_add(0x7fff + ((bits >> 16) & 1))) >> 16) as u16
}

fn float(x: u16) -> f32 {
    f32::from_bits((x as u32) << 16)
}

/// Move by a softmax of action values and logits; returns blend towards the outcome.
struct Mixed {
    alpha: f32,
    beta: f32,
    lambda: f32,
}

/// The model's numbers: 80 logits and 80 action values for each player of each game.
struct Numbers {
    logits: Vec<f32>,
    q: Vec<f32>,
}

struct Draw {
    dist: [f32; SQUARES],
    value: f32,
    threshold: f32,
    sum: f32,
    found: bool,
}

impl Rule for Mixed {
    type Value = f32;
    type Stored = u16;
    type Outputs = Numbers;
    type Scan = Draw;

    fn reward(result: i8) -> f32 {
        f32::from(result)
    }

    fn blend(&self, next: f32, ret: f32) -> f32 {
        (1.0 - self.lambda) * next + self.lambda * ret
    }

    fn store(ret: f32) -> u16 {
        bf16(ret)
    }

    fn open(
        &self,
        o: &Numbers,
        game: usize,
        player: usize,
        legal: [u64; LEGAL_WORDS],
        evaluation: bool,
        mut rng: Rng,
    ) -> (Draw, Rng) {
        let row = (2 * game + player) * SQUARES;
        let mut p = [0.0f32; SQUARES];
        let mut max = f32::NEG_INFINITY;
        let on = |a: usize| legal[a / 64] >> (a % 64) & 1 != 0;
        for a in (0..SQUARES).filter(|&a| on(a)) {
            p[a] = if evaluation {
                o.logits[row + a]
            } else {
                (o.q[row + a] + self.beta * o.logits[row + a]) / (self.alpha + self.beta)
            };
            max = max.max(p[a]);
        }
        let mut sum = 0.0;
        for a in 0..SQUARES {
            p[a] = if on(a) { (p[a] - max).exp() } else { 0.0 };
            sum += p[a];
        }
        let mut value = 0.0;
        for a in 0..SQUARES {
            p[a] /= sum;
            if p[a] > 0.0 && !evaluation {
                value += p[a] * o.q[row + a];
            }
        }
        let threshold = ((rng.next_u64() >> 11) as f64 * (1.0 / (1u64 << 53) as f64)) as f32;
        (Draw { dist: p, value, threshold, sum: 0.0, found: false }, rng)
    }

    fn weigh(&self, mut scan: Draw, square: usize) -> (Draw, bool) {
        if scan.dist[square] <= 0.0 || scan.found {
            return (scan, false);
        }
        scan.sum += scan.dist[square];
        scan.found = scan.threshold < scan.sum;
        let found = scan.found;
        (scan, found)
    }

    fn policy(scan: &Draw) -> [u16; SQUARES] {
        scan.dist.map(bf16)
    }

    fn value(scan: &Draw) -> f32 {
        scan.value
    }
}

fn numbers(games: usize, q: f32) -> Numbers {
    Numbers { logits: vec![0.0; games * 160], q: vec![q; games * 160] }
}

#[test]
fn exact_returns_use_next_state_and_preserve_order() {
    for lambda in [0.0, 0.5, 1.0] {
        let rule = Mixed { alpha: 0.03, beta: 0.1, lambda };
        let mut history: Vec<Record<[f32; 2]>> = (0..3)
            .map(|i| Record {
                board: [i; 20],
                scores: [0; 2],
                actions: [0; 2],
                policy: [[0; 80]; 2],
                returns: [i as f32 * 0.25, -(i as f32) * 0.25],
            })
            .collect();
        let mut buffer = Vec::new();
        finish(&mut history, [1.0, -1.0], &rule, &mut buffer);
        let g1 = (1.0 - lambda) * 0.5 + lambda;
        let g0 = (1.0 - lambda) * 0.25 + lambda * g1;
        for (i, g) in [g0, g1, 1.0].into_iter().enumerate() {
            assert_eq!(buffer[i].returns, [bf16(g), bf16(-g)]);
            assert_eq!(buffer[i].board, [i as u8; 20]);
        }
        assert!(history.is_empty());
    }
}

#[test]
fn packing_and_layout() {
    let cells: [u8; SQUARES] = std::array::from_fn(|i| (i % 4) as u8);
    assert_eq!(unpack(&pack(&cells)), cells);
    assert_eq!(std::mem::size_of::<Record<[u16; 2]>>(), 348);
    let mut b = vec![0; 1600];
    encode(&cells, 0, PLANE_ONE, &mut b, 0);
    encode(&cells, 1, PLANE_ONE, &mut b, 800);
    let s: Vec<u16> = [seen_scores([3, 7], 0), seen_scores([3, 7], 1)]
        .concat()
        .into_iter()
        .map(|v| bf16(f32::from(v)))
        .collect();
    assert_eq!(s, [bf16(3.0), bf16(7.0), bf16(7.0), bf16(3.0)]);
    assert_eq!(&b[480..640], &b[1440..1600]);
    assert_eq!(PLANE_ONE, bf16(1.0));
}

/// Each square of a packed board is two bits, low bits first.
#[test]
fn a_square_is_two_bits() {
    let mut cells = [0u8; SQUARES];
    cells[0] = 1;
    cells[1] = 2;
    cells[2] = 3;
    cells[7] = 3;
    let board = pack(&cells);
    assert_eq!(board[0], 0b00_11_10_01);
    assert_eq!(board[1], 0b11_00_00_00);
    assert!(board[2..].iter().all(|&v| v == 0));
    let packed: [u8; 20] = std::array::from_fn(|i| (i * 37 % 256) as u8);
    assert_eq!(pack(&unpack(&packed)), packed);
}

/// Each cell stands in one plane, and the players' views swap the last two.
#[test]
fn planes_are_one_hot_and_mirrored() {
    let mut rng = Rng::new(6);
    let mut scratch = Scratch::new();
    let mut g = Game::new();
    for _ in 0..12 {
        g.uniform_step(&mut rng, &mut scratch);
    }
    let m = marks(&g);
    let mut b = vec![7u16; 1601];
    encode(&m, 0, 1, &mut b, 0);
    encode(&m, 1, 1, &mut b, PLANES);
    assert_eq!(b[1600], 7, "what lies past the planes is left alone");
    for cell in 0..160 {
        for view in 0..2 {
            let n: u16 = (0..5).map(|p| b[view * 800 + p * 160 + cell]).sum();
            assert_eq!(n, 1, "cell {cell}");
        }
        assert_eq!(b[480 + cell], b[800 + 640 + cell]);
        assert_eq!(b[640 + cell], b[800 + 480 + cell]);
        let want = match g.cells[cell] {
            0 => 0,
            1 => 1,
            2 => 2,
            3 => 3,
            _ => 4,
        };
        assert_eq!(b[want * 160 + cell], 1);
    }
}

#[test]
fn collection_returns_capacity_and_evaluation() {
    for lambda in [0.0, 0.5, 1.0] {
        let rule = Mixed { alpha: 0.03, beta: 0.1, lambda };
        let mut a = Arena::new(4, 640, 80, rule, 1, false);
        for _ in 0..1000 {
            if a.step(&numbers(4, 0.25)) {
                break;
            }
        }
        assert!(a.buffer.len() > 320 && a.buffer.len() <= 640);
        for pos in &a.buffer {
            for p in 0..2 {
                let cells = unpack(&pos.board);
                assert_eq!(cells[pos.actions[p] as usize], 0);
                assert!(float(pos.returns[p]).abs() <= 1.0);
                if lambda == 1.0 {
                    assert!([-1.0, 0.0, 1.0].contains(&float(pos.returns[p])));
                }
            }
        }
        let dropped = a.reset();
        assert!(dropped < 320);
        assert!(a.histories.iter().all(Vec::is_empty));
    }
    let rule = Mixed { alpha: 0.03, beta: 0.1, lambda: 0.8 };
    let mut a = Arena::new(4, 0, 80, rule, 1, true);
    for _ in 0..80 {
        if a.step(&numbers(4, 0.0)) {
            break;
        }
    }
    assert_eq!(a.results.iter().sum::<usize>(), 4);
    let mut expected = [0; 3];
    for (i, g) in a.games.iter().enumerate() {
        let reward = g.terminal_values()[if i < 2 { 1 } else { 0 }];
        expected[if reward > 0 {
            0
        } else if reward == 0 {
            1
        } else {
            2
        }] += 1;
    }
    assert_eq!(a.results, expected);
    let x = a.inputs();
    assert_eq!(x.boards.len(), 6400);
    assert_eq!(x.scores.len(), 16);
    assert!(x.boards.iter().all(|&v| v == 0));
    assert!(x.scores.iter().all(|&v| v == 0));
}

/// A training batch shows the kept positions, two rows each, and is padded past the end.
#[test]
fn a_batch_shows_the_kept_positions() {
    let rule = Mixed { alpha: 0.03, beta: 0.1, lambda: 0.5 };
    let mut a = Arena::new(2, 160, 80, rule, 9, false);
    while !a.step(&numbers(2, 0.25)) {}
    let kept = a.buffer.len();
    assert!(kept > 0);
    let (b, filled) = a.batch(kept - 1, 3);
    assert_eq!(filled, 1);
    assert_eq!(b.boards.len(), 4800);
    assert_eq!((b.scores.len(), b.policies.len(), b.moves.len()), (12, 960, 6));
    let pos = &a.buffer[kept - 1];
    let cells = unpack(&pos.board);
    let mut want = vec![0u16; 1600];
    encode(&cells, 0, PLANE_ONE, &mut want, 0);
    encode(&cells, 1, PLANE_ONE, &mut want, 800);
    assert_eq!(b.boards[..1600], want[..]);
    assert!(b.boards[1600..].iter().all(|&v| v == 0));
    let s = pos.scores;
    assert_eq!(b.scores[..4], [s[0], s[1], s[1], s[0]]);
    for p in 0..2 {
        assert_eq!(b.moves[p], legal_cell(pos.actions[p] as usize) as i64);
        for sq in 0..SQUARES {
            assert_eq!(b.policies[p * 160 + legal_cell(sq)], pos.policy[p][sq]);
        }
    }
    assert_eq!(b.targets, pos.returns.to_vec());
    let (all, n) = a.batch(0, kept);
    assert_eq!(n, kept);
    assert_eq!(all.targets.len(), 2 * kept);
    a.clear();
    assert!(a.buffer.is_empty());
}

/// The seed decides what is drawn, and nothing else does.
#[test]
fn a_collection_follows_from_its_seed() {
    let play = |seed: u64| {
        let rule = Mixed { alpha: 0.03, beta: 0.1, lambda: 0.5 };
        let mut a = Arena::new(3, 240, 80, rule, seed, false);
        assert_eq!(a.rng.clone().next_u64(), Rng::new(seed).next_u64());
        for _ in 0..5 {
            a.step(&numbers(3, 0.0));
        }
        a.games.iter().map(marks).collect::<Vec<_>>()
    };
    assert_eq!(play(4), play(4));
    assert_ne!(play(4), play(5));
}

/// The model's input shows each game as both players see it.
#[test]
fn inputs_show_every_game_twice() {
    let rule = Mixed { alpha: 0.03, beta: 0.1, lambda: 0.5 };
    let mut a = Arena::new(3, 240, 80, rule, 4, false);
    for _ in 0..5 {
        a.step(&numbers(3, 0.0));
    }
    let x = a.inputs();
    for (i, g) in a.games.iter().enumerate() {
        let mut want = vec![0u16; 1600];
        encode(&marks(g), 0, PLANE_ONE, &mut want, 0);
        encode(&marks(g), 1, PLANE_ONE, &mut want, 800);
        assert_eq!(x.boards[i * 1600..(i + 1) * 1600], want[..]);
        let s = g.scores.map(|v| v as u8);
        assert_eq!(x.scores[i * 4..i * 4 + 4], [s[0], s[1], s[1], s[0]]);
    }
}
