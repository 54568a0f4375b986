//! The search under two rules: descents, cycles, roots, steps, sweeps and reseeding, against
//! stand-in models.
//!
//! What is being checked is the bookkeeping: that walking by key alone lands on exactly the
//! positions that playing the moves would have produced, that no game is left holding a path,
//! that the sweep leaves no unreferenced node behind, and that a node is only ever kept by a
//! game that can still reach it.

use std::collections::HashMap;

use alpha_lines_game::game::{legal_cell, Rng, Scratch, LEGAL_WORDS, SQUARES};
use alpha_lines_game::klent::PLANE_ONE;
use alpha_lines_game::mcts::buffer::Target;
use alpha_lines_game::mcts::descent::{descend_traced, Selection};
use alpha_lines_game::mcts::lifetime::{age_histogram, deaths};
use alpha_lines_game::mcts::stats::prime;
use alpha_lines_game::mcts::trace::{all_simulated, children_among, push_outcome, Names};
use alpha_lines_game::mcts::train::{coordinate, spread};
use alpha_lines_game::mcts::variant::{pick, select, squares};
use alpha_lines_game::mcts::{
    back_up, descend, Arena, Choice, Config, Descent, Search, Slot, StepRecord, Trainer, Variant,
    K, PENDING, ROOT,
};
use alpha_lines_game::sampling::Weights;
use alpha_lines_game::{zobrist, Game};

fn random(rng: &mut Rng) -> f64 {
    (rng.next_u64() >> 11) as f64 * (1.0 / (1u64 << 53) as f64)
}

/// The same weight for every square.
struct Even;

impl Weights for Even {
    type Scan = [f64; 2];

    fn open(
        &self,
        _: usize,
        legal: [u64; LEGAL_WORDS],
        mut rng: Rng,
    ) -> (Option<[f64; 2]>, Rng) {
        let total = list(legal).len() as f64;
        if total < 1e-8 {
            return (None, rng);
        }
        let threshold = random(&mut rng) * total;
        (Some([threshold, 0.0]), rng)
    }

    fn reaches(&self, mut scan: [f64; 2], _: usize, _: usize) -> ([f64; 2], bool) {
        scan[1] += 1.0;
        (scan, scan[1] >= scan[0])
    }
}

/// The squares of a mask, in board order.
fn list(legal: [u64; LEGAL_WORDS]) -> Vec<usize> {
    let mut walk = squares(legal);
    let mut out = Vec::new();
    while let Some(sq) = walk.next() {
        out.push(sq);
    }
    out
}

fn holds(legal: [u64; LEGAL_WORDS], sq: usize) -> bool {
    legal[sq >> 6] >> (sq & 63) & 1 == 1
}

// -------------------------------------------------------------------------------- the rules

struct Reading {
    priors: [[f32; SQUARES]; 2],
    values: [f32; 2],
}

struct Params {
    c_puct: f64,
    epsilon: f32,
    gamma: f64,
}

fn params() -> Params {
    Params { c_puct: 1.5, epsilon: 0.25, gamma: 0.1 }
}

/// A training target: the policy, and for the first rule the visits and mean values.
#[derive(Clone)]
struct Aim {
    policy: [[f64; SQUARES]; 2],
    visits: [[u64; SQUARES]; 2],
    action_value: [[f64; SQUARES]; 2],
}

fn blank() -> Aim {
    Aim {
        policy: [[0.0; SQUARES]; 2],
        visits: [[0; SQUARES]; 2],
        action_value: [[0.0; SQUARES]; 2],
    }
}

/// The state of a walk: a running best, or a running sum and a threshold.
struct Walk {
    best: f64,
    explore: f64,
    cum: f64,
    threshold: f64,
    found: bool,
    probs: [f64; SQUARES],
}

fn walk() -> Walk {
    Walk {
        best: f64::NEG_INFINITY,
        explore: 0.0,
        cum: 0.0,
        threshold: 0.0,
        found: false,
        probs: [0.0; SQUARES],
    }
}

fn open_draw(target: &Aim, legal: [u64; LEGAL_WORDS], player: usize, rng: &mut Rng) -> Walk {
    let total: f64 = list(legal).iter().map(|&sq| target.policy[player][sq]).sum();
    Walk { threshold: random(rng) * total, ..walk() }
}

fn weigh_draw(target: &Aim, scan: &mut Walk, square: usize, player: usize) -> bool {
    scan.cum += target.policy[player][square];
    let chosen = !scan.found && scan.cum > scan.threshold;
    scan.found |= chosen;
    chosen
}

#[derive(Clone)]
struct PuctStats {
    prior: [[f32; SQUARES]; 2],
    visit: [[u64; SQUARES]; 2],
    total: [u64; 2],
    q: [[f64; SQUARES]; 2],
}

impl Default for PuctStats {
    fn default() -> Self {
        PuctStats {
            prior: [[0.0; SQUARES]; 2],
            visit: [[0; SQUARES]; 2],
            total: [0; 2],
            q: [[0.0; SQUARES]; 2],
        }
    }
}

/// Upper confidence bounds: the square with the highest mean plus bonus.
struct Puct;

impl Variant for Puct {
    type Stats = PuctStats;
    type Params = Params;
    type Prob = f32;
    type Value = [f32; 2];
    type Reading = Reading;
    type Target = Aim;
    type Scan = Walk;

    fn set_priors(
        mut s: PuctStats,
        r: &Reading,
        legal: [u64; LEGAL_WORDS],
        player: usize,
    ) -> PuctStats {
        let sum: f32 = list(legal).iter().map(|&sq| r.priors[player][sq]).sum();
        s.prior[player] = [0.0; SQUARES];
        for sq in list(legal) {
            s.prior[player][sq] = r.priors[player][sq] / sum.max(1e-8);
        }
        s
    }

    fn value(r: &Reading) -> [f32; 2] {
        r.values
    }

    fn terminal(result: [i8; 2]) -> [f32; 2] {
        result.map(f32::from)
    }

    fn open(
        s: &PuctStats,
        _: [u64; LEGAL_WORDS],
        player: usize,
        p: &Params,
        rng: Rng,
    ) -> (Walk, Rng) {
        (Walk { explore: p.c_puct * (s.total[player].max(1) as f64).sqrt(), ..walk() }, rng)
    }

    fn weigh(
        s: PuctStats,
        mut scan: Walk,
        sq: usize,
        player: usize,
    ) -> (PuctStats, Walk, bool) {
        let bonus = scan.explore * f64::from(s.prior[player][sq]);
        let score = s.q[player][sq] + bonus / (1.0 + s.visit[player][sq] as f64);
        if score > scan.best {
            scan.best = score;
            return (s, scan, true);
        }
        (s, scan, false)
    }

    fn prob(_: &Walk, _: usize) -> f32 {
        1.0
    }

    fn backup(
        mut s: PuctStats,
        c: [Choice<f32>; 2],
        v: [f32; 2],
        _: [u32; 2],
        _: &Params,
    ) -> PuctStats {
        for player in 0..2 {
            let sq = c[player].action as usize;
            let n = s.visit[player][sq] + 1;
            s.q[player][sq] += (f64::from(v[player]) - s.q[player][sq]) / n as f64;
            s.visit[player][sq] = n;
            s.total[player] += 1;
        }
        s
    }

    fn make_root(
        mut s: PuctStats,
        legal: [[u64; LEGAL_WORDS]; 2],
        p: &Params,
        mut rng: Rng,
    ) -> (PuctStats, Rng) {
        for player in 0..2 {
            let on = list(legal[player]);
            let noise: Vec<f32> =
                on.iter().map(|_| -(1.0 - random(&mut rng)).ln() as f32).collect();
            let sum: f32 = noise.iter().sum();
            for (k, &sq) in on.iter().enumerate() {
                let prior = &mut s.prior[player][sq];
                *prior = (1.0 - p.epsilon) * *prior + p.epsilon * noise[k] / sum;
            }
        }
        (s, rng)
    }

    fn target(s: &PuctStats, legal: [[u64; LEGAL_WORDS]; 2]) -> Aim {
        let mut out = blank();
        for player in 0..2 {
            let on = list(legal[player]);
            let total: u64 = on.iter().map(|&sq| s.visit[player][sq]).sum();
            for &sq in &on {
                out.policy[player][sq] = if total == 0 {
                    1.0 / on.len() as f64
                } else {
                    s.visit[player][sq] as f64 / total as f64
                };
                out.visits[player][sq] = s.visit[player][sq];
                out.action_value[player][sq] = s.q[player][sq];
            }
        }
        out
    }

    fn open_draw(
        t: &Aim,
        legal: [u64; LEGAL_WORDS],
        player: usize,
        mut rng: Rng,
    ) -> (Walk, Rng) {
        let scan = open_draw(t, legal, player, &mut rng);
        (scan, rng)
    }

    fn weigh_draw(t: &Aim, mut scan: Walk, sq: usize, player: usize) -> (Walk, bool) {
        let chosen = weigh_draw(t, &mut scan, sq, player);
        (scan, chosen)
    }
}

#[derive(Clone)]
struct Exp3Stats {
    log_w: [[f64; SQUARES]; 2],
    strategy_sum: [[f64; SQUARES]; 2],
}

impl Default for Exp3Stats {
    fn default() -> Self {
        Exp3Stats { log_w: [[0.0; SQUARES]; 2], strategy_sum: [[0.0; SQUARES]; 2] }
    }
}

/// Exponential weights: a square drawn from a mixed strategy.
struct Exp3;

impl Variant for Exp3 {
    type Stats = Exp3Stats;
    type Params = Params;
    type Prob = f64;
    type Value = [f32; 2];
    type Reading = Reading;
    type Target = Aim;
    type Scan = Walk;

    fn set_priors(
        mut s: Exp3Stats,
        r: &Reading,
        legal: [u64; LEGAL_WORDS],
        player: usize,
    ) -> Exp3Stats {
        s.log_w[player] = [f64::NEG_INFINITY; SQUARES];
        for sq in list(legal) {
            s.log_w[player][sq] = f64::from(r.priors[player][sq].max(1e-8)).ln();
        }
        s
    }

    fn value(r: &Reading) -> [f32; 2] {
        r.values
    }

    fn terminal(result: [i8; 2]) -> [f32; 2] {
        result.map(f32::from)
    }

    fn open(
        s: &Exp3Stats,
        legal: [u64; LEGAL_WORDS],
        player: usize,
        p: &Params,
        mut rng: Rng,
    ) -> (Walk, Rng) {
        let on = list(legal);
        let log_w = &s.log_w[player];
        let top = on.iter().map(|&sq| log_w[sq]).fold(f64::NEG_INFINITY, f64::max);
        let sum: f64 = on.iter().map(|&sq| (log_w[sq] - top).exp()).sum();
        let mut scan = Walk { threshold: random(&mut rng), ..walk() };
        for &sq in &on {
            scan.probs[sq] =
                (1.0 - p.gamma) * (log_w[sq] - top).exp() / sum + p.gamma / on.len() as f64;
        }
        (scan, rng)
    }

    fn weigh(
        mut s: Exp3Stats,
        mut scan: Walk,
        sq: usize,
        player: usize,
    ) -> (Exp3Stats, Walk, bool) {
        s.strategy_sum[player][sq] += scan.probs[sq];
        scan.cum += scan.probs[sq];
        let chosen = !scan.found && scan.cum > scan.threshold;
        scan.found |= chosen;
        (s, scan, chosen)
    }

    fn prob(scan: &Walk, sq: usize) -> f64 {
        scan.probs[sq]
    }

    fn backup(
        mut s: Exp3Stats,
        c: [Choice<f64>; 2],
        v: [f32; 2],
        n: [u32; 2],
        p: &Params,
    ) -> Exp3Stats {
        for player in 0..2 {
            let reward = (f64::from(v[player]) + 1.0) / 2.0;
            s.log_w[player][c[player].action as usize] +=
                p.gamma * (reward / c[player].prob) / f64::from(n[player]);
        }
        s
    }

    fn make_root(
        mut s: Exp3Stats,
        _: [[u64; LEGAL_WORDS]; 2],
        _: &Params,
        rng: Rng,
    ) -> (Exp3Stats, Rng) {
        s.strategy_sum = [[0.0; SQUARES]; 2];
        (s, rng)
    }

    fn target(s: &Exp3Stats, legal: [[u64; LEGAL_WORDS]; 2]) -> Aim {
        let mut out = blank();
        for player in 0..2 {
            let on = list(legal[player]);
            let total: f64 = on.iter().map(|&sq| s.strategy_sum[player][sq]).sum();
            for &sq in &on {
                out.policy[player][sq] = if total > 0.0 {
                    s.strategy_sum[player][sq] / total
                } else {
                    1.0 / on.len() as f64
                };
            }
        }
        out
    }

    fn open_draw(
        t: &Aim,
        legal: [u64; LEGAL_WORDS],
        player: usize,
        mut rng: Rng,
    ) -> (Walk, Rng) {
        let scan = open_draw(t, legal, player, &mut rng);
        (scan, rng)
    }

    fn weigh_draw(t: &Aim, mut scan: Walk, sq: usize, player: usize) -> (Walk, bool) {
        let chosen = weigh_draw(t, &mut scan, sq, player);
        (scan, chosen)
    }
}

// ------------------------------------------------------------------------------- selection

#[test]
fn the_last_favourable_square_is_picked() {
    // squares 1, 5 and 70
    let legal = [0b100010, 1 << 6];
    assert_eq!(list(legal), vec![1, 5, 70]);
    let picked = |on: &[usize]| {
        let mut verdicts = vec![false; 128];
        for &sq in on {
            verdicts[sq] = true;
        }
        pick(legal, &verdicts)
    };
    assert_eq!(picked(&[1]), 1);
    assert_eq!(picked(&[1, 5]), 5);
    assert_eq!(picked(&[5, 70]), 70);
    assert_eq!(picked(&[]), 70);
}

/// The squares of a mask are its set bits, low to high, each once.
#[test]
fn a_mask_is_walked_in_board_order() {
    let mut rng = Rng::new(3);
    for _ in 0..200 {
        let legal = [rng.next_u64(), rng.next_u64() & 0xFFFF];
        let want: Vec<usize> = (0..SQUARES).filter(|&sq| holds(legal, sq)).collect();
        assert_eq!(list(legal), want);
    }
    assert_eq!(list([0, 0]), Vec::<usize>::new());
}

/// A selection is the best square of each player's own mask.
#[test]
fn selection_takes_each_players_best_square() {
    let g = Game::new();
    let legal = [g.legal_moves(0), g.legal_moves(1)];
    let mut stats = PuctStats::default();
    let best = [list(legal[0])[7], list(legal[1])[20]];
    // a better square that is not legal must not be chosen
    stats.q[0][best[1]] = 9.0;
    stats.q[1][best[0]] = 9.0;
    stats.q[0][best[0]] = 0.5;
    stats.q[1][best[1]] = 0.5;
    let c = select::<Puct>(&mut stats, legal, &params(), &mut Rng::new(1));
    assert_eq!([c[0].action as usize, c[1].action as usize], best);
    assert_eq!([c[0].prob, c[1].prob], [1.0, 1.0]);
}

// --------------------------------------------------------------------------------- descents

fn descent_cfg() -> Config {
    Config { node_capacity: 4096, ..Config::default() }
}

/// A slot playing from the opening.
fn opening<S: Default, P: Copy>() -> Slot<S, P> {
    let mut slot: Slot<S, P> = Slot::default();
    slot.occupied = true;
    slot.root.game = Game::new();
    slot.root.key = zobrist::hash(&slot.root.game.squares());
    slot.root.pending = false;
    slot
}

/// What a cycle does for one game: hand the awaited node priors, clear `pending`, back up.
fn resolve<V: Variant<Reading = Reading, Value = [f32; 2], Params = Params>>(
    slot: &mut Slot<V::Stats, V::Prob>,
    arena: &mut Arena<V::Stats>,
    values: [f32; 2],
    rng: &mut Rng,
) {
    let node = slot.waiting_on.expect("nothing to resolve");
    let mut reading = Reading { priors: [[0.0; SQUARES]; 2], values };
    for sq in 0..SQUARES {
        let p = random(rng) as f32 + 0.01;
        reading.priors[0][sq] = p;
        reading.priors[1][sq] = p;
    }
    let n = arena.node_mut(node);
    n.flags &= !PENDING;
    let legal = [n.game.legal_moves(0), n.game.legal_moves(1)];
    prime::<V>(&mut n.stats, legal, &reading);
    back_up::<V>(slot, arena, values, &params());
}

/// Descend, resolve, repeat: the search a single game would run on its own.
fn descend_alone<V: Variant<Reading = Reading, Value = [f32; 2], Params = Params>>(
    sims: usize,
    seed: u64,
) -> (Slot<V::Stats, V::Prob>, Arena<V::Stats>) {
    let mut arena = Arena::<V::Stats>::new(&descent_cfg());
    let mut slot = opening::<V::Stats, V::Prob>();
    let mut rng = Rng::new(seed);
    let mut scratch = Scratch::new();

    while (slot.sim_count as usize) < sims {
        match descend::<V>(0, &mut slot, &mut arena, &params(), &mut rng, &mut scratch) {
            Descent::Entry { .. } => {
                let v = random(&mut rng) as f32 * 2.0 - 1.0;
                resolve::<V>(&mut slot, &mut arena, [v, -v], &mut rng);
            }
            Descent::NoEntry => {}
            Descent::Exhausted => panic!("ran out of nodes at {} sims", slot.sim_count),
        }
    }
    (slot, arena)
}

#[test]
fn the_first_descent_builds_one_child_and_waits_on_it() {
    let mut arena = Arena::<PuctStats>::new(&descent_cfg());
    let mut slot = opening::<PuctStats, f32>();
    let mut rng = Rng::new(1);
    let mut scratch = Scratch::new();

    let got = descend::<Puct>(0, &mut slot, &mut arena, &params(), &mut rng, &mut scratch);
    let Descent::Entry { node, fresh } = got else { panic!("expected an entry, got {got:?}") };
    assert!(fresh, "the game that created the node owes the buffer an entry");
    assert_eq!(arena.len(), 1);
    assert_eq!(slot.waiting_on, Some(node));
    assert_eq!(slot.path.len(), 1, "one step: the root");
    assert_eq!(slot.path.step(0).node, ROOT);
    assert_eq!(slot.sim_count, 0, "nothing is backed up until the evaluation lands");
}

/// The whole point of hashing the move instead of playing it: the node the key finds holds
/// the board the engine would have produced.
#[test]
fn nodes_hold_the_position_their_key_names() {
    let (slot, arena) = descend_alone::<Puct>(400, 0xC0FFEE);
    let mut checked = 0;
    for i in arena.live_slots() {
        let n = arena.node(i);
        assert_eq!(n.key, zobrist::hash(&n.game.squares()), "node {i} key does not match its board");
        assert!(n.game.reachable_from(&slot.root.game), "node {i} is not reachable from the root");
        assert!(n.game.move_count > slot.root.game.move_count, "node {i} is not below the root");
        checked += 1;
    }
    assert!(checked > 100, "only {checked} nodes to check");
}

/// A second game reaching a node that is already queued must ride that entry rather than
/// duplicating the evaluation, and must still be recorded as a user of the node.
#[test]
fn a_pending_hit_makes_no_second_entry() {
    let p = params();
    let mut arena = Arena::<PuctStats>::new(&descent_cfg());
    let mut a = opening::<PuctStats, f32>();
    let mut b = opening::<PuctStats, f32>();
    let mut scratch = Scratch::new();

    // the same seed, so both games select the same joint move from the same root
    let first = descend::<Puct>(0, &mut a, &mut arena, &p, &mut Rng::new(7), &mut scratch);
    let second = descend::<Puct>(1, &mut b, &mut arena, &p, &mut Rng::new(7), &mut scratch);

    let Descent::Entry { node: n0, fresh: f0 } = first else { panic!("{first:?}") };
    let Descent::Entry { node: n1, fresh: f1 } = second else { panic!("{second:?}") };
    assert_eq!(n0, n1, "both games should have landed on the same state");
    assert!(f0 && !f1, "only the first arrival owes an entry");
    assert_eq!(arena.len(), 1, "the second descent must not allocate");
    assert_eq!(arena.node(n0).ids(), &[0, 1], "both games are recorded on the node");
    assert_eq!(a.waiting_on, Some(n0));
    assert_eq!(b.waiting_on, Some(n0));
}

/// Once a node is evaluated, descents pass through it instead of stopping there.
#[test]
fn descents_deepen_as_nodes_become_evaluated() {
    let mut arena = Arena::<PuctStats>::new(&descent_cfg());
    let mut slot = opening::<PuctStats, f32>();
    let mut rng = Rng::new(0x5EED);
    let mut scratch = Scratch::new();

    let mut deepest = 0;
    for _ in 0..300 {
        match descend::<Puct>(0, &mut slot, &mut arena, &params(), &mut rng, &mut scratch) {
            Descent::Entry { .. } => {
                deepest = deepest.max(slot.path.len());
                resolve::<Puct>(&mut slot, &mut arena, [0.5, -0.5], &mut rng);
            }
            Descent::NoEntry => {}
            Descent::Exhausted => panic!("out of nodes"),
        }
    }
    assert!(deepest >= 3, "the search never went deeper than {deepest}");
}

/// Every step of a path names a move that was legal at that node, and no position repeats,
/// which is what makes the order of backup irrelevant.
#[test]
fn paths_are_legal_and_never_revisit_a_position() {
    let mut arena = Arena::<PuctStats>::new(&descent_cfg());
    let mut slot = opening::<PuctStats, f32>();
    let mut rng = Rng::new(0xBEEF);
    let mut scratch = Scratch::new();

    for _ in 0..400 {
        let got = descend::<Puct>(0, &mut slot, &mut arena, &params(), &mut rng, &mut scratch);
        let mut seen: Vec<u64> = Vec::new();
        for k in 0..slot.path.len() {
            let step = slot.path.step(k);
            let (key, game) = if step.node == ROOT {
                (slot.root.key, &slot.root.game)
            } else {
                (arena.node(step.node).key, &arena.node(step.node).game)
            };
            assert!(!seen.contains(&key), "position repeated on one path");
            seen.push(key);
            for player in 0..2 {
                let sq = step.choice[player].action as usize;
                assert!(holds(game.legal_moves(player), sq), "played illegal square {sq}");
            }
        }
        assert_eq!(slot.path.step(0).node, ROOT, "a path starts at the root");
        if let Descent::Entry { .. } = got {
            resolve::<Puct>(&mut slot, &mut arena, [0.1, -0.1], &mut rng);
        }
    }
}

/// A terminal is backed up on the spot: it needs no network, so the game stays in the cycle.
#[test]
fn terminals_are_counted_without_an_evaluation() {
    let (slot, _) = descend_alone::<Puct>(600, 0x7E12);
    assert!(slot.sim_count >= 600);
    assert!(slot.path.is_empty(), "a retired simulation leaves no path");
    assert_eq!(slot.waiting_on, None);
}

/// Backup must reach every node on the route, not only the leaf.
#[test]
fn backup_credits_the_whole_path() {
    let p = params();
    let mut arena = Arena::<PuctStats>::new(&descent_cfg());
    let mut slot = opening::<PuctStats, f32>();
    let mut rng = Rng::new(0x8AC);
    let mut scratch = Scratch::new();

    // build some depth first
    for _ in 0..200 {
        if let Descent::Entry { .. } =
            descend::<Puct>(0, &mut slot, &mut arena, &p, &mut rng, &mut scratch)
        {
            resolve::<Puct>(&mut slot, &mut arena, [0.2, -0.2], &mut rng);
        }
    }
    // then take one descent and watch its whole path move
    let got = descend::<Puct>(0, &mut slot, &mut arena, &p, &mut rng, &mut scratch);
    assert!(matches!(got, Descent::Entry { .. }));
    assert!(slot.path.len() >= 2, "need a path with an interior node");

    let steps: Vec<_> = (0..slot.path.len()).map(|k| slot.path.step(k)).collect();
    let visits = |slot: &Slot<PuctStats, f32>, arena: &Arena<PuctStats>| -> Vec<u64> {
        steps
            .iter()
            .map(|s| {
                let a = s.choice[0].action as usize;
                if s.node == ROOT {
                    slot.root.stats.visit[0][a]
                } else {
                    arena.node(s.node).stats.visit[0][a]
                }
            })
            .collect()
    };
    let before = visits(&slot, &arena);
    resolve::<Puct>(&mut slot, &mut arena, [1.0, -1.0], &mut rng);
    for (k, now) in visits(&slot, &arena).into_iter().enumerate() {
        assert_eq!(now, before[k] + 1, "step {k} was not credited");
    }
}

/// The recorded depth must be the depth the descent actually reached, including for descents
/// that back up on the way out.
#[test]
fn a_descent_records_the_depth_it_reached_even_when_it_backs_up() {
    let mut arena = Arena::<PuctStats>::new(&descent_cfg());
    let mut rng = Rng::new(0xD3B7);
    let mut scratch = Scratch::new();

    // a root a few plies from the end, so descents actually reach terminals
    let mut history = vec![Game::new().cells];
    let mut g = Game::new();
    while !g.finished {
        g.distribution_step(&Even, &Even, &mut rng, &mut scratch);
        history.push(g.cells);
    }
    let near_end = history[history.len() - 4];

    let mut slot = opening::<PuctStats, f32>();
    slot.root.game = Game::from_cells(near_end, &mut scratch);
    slot.root.key = zobrist::hash(&slot.root.game.squares());
    assert!(!slot.root.game.finished, "the chosen root is already over");

    let (mut terminals, mut entries) = (0, 0);
    for _ in 0..2000 {
        match descend::<Puct>(0, &mut slot, &mut arena, &params(), &mut rng, &mut scratch) {
            Descent::Entry { .. } => {
                // the path is still in flight, so it can be compared directly
                assert_eq!(
                    slot.last_depth as usize,
                    slot.path.len(),
                    "recorded depth disagrees with the path it came from"
                );
                assert!(slot.last_depth >= 1, "a descent selected at least at the root");
                entries += 1;
                resolve::<Puct>(&mut slot, &mut arena, [0.4, -0.4], &mut rng);
            }
            Descent::NoEntry => {
                assert!(slot.path.is_empty(), "a backed-up descent should have cleared its path");
                assert!(slot.last_depth >= 1, "a terminal recorded depth {}", slot.last_depth);
                terminals += 1;
            }
            Descent::Exhausted => panic!("out of nodes"),
        }
    }
    assert!(terminals > 0, "no terminal was reached, so the case is untested");
    assert!(entries > 0);
}

/// A full node stack is a budget reached, not a fault: nothing is created, nothing is left
/// in flight, and the search can carry on.
#[test]
fn a_full_stack_ends_the_descent_cleanly() {
    let c = Config { node_capacity: 24, ..Config::default() };
    let mut arena = Arena::<PuctStats>::new(&c);
    let mut slot = opening::<PuctStats, f32>();
    let mut rng = Rng::new(0xF0F0);
    let mut scratch = Scratch::new();

    let mut hit = false;
    for _ in 0..500 {
        match descend::<Puct>(0, &mut slot, &mut arena, &params(), &mut rng, &mut scratch) {
            Descent::Entry { .. } => resolve::<Puct>(&mut slot, &mut arena, [0.0, 0.0], &mut rng),
            Descent::NoEntry => {}
            Descent::Exhausted => {
                hit = true;
                assert_eq!(arena.len(), arena.capacity(), "exhausted below capacity");
                assert!(slot.path.is_empty(), "an exhausted descent left a path behind");
                assert_eq!(slot.waiting_on, None);
                break;
            }
        }
    }
    assert!(hit, "24 nodes should not have been enough");
}

/// The second rule descends the same shape as the first.
#[test]
fn exp3_descends_and_shares_nodes_too() {
    let (slot, arena) = descend_alone::<Exp3>(400, 0x3E3);
    assert!(slot.sim_count >= 400);
    assert!(arena.len() > 50, "only {} nodes", arena.len());
    for i in arena.live_slots() {
        let n = arena.node(i);
        assert_eq!(n.key, zobrist::hash(&n.game.squares()));
        let legal = n.game.legal_moves(0);
        assert!(list(legal).len() as u32 == n.game.legal_count(0));
    }
}

/// A trace names the selections of the descent, root first, and as many as its depth.
#[test]
fn a_trace_follows_the_path() {
    let p = params();
    let (mut slot, mut arena) = descend_alone::<Puct>(100, 0x7ACE);
    let mut rng = Rng::new(5);
    let mut scratch = Scratch::new();
    let mut trace: Vec<Selection<f32>> = Vec::new();
    let got = descend_traced::<Puct>(
        0, &mut slot, &mut arena, &p, &mut rng, &mut scratch, &mut trace,
    );
    assert!(matches!(got, Descent::Entry { .. }));
    assert_eq!(trace.len(), slot.last_depth as usize);
    for (k, s) in trace.iter().enumerate() {
        assert_eq!(s.node, slot.path.step(k).node);
        assert_eq!(s.choice[0].action, slot.path.step(k).choice[0].action);
        assert_eq!(s.choice[1].action, slot.path.step(k).choice[1].action);
    }
}

// ------------------------------------------------------------------------------ whole search

/// A model: what it reads off a position and its scores.
trait Model {
    fn read(&mut self, squares: &[i8; SQUARES], scores: [i32; 2]) -> Reading;
}

/// An untrained network: near-uniform priors, noisy values.
struct Stub(Rng);

impl Model for Stub {
    fn read(&mut self, _: &[i8; SQUARES], _: [i32; 2]) -> Reading {
        let mut r = Reading { priors: [[0.0; SQUARES]; 2], values: [0.0; 2] };
        for player in 0..2 {
            for sq in 0..SQUARES {
                r.priors[player][sq] = 1.0 + random(&mut self.0) as f32 * 0.05;
            }
            r.values[player] = random(&mut self.0) as f32 * 2.0 - 1.0;
        }
        r
    }
}

/// Flat priors, no preference.
struct Uniform;

impl Model for Uniform {
    fn read(&mut self, _: &[i8; SQUARES], _: [i32; 2]) -> Reading {
        Reading { priors: [[1.0; SQUARES]; 2], values: [0.0; 2] }
    }
}

fn cycle<V: Variant<Reading = Reading>, M: Model>(
    s: &mut Search<V>,
    model: &mut M,
) -> Vec<StepRecord<V::Target>> {
    let n = s.prepare_evaluation();
    let readings: Vec<Reading> =
        (0..n).map(|k| model.read(&s.buffer.positions[k], s.buffer.scores[k])).collect();
    s.complete_evaluation(&readings)
}

/// Small enough that games finish inside a test.
fn cfg() -> Config {
    Config { g: 64, b: 128, t: 16, s: 8, node_capacity: 40_000, ..Config::default() }
}

/// Everything that must be true between cycles.
fn check<V: Variant>(s: &Search<V>) {
    for (i, slot) in s.slots.iter().enumerate() {
        assert!(slot.occupied, "slot {i} went unoccupied");
        assert_eq!(slot.waiting_on, None, "slot {i} still holds an unresolved path");
        assert!(slot.path.is_empty(), "slot {i} left a path behind");
        assert!(slot.sim_count <= s.cfg.s, "slot {i} overran S at {}", slot.sim_count);
        assert!(!slot.game_over, "a finished game was not reseeded");
    }
    // the sweep deletes every node nobody claims
    for i in 0..s.arena.slot_count() as u32 {
        if s.arena.is_unused(i) {
            continue;
        }
        let n = s.arena.node(i);
        assert!(!n.ids().is_empty(), "node {i} survived with no ids");
        assert!(n.ids().len() <= K);
        // a node is kept only by games that can still reach it
        for &id in n.ids() {
            let root = &s.slots[id as usize].root.game;
            assert!(
                n.game.reachable_from(root),
                "node {i} is kept by game {id}, which can no longer reach it"
            );
        }
    }
}

fn run<V: Variant<Reading = Reading, Params = Params>>(
    cycles: usize,
    seed: u64,
) -> (Search<V>, Vec<StepRecord<V::Target>>) {
    let mut s = Search::<V>::new(cfg(), params(), seed);
    let mut model = Stub(Rng::new(seed ^ 0x5B));
    let mut all = Vec::new();
    for c in 0..cycles {
        all.extend(cycle(&mut s, &mut model));
        if c % 25 == 0 {
            check(&s);
        }
    }
    check(&s);
    (s, all)
}

#[test]
fn a_cycle_leaves_no_game_waiting_and_no_node_orphaned() {
    let (s, _) = run::<Puct>(200, 0x11);
    assert!(s.diag.cycles == 200);
    assert!(s.diag.steps > 0, "no game ever stepped");
    assert_eq!(s.diag.exhausted, 0, "ran out of nodes on a small board budget");
}

/// All slots open at the same position, so their evaluation is asked for once rather than
/// 64 times.
#[test]
fn identical_roots_cost_one_evaluation() {
    let mut s = Search::<Puct>::new(cfg(), params(), 0x22);
    let mut model = Stub(Rng::new(3));
    cycle(&mut s, &mut model);
    assert_eq!(s.diag.root_evals, 1, "64 identical opening roots should share one row");
    for slot in s.slots.iter() {
        assert!(!slot.root.pending, "a waiter did not receive the root evaluation");
    }
}

/// The first cycle queues the roots; the second has to fan out.
#[test]
fn the_first_cycle_does_not_collapse_onto_one_move() {
    let mut s = Search::<Puct>::new(cfg(), params(), 0x33);
    let mut model = Stub(Rng::new(4));
    cycle(&mut s, &mut model);
    assert_eq!(s.arena.len(), 0, "cycle 0 queues roots, it builds nothing");
    cycle(&mut s, &mut model);
    assert!(s.arena.len() > 8, "only {} distinct children from 64 games", s.arena.len());
}

/// Games must actually reach the end, be marked over, and have their slots reseeded.
#[test]
fn games_finish_and_their_slots_are_reused() {
    let (s, records) = run::<Puct>(900, 0x44);
    let finished = records.iter().filter(|r| r.finished).count();
    assert!(finished > 0, "no game finished in {} moves", records.len());
    for r in records.iter().filter(|r| r.finished) {
        assert!(r.values == [1, -1] || r.values == [-1, 1] || r.values == [0, 0]);
    }
    assert_eq!(
        s.diag.games_finished as usize, finished,
        "every finished game must have had its slot reseeded"
    );
}

/// A step's policy target is a distribution over exactly the legal squares, and the move it
/// reports was drawn from it.
#[test]
fn training_targets_are_distributions_over_legal_moves() {
    let (_, records) = run::<Puct>(300, 0x55);
    assert!(!records.is_empty());
    for r in &records {
        let mut scratch = Scratch::new();
        let g = Game::from_squares(r.cells, &mut scratch);
        for player in 0..2 {
            let legal = g.legal_moves(player);
            let total: f64 = list(legal).iter().map(|&sq| r.policy.policy[player][sq]).sum();
            assert!((total - 1.0).abs() < 1e-3, "policy sums to {total}");
            for sq in 0..SQUARES {
                let is_legal = holds(legal, sq);
                assert!(is_legal || r.policy.policy[player][sq] == 0.0, "weight on illegal {sq}");
            }
            let played = r.played[player] as usize;
            assert!(holds(legal, played), "played illegal square");
        }
    }
}

/// The sweep is the only thing that keeps the arena bounded.
#[test]
fn the_sweep_reclaims_what_the_games_have_left_behind() {
    let (s, _) = run::<Puct>(600, 0x66);
    assert!(s.diag.nodes_deleted > 0, "the sweep never deleted anything");
    assert!(
        s.arena.len() < s.diag.buffer_unique as usize,
        "nothing was reclaimed: {} live against {} ever created",
        s.arena.len(),
        s.diag.buffer_unique
    );
    assert!(s.arena.free_depth() > 0, "no slot was returned to the free list");
}

/// The second rule drives the same loop.
#[test]
fn exp3_runs_the_whole_loop_too() {
    let (s, records) = run::<Exp3>(400, 0x77);
    assert!(s.diag.steps > 0);
    assert!(!records.is_empty());
    for r in &records {
        for player in 0..2 {
            let total: f64 = r.policy.policy[player].iter().sum();
            assert!((total - 1.0).abs() < 1e-3, "exp3 policy sums to {total}");
        }
    }
}

/// A node budget too small to hold the search must degrade, not panic or corrupt.
#[test]
fn a_tight_node_budget_degrades_instead_of_failing() {
    let c = Config { node_capacity: 500, ..cfg() };
    let mut s = Search::<Puct>::new(c, params(), 0x88);
    let mut model = Stub(Rng::new(9));
    for _ in 0..150 {
        cycle(&mut s, &mut model);
    }
    check(&s);
    assert!(s.diag.exhausted > 0, "500 nodes should not have been enough");
    assert!(s.arena.len() <= 500);
}

/// Every descent either earned a row, rode another game's, ended in a terminal, or ran out
/// of nodes.
#[test]
fn the_counters_add_up() {
    let (s, _) = run::<Puct>(200, 0x99);
    let d = &s.diag;
    assert_eq!(d.descents, d.buffer_unique + d.duplicate_hits + d.terminal_hits + d.exhausted);
    assert_eq!(d.depth_hist.iter().sum::<u64>(), d.descents);
}

/// The records of a finished game, from the opening on, replay to its outcome.
#[test]
fn completed_histories_replay_from_the_opening() {
    let (mut s, records) = run::<Puct>(900, 0xAB);
    let finished = records.iter().filter(|r| r.finished).count();
    let done = s.take_completed_histories();
    assert_eq!(done.len(), finished);
    assert!(!done.is_empty());
    let mut scratch = Scratch::new();
    for h in &done {
        let mut g = Game::new();
        for (k, r) in h.iter().enumerate() {
            assert_eq!(r.cells, g.squares(), "move {k} starts where the last one ended");
            g.action_step(
                legal_cell(r.played[0] as usize),
                legal_cell(r.played[1] as usize),
                &mut scratch,
            );
            assert_eq!(r.finished, k + 1 == h.len());
        }
        assert!(g.finished);
        assert_eq!(h[h.len() - 1].values, g.terminal_values());
    }
    assert!(s.take_completed_histories().is_empty(), "taken once");
}

/// What a game's history holds of a step is the record handed out for it, and a finished
/// game's history is the records of its moves.
#[test]
fn histories_hold_the_records_handed_out() {
    let mut s = Search::<Puct>::new(cfg(), params(), 0xBEEF);
    let mut model = Stub(Rng::new(21));
    let mut seen: Vec<Vec<StepRecord<Aim>>> = (0..64).map(|_| Vec::new()).collect();
    let mut done = 0;
    for _ in 0..900 {
        let records = cycle(&mut s, &mut model);
        let mut ended = Vec::new();
        for r in records {
            let slot = r.id as usize;
            let over = r.finished;
            seen[slot].push(r);
            if over {
                ended.push(std::mem::take(&mut seen[slot]));
            }
        }
        let complete = s.take_completed_histories();
        assert_eq!(complete.len(), ended.len());
        for (have, want) in complete.iter().zip(&ended) {
            assert_eq!(have.len(), want.len());
            for (a, b) in have.iter().zip(want) {
                assert_eq!((a.cells, a.played, a.values), (b.cells, b.played, b.values));
                assert_eq!(a.policy.policy, b.policy.policy);
            }
            done += 1;
        }
        for (have, want) in s.histories.iter().zip(&seen) {
            assert_eq!(have.len(), want.len());
        }
    }
    assert!(done > 0, "no game finished");
}

/// The games and the generator of a search are the seed's: the same seed plays the same
/// games, and another seed plays others.
#[test]
fn a_seed_settles_the_whole_search() {
    let played = |seed: u64| {
        let mut s = Search::<Puct>::new(cfg(), params(), seed);
        let mut model = Stub(Rng::new(5));
        let mut moves: Vec<(u16, [u8; 2])> = Vec::new();
        for _ in 0..120 {
            moves.extend(cycle(&mut s, &mut model).iter().map(|r| (r.id, r.played)));
        }
        (moves, s.rng.next_u64())
    };
    let (a, b, c) = (played(0x5EED), played(0x5EED), played(0x5EEE));
    assert!(!a.0.is_empty());
    assert_eq!(a, b);
    assert_ne!(a, c);
}

/// The rows are filled in slot order: a group's row where its first game stands, a node's row
/// where the game that made it stands.
#[test]
fn rows_are_asked_for_in_slot_order() {
    let mut s = Search::<Puct>::new(cfg(), params(), 0x909);
    let mut model = Stub(Rng::new(6));
    for _ in 0..200 {
        let n = s.prepare_evaluation();
        let mut last = None;
        for target in &s.buffer.targets {
            let by = match *target {
                Target::Root(k) => s.buffer.groups[k][0] as usize,
                Target::Node(node) => {
                    s.slots.iter().position(|x| x.waiting_on == Some(node)).unwrap()
                }
            };
            assert!(last < Some(by), "slot {by} after slot {last:?}");
            last = Some(by);
        }
        let readings: Vec<Reading> =
            (0..n).map(|k| model.read(&s.buffer.positions[k], s.buffer.scores[k])).collect();
        s.complete_evaluation(&readings);
    }
}

/// A new node takes the slot freed last, or else a new one, and only the nodes on the way are
/// marked as used.
#[test]
fn a_descent_marks_the_nodes_on_its_way_and_no_other() {
    let mut arena = Arena::<PuctStats>::new(&descent_cfg());
    let mut slot = opening::<PuctStats, f32>();
    let mut other = opening::<PuctStats, f32>();
    let mut rng = Rng::new(0x77);
    let mut scratch = Scratch::new();
    for _ in 0..300 {
        if let Descent::Entry { .. } =
            descend::<Puct>(0, &mut slot, &mut arena, &params(), &mut rng, &mut scratch)
        {
            resolve::<Puct>(&mut slot, &mut arena, [0.1, -0.1], &mut rng);
        }
    }
    let mut joined = 0;
    for _ in 0..40 {
        let before: HashMap<u32, bool> = arena
            .live_slots()
            .into_iter()
            .map(|i| (i, arena.node(i).ids().contains(&1)))
            .collect();
        let count = arena.slot_count() as u32;
        let mut trace: Vec<Selection<f32>> = Vec::new();
        let got = descend_traced::<Puct>(
            1, &mut other, &mut arena, &params(), &mut rng, &mut scratch, &mut trace,
        );
        let mut on_way: Vec<u32> = trace.iter().skip(1).map(|x| x.node).collect();
        if let Descent::Entry { node, fresh } = got {
            assert_eq!(fresh, node == count, "a new node takes a new slot here");
            on_way.push(node);
        }
        for (&i, &had) in &before {
            let has = arena.node(i).ids().contains(&1);
            assert_eq!(has, had || on_way.contains(&i), "node {i}");
            joined += usize::from(has && !had);
        }
        if let Descent::Entry { .. } = got {
            resolve::<Puct>(&mut other, &mut arena, [0.1, -0.1], &mut rng);
        }
    }
    assert!(joined > 0, "no node was shared");
}

/// The sweep's counters: a reach test for each claim of a game that moved and goes on, and a
/// bucket for each node by how many games had used it.
#[test]
fn the_sweep_counts_what_it_finds() {
    let mut s = Search::<Puct>::new(cfg(), params(), 0x717);
    let mut model = Stub(Rng::new(31));
    let mut highest = 0;
    for _ in 0..200 {
        let n = s.prepare_evaluation();
        let readings: Vec<Reading> =
            (0..n).map(|k| model.read(&s.buffer.positions[k], s.buffer.scores[k])).collect();
        let claims: Vec<(usize, Vec<u16>)> = s
            .arena
            .live_slots()
            .into_iter()
            .map(|i| (s.arena.node(i).ids().len(), s.arena.node(i).ids().to_vec()))
            .collect();
        let before = s.diag.clone();
        let records = s.complete_evaluation(&readings);
        if records.is_empty() {
            assert_eq!(s.diag.reach_tested, before.reach_tested);
            assert_eq!(s.diag.id_histogram, before.id_histogram);
            continue;
        }
        let moved: Vec<u16> = records.iter().filter(|r| !r.finished).map(|r| r.id).collect();
        let mut histogram = before.id_histogram.clone();
        let mut tests = 0;
        for (len, ids) in &claims {
            histogram[*len] += 1;
            highest = highest.max(*len);
            tests += ids.iter().filter(|id| moved.contains(id)).count();
        }
        assert_eq!(s.diag.id_histogram, histogram);
        assert_eq!(s.diag.reach_tested - before.reach_tested, tests as u64);
        assert_eq!(s.diag.max_id_count as usize, highest);
        let left = s.arena.live_slots().len();
        assert_eq!(s.diag.nodes_deleted - before.nodes_deleted, (claims.len() - left) as u64);
    }
    assert!(s.diag.reach_kept > 0 && s.diag.reach_kept < s.diag.reach_tested);
}

/// After a new model the trees are gone and the games are not.
#[test]
fn a_new_model_keeps_the_games_and_drops_the_trees() {
    let (mut s, _) = run::<Puct>(60, 0xCD);
    let roots: Vec<Game> = s.slots.iter().map(|x| x.root.game.clone()).collect();
    assert!(s.arena.len() > 0);
    s.clear_for_new_model();
    assert_eq!(s.arena.len(), 0);
    for (slot, g) in s.slots.iter().zip(&roots) {
        assert_eq!(&slot.root.game, g);
        assert!(slot.root.pending);
        assert_eq!(slot.sim_count, 0);
    }
    check(&s);
}

// -------------------------------------------------------------------------------- lifetimes

#[test]
fn reused_slot_starts_at_age_zero() {
    let cfg = Config { node_capacity: 1, ..Config::default() };
    let mut arena = Arena::<()>::new(&cfg);
    let slot = arena.insert(1, Game::new(), 0, 0).unwrap();
    assert_eq!(arena.node(slot).sweep_age, 0);
    arena.node_mut(slot).sweep_age = 42;
    arena.remove(slot);
    let reused = arena.insert(2, Game::new(), 0, 0).unwrap();
    assert_eq!(slot, reused);
    assert_eq!(arena.node(reused).sweep_age, 0);
}

fn ages<V: Variant>(search: &Search<V>) -> HashMap<u64, u32> {
    search
        .arena
        .live_slots()
        .into_iter()
        .map(|slot| {
            let n = search.arena.node(slot);
            (n.key, n.sweep_age)
        })
        .collect()
}

#[test]
fn age_changes_only_for_surviving_sweeps() {
    let cfg = Config { g: 8, b: 4, t: usize::MAX, s: 8, node_capacity: 2048, ..Config::default() };
    let mut search = Search::<Puct>::new(cfg, params(), 123);
    let mut model = Uniform;
    let mut survivors_seen = 0;
    for _ in 0..6 {
        let mut cycles = 0;
        while search.ready() < 4 {
            let before = ages(&search);
            cycle(&mut search, &mut model);
            for (key, age) in ages(&search) {
                assert_eq!(age, before.get(&key).copied().unwrap_or(0));
            }
            cycles += 1;
            assert!(cycles < 1000);
        }
        let before = ages(&search);
        assert!(!search.step().is_empty());
        for (key, age) in ages(&search) {
            assert_eq!(age, before[&key] + 1);
            survivors_seen += 1;
        }
    }
    assert!(survivors_seen > 0);
    for (age, &n) in age_histogram(&search.arena, 4).iter().enumerate() {
        let want = ages(&search).values().filter(|&&a| a as usize == age).count();
        assert_eq!(n, want, "age {age}");
    }
    let all = age_histogram(&search.arena, 7);
    assert_eq!(all.iter().sum::<usize>(), search.arena.len(), "six sweeps, so ages up to six");
}

/// What a sweep removes, by age, adds up to what it removed.
#[test]
fn removals_by_age_add_up() {
    let cfg = Config { t: usize::MAX, ..cfg() };
    let mut search = Search::<Puct>::new(cfg, params(), 0xD1E);
    let mut model = Stub(Rng::new(17));
    for sweep in 0..4 {
        while search.ready() < 16 {
            cycle(&mut search, &mut model);
        }
        let live = search.arena.len();
        let before = age_histogram(&search.arena, sweep + 1);
        search.step();
        let after = age_histogram(&search.arena, sweep + 2);
        let dead = deaths(&before, &after).expect("no more survivors than nodes");
        assert_eq!(dead.iter().sum::<usize>(), live - search.arena.len());
    }
    assert_eq!(deaths(&vec![1], &vec![0, 2]), None);
}

// ------------------------------------------------------------------------------------ trace

#[test]
fn nodes_are_named_in_the_order_they_were_queued() {
    let mut names = Names::new();
    names.note(40);
    names.note(7);
    names.note(40);
    let label = |names: &Names, node: u32| {
        let mut out = String::new();
        names.push_label(&mut out, node);
        out
    };
    assert_eq!(label(&names, ROOT), "r");
    assert_eq!(label(&names, 40), "n1");
    assert_eq!(label(&names, 7), "n2");
    assert_eq!(label(&names, 12), "?12");

    let mut s = Search::<Puct>::new(cfg(), params(), 0x7A);
    cycle(&mut s, &mut Stub(Rng::new(1)));
    let n = s.prepare_evaluation();
    let mut fresh = Names::new();
    fresh.note_rows(&s.buffer);
    assert_eq!(fresh.nodes.len(), n, "every row of this cycle is a new node");
    assert_eq!(label(&fresh, fresh.nodes[0]), "n1");
}

#[test]
fn outcomes_are_told_in_words() {
    let mut names = Names::new();
    names.note(3);
    let tell = |r: Descent| {
        let mut out = String::new();
        push_outcome(&mut out, &names, 5, 2, r);
        out
    };
    let entry = |fresh: bool| Descent::Entry { node: 3, fresh };
    assert_eq!(tell(entry(true)), "        queued node n1 for eval\n");
    assert_eq!(tell(entry(false)), "        node n1 already in buffer\n");
    assert_eq!(
        tell(Descent::NoEntry),
        "    game 5: terminal at depth 2 (backed up on the spot)\n"
    );
    assert_eq!(tell(Descent::Exhausted), "    game 5: EXHAUSTED (node stack full)\n");
}

/// The joint children of a root that are in the arena, by brute force.
#[test]
fn children_are_counted_by_joint_moves() {
    let (slot, arena) = descend_alone::<Puct>(150, 0xC41D);
    let legal = [slot.root.game.legal_moves(0), slot.root.game.legal_moves(1)];
    let mut want = 0;
    for x in list(legal[0]) {
        for y in list(legal[1]) {
            let key = zobrist::step(slot.root.key, &slot.root.game.squares(), x, y);
            want += usize::from(arena.get(key).is_some());
        }
    }
    assert!(want > 1);
    assert_eq!(children_among(&slot.root, &arena, legal[0], legal[1]), want);
    assert_eq!(children_among(&slot.root, &arena, [0, 0], legal[1]), 0);
    assert!(all_simulated(&vec![slot], 150));
}

// ------------------------------------------------------------------------------- evaluation

struct CheckInputs {
    scratch: Scratch,
    saw_scores: bool,
}

impl Model for CheckInputs {
    fn read(&mut self, squares: &[i8; SQUARES], scores: [i32; 2]) -> Reading {
        assert_eq!(Game::from_squares(*squares, &mut self.scratch).scores, scores);
        self.saw_scores |= scores != [0; 2];
        Reading { priors: [[1.0; SQUARES]; 2], values: [0.0; 2] }
    }
}

fn check_inputs<V: Variant<Reading = Reading, Params = Params>>() {
    let cfg = Config { g: 8, b: 3, t: 4, s: 3, node_capacity: 4096, ..Config::default() };
    let mut search = Search::<V>::new(cfg, params(), 7);
    let mut model = CheckInputs { scratch: Scratch::new(), saw_scores: false };
    let mut steps = 0;
    for _ in 0..1000 {
        assert_eq!(search.buffer.positions.len(), search.buffer.scores.len());
        if !cycle(&mut search, &mut model).is_empty() {
            steps += 1;
        }
        if steps == 50 {
            break;
        }
    }
    assert_eq!(steps, 50);
    assert!(model.saw_scores, "must cover scored positions as well as opening rows");
}

#[test]
fn puct_buffer_keeps_scores_aligned() {
    check_inputs::<Puct>();
}

#[test]
fn exp3_buffer_keeps_scores_aligned() {
    check_inputs::<Exp3>();
}

// --------------------------------------------------------------------------------- training

#[test]
fn a_step_emits_exactly_t_records_and_masks_unvisited_values() {
    let cfg = Config { g: 8, b: 8, t: 4, s: 2, node_capacity: 1000, ..Config::default() };
    let mut trainer = Trainer::<Puct>::new(cfg, params(), 23);
    let mut emitted = 0;
    for _ in 0..20 {
        let (boards, n) = trainer.inputs();
        assert_eq!(boards.len(), cfg.b * 1600);
        let readings: Vec<Reading> = (0..n)
            .map(|_| Reading { priors: [[1.0; SQUARES]; 2], values: [0.5; 2] })
            .collect();
        emitted = trainer.advance(&readings);
        if emitted > 0 {
            break;
        }
    }
    assert_eq!(emitted, cfg.t);
    assert_eq!(trainer.records.len(), cfg.t);
    assert!(trainer.search.ready() > 0, "extra ready games should wait");
    for record in &trainer.records {
        for player in 0..2 {
            assert_eq!(record.policy.visits[player].iter().sum::<u64>(), cfg.s as u64);
            for sq in 0..SQUARES {
                if record.policy.visits[player][sq] > 0 {
                    assert!((record.policy.action_value[player][sq] - 0.5).abs() < 1e-5);
                }
            }
        }
    }

    // the batch shows each record as both players see it, turned as asked
    let boards = trainer.batch(&vec![0, 0], &vec![0, 3]);
    assert_eq!(boards.len(), 3200);
    for plane in 0..5 {
        for cell in 0..160 {
            let turned = 159 - cell;
            for player in 0..2 {
                assert_eq!(
                    boards[player * 800 + plane * 160 + cell],
                    boards[(2 + player) * 800 + plane * 160 + turned]
                );
            }
        }
    }
    let ones = boards[..800].iter().filter(|&&x| x == PLANE_ONE).count();
    assert_eq!(ones, 160, "each cell is in one plane");

    assert_eq!(trainer.model_calls > 0, true);
    trainer.network_update();
    assert_eq!((trainer.records.len(), trainer.model_calls, trainer.evaluated), (0, 0, 0));
    assert_eq!(trainer.search.arena.len(), 0);
}

/// The nodes in use never exceed the budget, cycle after cycle.
#[test]
fn the_node_budget_holds_between_cycles() {
    let c = Config { node_capacity: 60, ..cfg() };
    let mut s = Search::<Puct>::new(c, params(), 0x89);
    assert_eq!((s.arena.capacity(), s.arena.len(), s.arena.overflows), (60, 0, 0));
    let mut model = Stub(Rng::new(9));
    let mut fullest = 0;
    for _ in 0..60 {
        cycle(&mut s, &mut model);
        assert_eq!(s.arena.capacity(), 60);
        assert!(s.arena.len() <= 60);
        fullest = fullest.max(s.arena.len());
    }
    assert_eq!(fullest, 60);
}

/// A trainer starts at the opening, from its seed alone, and its first input is the opening.
#[test]
fn a_trainer_follows_from_its_seed() {
    let cfg = Config { g: 8, b: 8, t: 4, s: 2, node_capacity: 1000, ..Config::default() };
    let play = |seed: u64| {
        let mut trainer = Trainer::<Puct>::new(cfg, params(), seed);
        assert_eq!(trainer.search.slots.len(), cfg.g);
        assert_eq!((trainer.search.arena.len(), trainer.search.arena.capacity()), (0, 1000));
        assert!(trainer.search.slots.iter().all(|s| s.root.game == Game::new()));
        let (_, first) = trainer.inputs();
        assert_eq!(first, 1, "identical openings share one row");
        let mut n = first;
        let mut seen = Vec::new();
        for _ in 0..6 {
            let readings: Vec<Reading> = (0..n)
                .map(|_| Reading { priors: [[1.0; SQUARES]; 2], values: [0.5; 2] })
                .collect();
            trainer.advance(&readings);
            let (boards, next) = trainer.inputs();
            assert!(next > 0, "every cycle collects something to evaluate");
            seen.push(boards);
            n = next;
        }
        seen
    };
    assert!(play(23) == play(23));
    assert!(play(23) != play(24));
}

/// A network update drops nodes and records. The diagnosis and the budget stay.
#[test]
fn a_network_update_keeps_the_diagnosis_and_the_budget() {
    let cfg = Config { g: 8, b: 8, t: 4, s: 2, node_capacity: 1000, ..Config::default() };
    let mut trainer = Trainer::<Puct>::new(cfg, params(), 23);
    for _ in 0..6 {
        let (_, n) = trainer.inputs();
        let readings: Vec<Reading> = (0..n)
            .map(|_| Reading { priors: [[1.0; SQUARES]; 2], values: [0.5; 2] })
            .collect();
        trainer.advance(&readings);
    }
    assert!(trainer.search.arena.len() > 0 && trainer.search.diag.cycles > 0);
    let (cycles, descents) = (trainer.search.diag.cycles, trainer.search.diag.descents);
    trainer.network_update();
    assert_eq!((trainer.search.arena.len(), trainer.search.arena.capacity()), (0, 1000));
    assert_eq!((trainer.search.diag.cycles, trainer.search.diag.descents), (cycles, descents));
}

#[test]
fn the_four_views_of_a_cell() {
    // row 2, column 5
    let cell = 37;
    assert_eq!(coordinate(cell, 0), 37);
    assert_eq!(coordinate(cell, 1), 7 * 16 + 5);
    assert_eq!(coordinate(cell, 2), 2 * 16 + 10);
    assert_eq!(coordinate(cell, 3), 7 * 16 + 10);
    for transform in 0..4 {
        for cell in 0..160 {
            assert_eq!(coordinate(coordinate(cell, transform), transform), cell);
        }
    }
}

#[test]
fn a_policy_is_spread_over_the_cells() {
    let values: [u32; SQUARES] = std::array::from_fn(|k| k as u32 + 1);
    for transform in 0..4 {
        let out = spread(&values, 0, transform);
        assert_eq!(out.len(), 160);
        for k in 0..SQUARES {
            assert_eq!(out[coordinate(legal_cell(k), transform)], k as u32 + 1);
        }
        assert_eq!(out.iter().filter(|&&v| v == 0).count(), 80);
    }
}

#[test]
fn a_small_batch_can_be_trained_and_an_empty_one_cannot() {
    let good = Config { g: 8, b: 8, t: 4, s: 2, node_capacity: 1000, ..Config::default() };
    assert!(good.trainable());
    assert!(!Config { g: 0, ..good }.trainable());
    assert!(!Config { g: 65536, ..good }.trainable());
    assert!(!Config { b: 0, ..good }.trainable());
    assert!(!Config { b: 9, ..good }.trainable());
    assert!(!Config { t: 0, ..good }.trainable());
    assert!(!Config { t: 9, ..good }.trainable());
    assert!(!Config { s: 0, ..good }.trainable());
    assert!(!Config { node_capacity: 0, ..good }.trainable());
}

#[test]
fn the_default_node_budget_is_eight_per_simulation() {
    assert_eq!(Config::recommended_node_capacity(64, 100), 51_200);
    let c = Config::default();
    assert_eq!((c.g, c.b, c.t, c.s), (8192, 2048, 2048, 100));
    assert_eq!(c.node_capacity, 8192 * 100 * 8);
    let one = Config::cfg_for(64);
    assert_eq!((one.g, one.b, one.t, one.s, one.max_descents), (64, 64, usize::MAX, 200, 4));
    assert_eq!(one.node_capacity, 8000);
    assert_eq!(Config::cfg_for(1).node_capacity, 4096);
}
