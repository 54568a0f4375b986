//! Search tunables.
use vstd::prelude::*;

verus! {

/// Game-id slots per node. A constant because it sizes an array on every node.
pub const K: usize = 64;

/// Nodes per game and simulation, roughly four times the largest measured peak.
pub const NODE_CAPACITY_FACTOR: usize = 8;

/// Bits in a node's flags. Terminality is not a flag: a node owns its game, so it is
/// `game.finished`, and a stored copy could only drift from it.
pub const PENDING: u8 = 1;

/// This node's id list has been full at least once, so some game's claim on it was dropped.
pub const OVERFLOWED: u8 = 2;

#[derive(Clone, Copy, Debug)]
pub struct Config {
    /// Live game slots.
    pub g: usize,
    /// Evaluation buffer width: positions per model call.
    pub b: usize,
    /// Ready-to-step threshold.
    pub t: usize,
    /// Simulations per game per move.
    pub s: u32,
    /// Node stack size.
    pub node_capacity: usize,
    /// Descents a game may make in one cycle.
    pub max_descents: u32,
}

impl Default for Config {
    fn default() -> (c: Self)
        ensures
            c.g == 8192,
            c.b == 2048,
            c.t == 2048,
            c.s == 100,
            c.node_capacity == c.g * c.s * NODE_CAPACITY_FACTOR,
            c.max_descents == 4,
    {
        Config { g: 8192, b: 2048, t: 2048, s: 100, node_capacity: 6_553_600, max_descents: 4 }
    }
}

impl Config {
    /// A node capacity for so many games and simulations that leaves room to spare.
    pub fn recommended_node_capacity(g: usize, s: u32) -> (n: usize)
        requires
            g * s * NODE_CAPACITY_FACTOR <= usize::MAX,
        ensures
            n == g * s * NODE_CAPACITY_FACTOR,
    {
        assert(g * s <= usize::MAX) by (nonlinear_arith)
            requires
                g * s * NODE_CAPACITY_FACTOR <= usize::MAX,
                0 <= g * s,
        ;
        assert(s <= usize::MAX || g == 0) by (nonlinear_arith)
            requires
                g * s <= usize::MAX,
                0 <= g,
        ;
        let size: usize = s as usize;
        g * size * NODE_CAPACITY_FACTOR
    }

    /// Settings for studying one move of `g` games: a row for each of them, a threshold no
    /// number of games comes to, and as many nodes as one move takes, 4096 at least.
    pub fn cfg_for(g: usize) -> (c: Self)
        requires
            g * 1000 <= usize::MAX,
        ensures
            c.g == g,
            c.b == g,
            c.t == usize::MAX,
            c.s == 200,
            c.max_descents == 4,
            c.node_capacity == (if g * 200 * 5 / 8 < 4096 {
                4096
            } else {
                g * 200 * 5 / 8
            }),
    {
        let nodes: usize = g * 200 * 5 / 8;
        Config {
            g,
            b: g,
            t: usize::MAX,
            s: 200,
            node_capacity: if nodes < 4096 {
                4096
            } else {
                nodes
            },
            max_descents: 4,
        }
    }

    /// Can targets be collected with these settings?
    pub open spec fn trainable_spec(&self) -> bool {
        &&& 0 < self.g <= u16::MAX
        &&& 0 < self.b <= self.g
        &&& 0 < self.t <= self.g
        &&& self.s > 0
        &&& self.node_capacity > 0
    }

    /// Can targets be collected with these settings? There must be games, numbered by `u16`s,
    /// and neither the buffer nor a step may ask for more of them than there are.
    pub fn trainable(&self) -> (r: bool)
        ensures
            r == self.trainable_spec(),
    {
        self.g > 0 && self.g <= u16::MAX as usize && self.b > 0 && self.b <= self.g && self.t > 0
            && self.t <= self.g && self.s > 0 && self.node_capacity > 0
    }
}

} // verus!
