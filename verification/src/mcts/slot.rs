//! Per-game state: the root it searches from, and the one in-flight simulation it holds.
//!
//! A root is a private copy of a position, never the shared node the arena holds for the same
//! state. That is forced by root noise: noise applies to roots only, and writing it into a
//! shared node would push one game's exploration into every other game that reaches the
//! state. Two games sitting on the same root each keep their own.
//!
//! The path is the only place tree structure exists, and it lives here rather than in the
//! nodes because it belongs to one simulation, not to a position: backup is deferred until
//! the batched evaluation returns, so the route taken has to survive in the meantime.
use vstd::prelude::*;

use crate::game::Game;
use crate::mcts::config::Config;
use crate::mcts::variant::Choice;

verus! {

/// Deepest a descent can go: a move takes at least one playable square.
pub const MAX_PLY: usize = 80;

/// Stands in for the game's own root in a path step, since a root has no arena slot.
pub const ROOT: u32 = u32::MAX;

/// The position a game is searching from, with its own statistics.
#[derive(Debug)]
pub struct Root<S> {
    pub key: u64,
    pub game: Game,
    pub stats: S,
    /// No priors yet: the game does not descend until the evaluation lands.
    pub pending: bool,
}

/// One node on the route of a simulation, and what was played there.
#[derive(Clone, Copy, Debug)]
pub struct PathStep<P> {
    /// Arena slot, or [`ROOT`].
    pub node: u32,
    pub choice: [Choice<P>; 2],
}

/// The route of the one in-flight simulation, root first.
#[derive(Debug)]
pub struct Path<P> {
    pub steps: Vec<PathStep<P>>,
}

impl<P: Copy> Path<P> {
    pub fn new() -> (p: Self)
        ensures
            p.steps@.len() == 0,
    {
        Path { steps: Vec::new() }
    }

    pub fn len(&self) -> (n: usize)
        ensures
            n == self.steps@.len(),
    {
        self.steps.len()
    }

    pub fn is_empty(&self) -> (r: bool)
        ensures
            r == (self.steps@.len() == 0),
    {
        self.steps.len() == 0
    }

    pub fn clear(&mut self)
        ensures
            final(self).steps@.len() == 0,
    {
        self.steps.clear();
    }

    /// The `k`-th step from the root.
    pub fn step(&self, k: usize) -> (s: PathStep<P>)
        requires
            k < self.steps@.len(),
        ensures
            s == self.steps@[k as int],
    {
        self.steps[k]
    }

    pub fn push(&mut self, node: u32, choice: [Choice<P>; 2])
        requires
            old(self).steps@.len() < MAX_PLY,
        ensures
            final(self).steps@ == old(self).steps@.push((PathStep { node, choice })),
    {
        self.steps.push(PathStep { node, choice });
    }
}

/// One game. The slot index is the game id the arena records on nodes.
#[derive(Debug)]
pub struct Slot<S, P> {
    pub occupied: bool,
    pub game_over: bool,
    pub root: Root<S>,
    /// Simulations completed at this root.
    pub sim_count: u32,
    /// Descents made this cycle.
    pub descents: u32,
    /// The depth the last descent reached.
    pub last_depth: u8,
    pub path: Path<P>,
    /// The node whose evaluation this game's backup is blocked on.
    pub waiting_on: Option<u32>,
}

impl<S: Default, P: Copy> Default for Slot<S, P> {
    fn default() -> (s: Self)
        ensures
            !s.occupied,
            !s.game_over,
            s.root.key == 0,
            s.root.game.wf(),
            s.root.game.cells@ == crate::balance::opening(),
            s.root.game.move_count == 0,
            s.root.pending,
            call_ensures(S::default, (), s.root.stats),
            s.sim_count == 0,
            s.descents == 0,
            s.last_depth == 0,
            s.path.steps@.len() == 0,
            s.waiting_on is None,
    {
        Slot {
            occupied: false,
            game_over: false,
            root: Root { key: 0, game: Game::new(), stats: S::default(), pending: true },
            sim_count: 0,
            descents: 0,
            last_depth: 0,
            path: Path::new(),
            waiting_on: None,
        }
    }
}

impl<S, P: Copy> Slot<S, P> {
    /// Has done its share of simulations and is waiting for a step.
    pub open spec fn is_ready(&self, cfg: Config) -> bool {
        self.occupied && !self.game_over && self.sim_count == cfg.s
    }

    /// Eligible for a descent this cycle: playing, not already waiting, still short of
    /// simulations.
    pub open spec fn is_collectable(&self, cfg: Config) -> bool {
        self.occupied && !self.game_over && self.waiting_on is None && self.sim_count < cfg.s
    }

    /// Has done its share of simulations and is waiting for a step.
    ///
    /// `==` holds exactly: one descent completes at most one simulation, and a ready game
    /// stops descending, so the count lands on `s` rather than past it.
    pub fn ready(&self, cfg: &Config) -> (r: bool)
        ensures
            r == self.is_ready(*cfg),
    {
        self.occupied && !self.game_over && self.sim_count == cfg.s
    }

    /// Eligible for a descent this cycle: playing, not already waiting, still short of
    /// simulations.
    pub fn collectable(&self, cfg: &Config) -> (r: bool)
        ensures
            r == self.is_collectable(*cfg),
    {
        self.occupied && !self.game_over && self.waiting_on.is_none() && self.sim_count < cfg.s
    }
}

} // verus!
