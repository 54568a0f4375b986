//! The evaluation buffer: a fixed number of rows, of which the first few are filled.
use vstd::prelude::*;

use crate::board::SQUARES;
use crate::game::{squares_of, Game};

verus! {

/// Where an evaluated row belongs.
#[derive(Clone, Copy, PartialEq, Eq, Debug, Structural)]
pub enum Target {
    /// A node in the arena, named by slot.
    Node(u32),
    /// A root state, named by the group of games that wait on it.
    Root(usize),
}

/// The positions one model call is to score, and whom the answers are for.
#[derive(Debug)]
pub struct Buffer {
    /// The squares of each row's position, in bit order. Rows past the filled ones are zero,
    /// which is what the model is handed for the shortfall.
    pub positions: Vec<[i8; SQUARES]>,
    /// The scores of each row's position.
    pub scores: Vec<[i32; 2]>,
    /// Whom each filled row is for.
    pub targets: Vec<Target>,
    /// The games that wait on one root state each, so that a root state costs one row however
    /// many games happen to be sitting on it.
    pub groups: Vec<Vec<u16>>,
}

/// A row with nothing in it.
pub open spec fn zero_row(cells: Seq<i8>) -> bool {
    forall|k: int| 0 <= k < SQUARES ==> #[trigger] cells[k] == 0
}

/// Is there nothing in row `r`?
pub open spec fn blank_row(positions: Seq<[i8; SQUARES]>, scores: Seq<[i32; 2]>, r: int) -> bool {
    zero_row(positions[r]@) && scores[r]@ == seq![0i32, 0i32]
}

impl Buffer {
    pub open spec fn wf(&self) -> bool {
        &&& self.scores@.len() == self.positions@.len()
        &&& self.targets@.len() <= self.positions@.len()
        &&& forall|r: int|
            self.targets@.len() <= r < self.positions@.len() ==> #[trigger] blank_row(
                self.positions@,
                self.scores@,
                r,
            )
    }

    /// Does row `r` hold this game's position?
    pub open spec fn row_is(&self, r: int, g: Game) -> bool {
        self.positions@[r]@ == squares_of(g.cells@) && self.scores@[r] == g.scores
    }

    /// An empty buffer of the given width.
    pub fn new(width: usize) -> (b: Self)
        ensures
            b.wf(),
            b.positions@.len() == width,
            b.targets@.len() == 0,
            b.groups@.len() == 0,
    {
        let mut positions: Vec<[i8; SQUARES]> = Vec::new();
        let mut scores: Vec<[i32; 2]> = Vec::new();
        let mut r: usize = 0;
        while r < width
            invariant
                r <= width,
                positions@.len() == r,
                scores@.len() == r,
                forall|q: int| 0 <= q < r ==> #[trigger] blank_row(positions@, scores@, q),
            decreases width - r,
        {
            let none: [i32; 2] = [0, 0];
            assert(none@ =~= seq![0i32, 0i32]);
            let ghost p0 = positions@;
            let ghost s0 = scores@;
            positions.push([0i8; SQUARES]);
            scores.push(none);
            r = r + 1;
            assert forall|q: int| 0 <= q < r implies #[trigger] blank_row(
                positions@,
                scores@,
                q,
            ) by {
                if q < r - 1 {
                    assert(blank_row(p0, s0, q));
                }
            }
        }
        Buffer { positions, scores, targets: Vec::new(), groups: Vec::new() }
    }

    /// Empty all filled rows.
    pub fn clear(&mut self)
        requires
            old(self).wf(),
        ensures
            final(self).wf(),
            final(self).positions@.len() == old(self).positions@.len(),
            final(self).targets@.len() == 0,
            final(self).groups@.len() == 0,
    {
        let filled: usize = self.targets.len();
        let ghost before = *self;
        let mut r: usize = 0;
        while r < filled
            invariant
                r <= filled <= self.positions@.len(),
                filled == before.targets@.len(),
                before.wf(),
                self.positions@.len() == before.positions@.len(),
                self.scores@.len() == self.positions@.len(),
                forall|q: int| 0 <= q < r ==> #[trigger] blank_row(self.positions@, self.scores@, q),
                forall|q: int|
                    filled <= q < self.positions@.len() ==> #[trigger] blank_row(
                        self.positions@,
                        self.scores@,
                        q,
                    ),
            decreases filled - r,
        {
            let none: [i32; 2] = [0, 0];
            assert(none@ =~= seq![0i32, 0i32]);
            let ghost here = *self;
            self.positions.set(r, [0i8; SQUARES]);
            self.scores.set(r, none);
            r = r + 1;
            assert forall|q: int| 0 <= q < r implies #[trigger] blank_row(
                self.positions@,
                self.scores@,
                q,
            ) by {
                if q < r - 1 {
                    assert(blank_row(here.positions@, here.scores@, q));
                }
            }
            assert forall|q: int| filled <= q < self.positions@.len() implies #[trigger] blank_row(
                self.positions@,
                self.scores@,
                q,
            ) by {
                assert(blank_row(here.positions@, here.scores@, q));
            }
        }
        self.targets = Vec::new();
        self.groups = Vec::new();
    }

    pub fn len(&self) -> (n: usize)
        ensures
            n == self.targets@.len(),
    {
        self.targets.len()
    }

    pub fn width(&self) -> (n: usize)
        ensures
            n == self.positions@.len(),
    {
        self.positions.len()
    }

    pub fn is_full(&self) -> (r: bool)
        requires
            self.wf(),
        ensures
            r == (self.targets@.len() == self.positions@.len()),
    {
        self.targets.len() == self.positions.len()
    }

    /// Fill the next row with a game's position.
    pub fn push(&mut self, game: &Game, target: Target)
        requires
            old(self).wf(),
            old(self).targets@.len() < old(self).positions@.len(),
        ensures
            final(self).wf(),
            final(self).positions@.len() == old(self).positions@.len(),
            final(self).targets@ == old(self).targets@.push(target),
            final(self).groups == old(self).groups,
            final(self).row_is(old(self).targets@.len() as int, *game),
            forall|r: int|
                0 <= r < old(self).targets@.len() ==> #[trigger] final(self).positions@[r] == old(
                    self,
                ).positions@[r] && final(self).scores@[r] == old(self).scores@[r],
    {
        let at: usize = self.targets.len();
        let ghost before = *self;
        self.positions.set(at, game.squares());
        self.scores.set(at, game.scores);
        self.targets.push(target);
        assert forall|r: int|
            self.targets@.len() <= r < self.positions@.len() implies #[trigger] blank_row(
            self.positions@,
            self.scores@,
            r,
        ) by {
            assert(blank_row(before.positions@, before.scores@, r));
        }
    }
}

} // verus!
