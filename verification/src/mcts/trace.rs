//! Following a search by eye: short names for nodes, what became of a game's descents, and how
//! much of a root's tree there is.
use vstd::prelude::*;

use crate::board::SQUARES;
use crate::game::squares_of;
use crate::legal::{holds, test_bit, LEGAL_WORDS};
use crate::mcts::arena::Arena;
use crate::mcts::buffer::{Buffer, Target};
use crate::mcts::descent::{root_ok, Descent};
use crate::mcts::slot::{Root, Slot, ROOT};
use crate::sums::{sum_to, unit};
use crate::text::{decimal, push_decimal};
use crate::zobrist::{self, hash_step};

verus! {

// ------------------------------------------------------------------------------------ names

/// The nodes that have a name, in the order in which they got it.
pub struct Names {
    pub nodes: Vec<u32>,
}

/// The names after a node was seen: a node seen for the first time is named next.
pub open spec fn named(nodes: Seq<u32>, node: u32) -> Seq<u32> {
    if nodes.contains(node) {
        nodes
    } else {
        nodes.push(node)
    }
}

/// The names after the first `n` rows of a buffer were seen, in order.
pub open spec fn named_rows(nodes: Seq<u32>, targets: Seq<Target>, n: nat) -> Seq<u32>
    decreases n,
{
    if n == 0 {
        nodes
    } else {
        let before = named_rows(nodes, targets, (n - 1) as nat);
        match targets[n - 1] {
            Target::Node(node) => named(before, node),
            Target::Root(_) => before,
        }
    }
}

/// A node's name: `r` for a root, `n1`, `n2` and so on for the named nodes, and the slot behind
/// a question mark for one that has no name.
pub open spec fn label_of(nodes: Seq<u32>, node: u32) -> Seq<char> {
    if node == ROOT {
        "r"@
    } else if nodes.contains(node) {
        "n"@ + decimal((nodes.index_of(node) + 1) as nat)
    } else {
        "?"@ + decimal(node as nat)
    }
}

impl Names {
    pub open spec fn wf(&self) -> bool {
        self.nodes@.no_duplicates()
    }

    /// No names yet.
    pub fn new() -> (n: Self)
        ensures
            n.wf(),
            n.nodes@.len() == 0,
    {
        Names { nodes: Vec::new() }
    }

    /// Which name a node has.
    fn find(&self, node: u32) -> (r: Option<usize>)
        requires
            self.wf(),
        ensures
            r is Some <==> self.nodes@.contains(node),
            r matches Some(k) ==> k < self.nodes@.len() && self.nodes@.index_of(node) == k,
    {
        let mut k: usize = 0;
        while k < self.nodes.len()
            invariant
                k <= self.nodes@.len(),
                self.wf(),
                forall|j: int| 0 <= j < k ==> self.nodes@[j] != node,
            decreases self.nodes@.len() - k,
        {
            if self.nodes[k] == node {
                assert(self.nodes@[k as int] == node);
                assert(self.nodes@.contains(node));
                let ghost at = self.nodes@.index_of(node);
                assert(self.nodes@[at] == node && 0 <= at < self.nodes@.len());
                assert(at == k);
                return Some(k);
            }
            k = k + 1;
        }
        None
    }

    /// Name a node, unless it has a name.
    pub fn note(&mut self, node: u32)
        requires
            old(self).wf(),
        ensures
            final(self).wf(),
            final(self).nodes@ == named(old(self).nodes@, node),
    {
        if self.find(node).is_none() {
            self.nodes.push(node);
        }
    }

    /// Name the nodes a buffer asks about, row by row.
    pub fn note_rows(&mut self, buffer: &Buffer)
        requires
            old(self).wf(),
        ensures
            final(self).wf(),
            final(self).nodes@ == named_rows(
                old(self).nodes@,
                buffer.targets@,
                buffer.targets@.len(),
            ),
    {
        let mut row: usize = 0;
        while row < buffer.targets.len()
            invariant
                row <= buffer.targets@.len(),
                self.wf(),
                self.nodes@ == named_rows(old(self).nodes@, buffer.targets@, row as nat),
            decreases buffer.targets@.len() - row,
        {
            match buffer.targets[row] {
                Target::Node(node) => self.note(node),
                Target::Root(_) => {},
            }
            row = row + 1;
        }
    }

    /// Append a node's name.
    pub fn push_label(&self, out: &mut String, node: u32)
        requires
            self.wf(),
        ensures
            final(out)@ == old(out)@ + label_of(self.nodes@, node),
    {
        let ghost before = out@;
        if node == ROOT {
            out.append("r");
            return;
        }
        match self.find(node) {
            Some(k) => {
                let size: usize = self.nodes.len();
                assert(k < size);
                out.append("n");
                push_decimal(out, (k + 1) as u64);
            },
            None => {
                out.append("?");
                push_decimal(out, node as u64);
            },
        }
        assert(out@ =~= before + label_of(self.nodes@, node));
    }
}

/// A name stays with its node.
pub proof fn lemma_names_stay(nodes: Seq<u32>, targets: Seq<Target>, n: nat, node: u32)
    requires
        nodes.no_duplicates(),
        nodes.contains(node),
        n <= targets.len(),
    ensures
        label_of(named_rows(nodes, targets, n), node) == label_of(nodes, node),
{
    lemma_names_grow(nodes, targets, n);
    let after = named_rows(nodes, targets, n);
    let at = nodes.index_of(node);
    assert(nodes[at] == node && 0 <= at < nodes.len());
    assert(after[at] == node);
    let now = after.index_of(node);
    assert(after[now] == node && 0 <= now < after.len());
}

/// Naming only ever adds names.
proof fn lemma_names_grow(nodes: Seq<u32>, targets: Seq<Target>, n: nat)
    requires
        nodes.no_duplicates(),
        n <= targets.len(),
    ensures
        named_rows(nodes, targets, n).no_duplicates(),
        nodes.is_prefix_of(named_rows(nodes, targets, n)),
    decreases n,
{
    if n > 0 {
        lemma_names_grow(nodes, targets, (n - 1) as nat);
    }
}

// --------------------------------------------------------------------------------- outcomes

/// What became of a descent, in words: the node it queued, the node it rides on, the depth of
/// the terminal it reached, or that the node stack was full.
pub open spec fn outcome_text(nodes: Seq<u32>, game: nat, depth: nat, r: Descent) -> Seq<char> {
    match r {
        Descent::Entry { node, fresh } => if fresh {
            "        queued node "@ + label_of(nodes, node) + " for eval\n"@
        } else {
            "        node "@ + label_of(nodes, node) + " already in buffer\n"@
        },
        Descent::NoEntry => "    game "@ + decimal(game) + ": terminal at depth "@ + decimal(depth)
            + " (backed up on the spot)\n"@,
        Descent::Exhausted => "    game "@ + decimal(game) + ": EXHAUSTED (node stack full)\n"@,
    }
}

/// Append what became of a descent.
pub fn push_outcome(out: &mut String, names: &Names, game: u16, depth: u8, r: Descent)
    requires
        names.wf(),
    ensures
        final(out)@ == old(out)@ + outcome_text(names.nodes@, game as nat, depth as nat, r),
{
    let ghost before = out@;
    match r {
        Descent::Entry { node, fresh } => {
            if fresh {
                out.append("        queued node ");
                names.push_label(out, node);
                out.append(" for eval\n");
            } else {
                out.append("        node ");
                names.push_label(out, node);
                out.append(" already in buffer\n");
            }
        },
        Descent::NoEntry => {
            out.append("    game ");
            push_decimal(out, game as u64);
            out.append(": terminal at depth ");
            push_decimal(out, depth as u64);
            out.append(" (backed up on the spot)\n");
        },
        Descent::Exhausted => {
            out.append("    game ");
            push_decimal(out, game as u64);
            out.append(": EXHAUSTED (node stack full)\n");
        },
    }
    assert(out@ =~= before + outcome_text(names.nodes@, game as nat, depth as nat, r));
}

/// Has every game done so many simulations?
pub fn all_simulated<S, P>(slots: &Vec<Slot<S, P>>, sims: u32) -> (r: bool)
    ensures
        r <==> forall|i: int| 0 <= i < slots@.len() ==> (#[trigger] slots@[i]).sim_count >= sims,
{
    let mut i: usize = 0;
    while i < slots.len()
        invariant
            i <= slots@.len(),
            forall|j: int| 0 <= j < i ==> (#[trigger] slots@[j]).sim_count >= sims,
        decreases slots@.len() - i,
    {
        if slots[i].sim_count < sims {
            assert(slots@[i as int].sim_count < sims);
            return false;
        }
        i = i + 1;
    }
    true
}

// --------------------------------------------------------------------------------- children

/// Is there a node for where the moves `x` and `y` lead, both of the given masks?
pub open spec fn child_among<S>(
    root: Root<S>,
    a: Arena<S>,
    first: Seq<u64>,
    second: Seq<u64>,
    x: int,
    y: int,
) -> bool {
    &&& holds(first, x)
    &&& holds(second, y)
    &&& a.has(hash_step(root.key, squares_of(root.game.cells@), x, y))
}

/// How many of a move's answers below `n` lead to a node.
pub open spec fn answers_among<S>(
    root: Root<S>,
    a: Arena<S>,
    first: Seq<u64>,
    second: Seq<u64>,
    x: int,
    n: nat,
) -> int {
    sum_to(|y: int| unit(child_among(root, a, first, second, x, y)), n)
}

/// How many joint moves, with player 0's below `n`, lead to a node.
pub open spec fn children_below<S>(
    root: Root<S>,
    a: Arena<S>,
    first: Seq<u64>,
    second: Seq<u64>,
    n: nat,
) -> int {
    sum_to(|x: int| answers_among(root, a, first, second, x, SQUARES as nat), n)
}

/// How many joint children of a root there are in the arena, by moves of the two masks. With
/// the players' legal moves that is all of them; with the moves they have tried, how far the
/// root has branched. Nodes that wait for their evaluation count too.
pub fn children_among<S>(
    root: &Root<S>,
    arena: &Arena<S>,
    first: [u64; LEGAL_WORDS],
    second: [u64; LEGAL_WORDS],
) -> (count: usize)
    requires
        root_ok(*root),
        arena.wf(),
    ensures
        count == children_below(*root, *arena, first@, second@, SQUARES as nat),
        count <= 6400,
{
    let squares: [i8; SQUARES] = root.game.squares();
    let mut count: usize = 0;
    let mut x: usize = 0;
    while x < SQUARES
        invariant
            x <= SQUARES,
            root_ok(*root),
            arena.wf(),
            squares@ == squares_of(root.game.cells@),
            count == children_below(*root, *arena, first@, second@, x as nat),
            count <= 80 * x,
        decreases SQUARES - x,
    {
        let ghost before = count;
        let mut y: usize = 0;
        while y < SQUARES
            invariant
                x < SQUARES,
                y <= SQUARES,
                root_ok(*root),
                arena.wf(),
                squares@ == squares_of(root.game.cells@),
                before <= 80 * x,
                count <= before + y,
                count == before + answers_among(*root, *arena, first@, second@, x as int, y as nat),
            decreases SQUARES - y,
        {
            if test_bit(first, x) && test_bit(second, y) {
                let key: u64 = zobrist::step(root.key, &squares, x, y);
                if arena.get(key).is_some() {
                    count = count + 1;
                }
            }
            y = y + 1;
        }
        x = x + 1;
    }
    count
}

} // verus!
