//! Node stack: a flat array with a free list, plus an index from Zobrist key to node slot.
//!
//! Generic over the statistic block, so every search rule shares the storage. Nodes are
//! allocated on demand up to the capacity. Callers hold node slots, which never move.
use vstd::prelude::*;

use crate::game::Game;
use crate::mcts::config::{Config, K, OVERFLOWED, PENDING};
use crate::mcts::index::{lemma_finite, Index, EMPTY};

verus! {

/// Slots are `u32`s, one of which stands for none, and the index has up to four positions for
/// each.
pub open spec fn fits(capacity: usize) -> bool {
    capacity < EMPTY && 4 * capacity <= usize::MAX
}

/// What recording a game on a node did.
#[derive(Clone, Copy, Debug, PartialEq, Eq, Structural)]
pub enum IdWrite {
    /// The id was listed already.
    Present,
    /// There was room.
    Appended,
    /// The list was full, and this id made way.
    Displaced(u16),
}

/// Is the pending bit set?
pub open spec fn pending(flags: u8) -> bool {
    flags & PENDING != 0
}

/// A node owns the position it stands for.
///
/// A child is built by cloning its parent's game and stepping it, which is the only time the
/// engine is touched: descending through nodes that already exist moves by Zobrist key alone.
/// Holding the game also means terminality and the result are read off it rather than stored
/// beside it, so they cannot drift.
#[derive(Debug)]
pub struct Node<S> {
    pub key: u64,
    pub game: Game,
    pub flags: u8,
    /// Game ids that have used this node, oldest-overwritten once full.
    pub ids: [u16; K],
    pub id_count: u8,
    pub id_cursor: u8,
    /// Sweeps this node has survived.
    pub sweep_age: u32,
    pub stats: S,
}

impl<S> Node<S> {
    /// The ids listed, without repetitions.
    pub open spec fn listed(&self) -> Seq<u16> {
        self.ids@.take(self.id_count as int)
    }

    pub open spec fn wf(&self) -> bool {
        &&& self.id_count <= K
        &&& self.id_cursor < K
        &&& self.listed().no_duplicates()
    }

    /// Everything but the id list, the overflow flag and the statistics is the same.
    pub open spec fn same_position(&self, other: &Node<S>) -> bool {
        &&& self.key == other.key
        &&& self.game == other.game
        &&& pending(self.flags) == pending(other.flags)
        &&& self.sweep_age == other.sweep_age
    }

    /// Evaluation requested but not yet returned.
    pub fn is_pending(&self) -> (r: bool)
        ensures
            r == pending(self.flags),
    {
        self.flags & PENDING != 0
    }

    pub fn is_terminal(&self) -> (r: bool)
        ensures
            r == self.game.finished,
    {
        self.game.finished
    }

    /// Win, draw or loss per player, as 1, 0 or -1. Only meaningful when
    /// [`Self::is_terminal`].
    pub fn terminal_values(&self) -> (v: [i8; 2])
        ensures
            v@ == crate::game::outcome(self.game.scores@),
    {
        self.game.terminal_values()
    }

    pub fn ids(&self) -> (r: &[u16])
        requires
            self.wf(),
        ensures
            r@ == self.listed(),
    {
        let r = vstd::slice::slice_subrange(&self.ids, 0, self.id_count as usize);
        assert(r@ =~= self.listed());
        r
    }

    /// Where `id` is listed.
    fn find(&self, id: u16) -> (r: Option<usize>)
        requires
            self.wf(),
        ensures
            r is None <==> !self.listed().contains(id),
            r matches Some(at) ==> at < self.id_count && self.ids@[at as int] == id,
    {
        let mut at: usize = 0;
        while at < self.id_count as usize
            invariant
                at <= self.id_count <= K,
                forall|j: int| 0 <= j < at ==> self.ids@[j] != id,
            decreases self.id_count - at,
        {
            if self.ids[at] == id {
                assert(self.listed()[at as int] == id);
                return Some(at);
            }
            at = at + 1;
        }
        None
    }

    /// Record that game `id` has used the node. Once the list is full, the new id displaces
    /// the oldest one, round-robin.
    fn touch(&mut self, id: u16) -> (r: IdWrite)
        requires
            old(self).wf(),
        ensures
            final(self).wf(),
            final(self).same_position(old(self)),
            final(self).stats == old(self).stats,
            r == touch_result(*old(self), id),
            final(self).listed() == touch_list(*old(self), id),
            final(self).flags == touch_flags(*old(self), id),
            final(self).id_cursor == touch_cursor(*old(self), id),
    {
        if self.find(id).is_some() {
            return IdWrite::Present;
        }
        let ghost before = self.listed();
        if (self.id_count as usize) < K {
            self.ids[self.id_count as usize] = id;
            self.id_count = self.id_count + 1;
            proof {
                assert(self.listed() =~= before.push(id));
                lemma_push_distinct(before, id);
            }
            IdWrite::Appended
        } else {
            let at: usize = self.id_cursor as usize;
            let gone: u16 = self.ids[at];
            self.ids[at] = id;
            self.id_cursor = ((at + 1) % K) as u8;
            self.flags = self.flags | OVERFLOWED;
            proof {
                let f = old(self).flags;
                assert((f | 2) & 1 == f & 1) by (bit_vector);
                assert(self.listed() =~= before.update(at as int, id));
                lemma_update_distinct(before, at as int, id);
            }
            IdWrite::Displaced(gone)
        }
    }

    /// Drop `id`, moving the last one into its place. Returns whether it was listed.
    fn drop_id(&mut self, id: u16) -> (r: bool)
        requires
            old(self).wf(),
        ensures
            final(self).wf(),
            final(self).same_position(old(self)),
            final(self).flags == old(self).flags,
            final(self).stats == old(self).stats,
            r == old(self).listed().contains(id),
            r ==> final(self).listed() == swap_removed(
                old(self).listed(),
                old(self).listed().index_of(id),
            ),
            r ==> final(self).id_cursor == kept_cursor(
                old(self).id_cursor,
                old(self).listed().len() - 1,
            ),
            !r ==> *final(self) == *old(self),
    {
        match self.find(id) {
            None => false,
            Some(at) => {
                let ghost before = self.listed();
                let last: usize = (self.id_count - 1) as usize;
                self.ids[at] = self.ids[last];
                self.id_count = self.id_count - 1;
                if self.id_cursor >= self.id_count {
                    self.id_cursor = 0;
                }
                proof {
                    assert(before[at as int] == id);
                    let w = before.index_of(id);
                    assert(before.contains(id));
                    assert(before[w] == id);
                    assert(w == at);
                    assert(self.listed() =~= swap_removed(before, at as int));
                    lemma_swap_removed(before, at as int);
                }
                true
            },
        }
    }
}

/// What recording `id` on a node does.
pub open spec fn touch_result<S>(n: Node<S>, id: u16) -> IdWrite {
    if n.listed().contains(id) {
        IdWrite::Present
    } else if n.id_count < K {
        IdWrite::Appended
    } else {
        IdWrite::Displaced(n.ids@[n.id_cursor as int])
    }
}

/// Where the next id to be displaced stands after recording `id`: one further round where one
/// was displaced, and else where it stood. Ids are appended from the front, so the first round
/// displaces them in the order they came.
pub open spec fn touch_cursor<S>(n: Node<S>, id: u16) -> u8 {
    if touch_result(n, id) is Displaced {
        ((n.id_cursor + 1) % 64) as u8
    } else {
        n.id_cursor
    }
}

/// The flags after recording `id`: a displaced claim is marked.
pub open spec fn touch_flags<S>(n: Node<S>, id: u16) -> u8 {
    if touch_result(n, id) is Displaced {
        n.flags | OVERFLOWED
    } else {
        n.flags
    }
}

/// The id list after recording `id`: unchanged where it is listed, appended to where there is
/// room, and with the oldest replaced where there is none.
pub open spec fn touch_list<S>(n: Node<S>, id: u16) -> Seq<u16> {
    if n.listed().contains(id) {
        n.listed()
    } else if n.id_count < K {
        n.listed().push(id)
    } else {
        n.listed().update(n.id_cursor as int, id)
    }
}

/// Where the next id to be displaced stands once a list is down to `len` ids: where it stood,
/// or at the front once that is past the list.
pub open spec fn kept_cursor(cursor: u8, len: int) -> u8 {
    if cursor >= len {
        0
    } else {
        cursor
    }
}

/// A list with the entry at `at` replaced by the last one, which is dropped.
pub open spec fn swap_removed(list: Seq<u16>, at: int) -> Seq<u16> {
    list.update(at, list.last()).drop_last()
}

proof fn lemma_push_distinct(list: Seq<u16>, id: u16)
    requires
        list.no_duplicates(),
        !list.contains(id),
    ensures
        list.push(id).no_duplicates(),
{
    let l2 = list.push(id);
    assert forall|a: int, b: int| 0 <= a < l2.len() && 0 <= b < l2.len() && a != b implies l2[a]
        != l2[b] by {
        if a < list.len() {
            assert(list.contains(list[a]));
        }
        if b < list.len() {
            assert(list.contains(list[b]));
        }
    }
}

proof fn lemma_update_distinct(list: Seq<u16>, at: int, id: u16)
    requires
        list.no_duplicates(),
        !list.contains(id),
        0 <= at < list.len(),
    ensures
        list.update(at, id).no_duplicates(),
{
    let l2 = list.update(at, id);
    assert forall|a: int, b: int| 0 <= a < l2.len() && 0 <= b < l2.len() && a != b implies l2[a]
        != l2[b] by {
        assert(list.contains(list[a]));
        assert(list.contains(list[b]));
    }
}

/// Swapping the last entry in drops exactly one id.
pub proof fn lemma_swap_removed(list: Seq<u16>, at: int)
    requires
        list.no_duplicates(),
        0 <= at < list.len(),
    ensures
        swap_removed(list, at).no_duplicates(),
        swap_removed(list, at).len() == list.len() - 1,
        forall|x: u16| #[trigger]
            swap_removed(list, at).contains(x) <==> list.contains(x) && x != list[at],
{
    let l2 = swap_removed(list, at);
    assert forall|x: u16| #[trigger] l2.contains(x) <==> list.contains(x) && x != list[at] by {
        if l2.contains(x) {
            let j = l2.index_of(x);
            if j == at {
                assert(list[list.len() - 1] == x);
            } else {
                assert(list[j] == x);
            }
        }
        if list.contains(x) && x != list[at] {
            let j = list.index_of(x);
            assert(list[j] == x);
            if j == list.len() - 1 {
                assert(l2[at] == x);
            } else {
                assert(l2[j] == x);
            }
        }
    }
}

pub struct Arena<S> {
    pub nodes: Vec<Node<S>>,
    pub free: Vec<u32>,
    pub index: Index,
    pub capacity: usize,
    pub live: usize,
    /// Times a full id list dropped a claim.
    pub overflows: u64,
}

impl<S> Arena<S> {
    /// Does slot `i` hold a node?
    pub open spec fn is_live(&self, i: int) -> bool {
        0 <= i < self.nodes@.len() && !self.free@.contains(i as u32)
    }

    pub open spec fn wf(&self) -> bool {
        &&& self.nodes@.len() <= self.capacity
        &&& fits(self.capacity)
        &&& self.index.wf()
        &&& self.index.entries@.len() >= 2 * self.capacity
        &&& self.index.entries@.len() >= 2
        &&& self.free@.no_duplicates()
        &&& forall|j: int| 0 <= j < self.free@.len() ==> (#[trigger] self.free@[j]) < self.nodes@.len()
        &&& self.live == self.nodes@.len() - self.free@.len()
        &&& self.index@.len() == self.live
        &&& forall|i: int| #[trigger]
            self.is_live(i) ==> self.index@.contains_key(self.nodes@[i].key)
                && self.index@[self.nodes@[i].key] == i
        &&& forall|k: u64| #[trigger]
            self.index@.contains_key(k) ==> self.is_live(self.index@[k] as int)
                && self.nodes@[self.index@[k] as int].key == k
        &&& forall|i: int| 0 <= i < self.nodes@.len() ==> (#[trigger] self.nodes@[i]).wf()
        &&& forall|i: int|
            0 <= i < self.nodes@.len() && !self.is_live(i) ==> (#[trigger] self.nodes@[i]).id_count
                == 0
    }

    /// The slot the next new node takes: the one freed last, or else a new one.
    pub open spec fn next_slot(&self) -> int {
        if self.free@.len() > 0 {
            self.free@.last() as int
        } else {
            self.nodes@.len() as int
        }
    }

    /// Is there a node for `key`?
    pub open spec fn has(&self, key: u64) -> bool {
        self.index@.contains_key(key)
    }

    /// No node has this key.
    pub open spec fn lacks(&self, key: u64) -> bool {
        forall|i: int| #[trigger] self.is_live(i) ==> self.nodes@[i].key != key
    }

    /// An empty stack.
    pub fn new(cfg: &Config) -> (a: Self)
        requires
            fits(cfg.node_capacity),
        ensures
            a.wf(),
            a.nodes@.len() == 0,
            a.capacity == cfg.node_capacity,
            a.overflows == 0,
            forall|k: u64| !#[trigger] a.has(k),
    {
        Arena {
            nodes: Vec::new(),
            free: Vec::new(),
            index: Index::new(cfg.node_capacity),
            capacity: cfg.node_capacity,
            live: 0,
            overflows: 0,
        }
    }

    pub fn len(&self) -> (n: usize)
        ensures
            n == self.live,
    {
        self.live
    }

    pub fn is_empty(&self) -> (r: bool)
        ensures
            r == (self.live == 0),
    {
        self.live == 0
    }

    pub fn capacity(&self) -> (n: usize)
        ensures
            n == self.capacity,
    {
        self.capacity
    }

    pub fn free_depth(&self) -> (n: usize)
        ensures
            n == self.free@.len(),
    {
        self.free.len()
    }

    /// Slots ever allocated, live or free: the range the sweep walks.
    pub fn slot_count(&self) -> (n: usize)
        ensures
            n == self.nodes@.len(),
    {
        self.nodes.len()
    }

    pub fn node(&self, i: u32) -> (n: &Node<S>)
        requires
            i < self.nodes@.len(),
        ensures
            *n == self.nodes@[i as int],
    {
        &self.nodes[i as usize]
    }

    pub fn node_mut(&mut self, i: u32) -> (n: &mut Node<S>)
        requires
            i < old(self).nodes@.len(),
        ensures
            *n == old(self).nodes@[i as int],
            final(self).nodes@ == old(self).nodes@.update(i as int, *final(n)),
            *final(self) == (Arena { nodes: final(self).nodes, ..*old(self) }),
    {
        &mut self.nodes[i as usize]
    }

    /// The slot holding `key`, or `None`.
    pub fn get(&self, key: u64) -> (r: Option<u32>)
        requires
            self.wf(),
        ensures
            r is Some <==> self.has(key),
            r matches Some(i) ==> self.is_live(i as int) && self.nodes@[i as int].key == key,
            r is None ==> self.lacks(key),
    {
        self.index.get(key)
    }

    /// Drop a node: take it out of the index and return the slot to the free list. A free
    /// slot is left alone.
    pub fn remove(&mut self, i: u32)
        requires
            old(self).wf(),
            i < old(self).nodes@.len(),
        ensures
            final(self).wf(),
            !old(self).is_live(i as int) ==> *final(self) == *old(self),
            old(self).is_live(i as int) ==> {
                &&& final(self).free@ == old(self).free@.push(i)
                &&& final(self).live == old(self).live - 1
                &&& final(self).index@ == old(self).index@.remove(old(self).nodes@[i as int].key)
            },
            final(self).nodes@.len() == old(self).nodes@.len(),
            forall|j: int|
                0 <= j < old(self).nodes@.len() && j != i ==> #[trigger] final(self).nodes@[j]
                    == old(self).nodes@[j],
            forall|j: int| #[trigger]
                final(self).is_live(j) <==> old(self).is_live(j) && j != i,
            final(self).capacity == old(self).capacity,
            final(self).overflows == old(self).overflows,
    {
        let key: u64 = self.nodes[i as usize].key;
        if !self.index.remove(key, i) {
            return ;  // not indexed; nothing to do
        }
        let ghost before = *old(self);
        proof {
            assert(before.index@.contains_key(key));
            assert(before.is_live(i as int));
            lemma_finite(before.index.entries@);
        }
        self.nodes[i as usize].id_count = 0;
        self.nodes[i as usize].key = 0;
        self.free.push(i);
        self.live = self.live - 1;
        proof {
            assert(self.free@[before.free@.len() as int] == i);
            assert forall|j: int| #[trigger] self.is_live(j) <==> before.is_live(j) && j != i by {
                if before.free@.contains(j as u32) {
                    let h = before.free@.index_of(j as u32);
                    assert(self.free@[h] == j as u32);
                }
                if self.free@.contains(j as u32) {
                    let h = self.free@.index_of(j as u32);
                    if h < before.free@.len() {
                        assert(before.free@[h] == j as u32);
                    }
                }
            }
            lemma_free_list(before.free@, before.nodes@.len(), i);
            assert(self.nodes@[i as int].listed() =~= Seq::<u16>::empty());
            assert forall|k: u64| #[trigger] self.index@.contains_key(k) implies self.is_live(
                self.index@[k] as int,
            ) && self.nodes@[self.index@[k] as int].key == k by {
                assert(before.index@.contains_key(k));
                assert(before.is_live(before.index@[k] as int));
            }
            assert forall|j: int| #[trigger] self.is_live(j) implies self.index@.contains_key(
                self.nodes@[j].key,
            ) && self.index@[self.nodes@[j].key] == j by {
                assert(before.is_live(j));
            }
            assert forall|j: int|
                0 <= j < self.nodes@.len() && !self.is_live(j) implies (
            #[trigger] self.nodes@[j]).id_count == 0 by {
                if j != i {
                    assert(!before.is_live(j));
                    assert(before.nodes@[j].id_count == 0);
                }
            }
            assert forall|j: int| 0 <= j < self.nodes@.len() implies (
            #[trigger] self.nodes@[j]).wf() by {
                if j != i {
                    assert(before.nodes@[j].wf());
                }
            }
        }
    }

    /// Record that game `id` has used node `i`. Once the list is full, the new id displaces
    /// the oldest one, round-robin.
    pub fn touch(&mut self, i: u32, id: u16) -> (r: IdWrite)
        requires
            old(self).wf(),
            old(self).is_live(i as int),
        ensures
            final(self).wf(),
            r == touch_result(old(self).nodes@[i as int], id),
            final(self).nodes@[i as int].listed() == touch_list(old(self).nodes@[i as int], id),
            final(self).nodes@[i as int].same_position(&old(self).nodes@[i as int]),
            final(self).nodes@[i as int].stats == old(self).nodes@[i as int].stats,
            final(self).nodes@[i as int].id_cursor == touch_cursor(
                old(self).nodes@[i as int],
                id,
            ),
            final(self).nodes@[i as int].flags == touch_flags(old(self).nodes@[i as int], id),
            final(self).overflows == (if r is Displaced {
                old(self).overflows.wrapping_add(1)
            } else {
                old(self).overflows
            }),
            only_node_changed(*old(self), *final(self), i as int),
            final(self).nodes@[i as int].listed().contains(id),
    {
        let ghost before = *self;
        let ghost node = self.nodes@[i as int];
        let r = self.nodes[i as usize].touch(id);
        if let IdWrite::Displaced(_) = r {
            self.overflows = self.overflows.wrapping_add(1);
        }
        proof {
            lemma_node_changed(before, *self, i as int);
            lemma_touch_lists(node, id);
        }
        r
    }

    /// Drop `id` from node `i`, moving the last one into its place. Returns whether it was
    /// listed.
    ///
    /// Deliberately not "the node is now unused": that question is [`Self::is_unused`], and
    /// conflating the two makes dropping an absent id look like it emptied the node.
    pub fn drop_id(&mut self, i: u32, id: u16) -> (r: bool)
        requires
            old(self).wf(),
            i < old(self).nodes@.len(),
        ensures
            final(self).wf(),
            r == old(self).nodes@[i as int].listed().contains(id),
            r ==> final(self).nodes@[i as int].listed() == swap_removed(
                old(self).nodes@[i as int].listed(),
                old(self).nodes@[i as int].listed().index_of(id),
            ),
            r ==> final(self).nodes@[i as int].id_cursor == kept_cursor(
                old(self).nodes@[i as int].id_cursor,
                old(self).nodes@[i as int].listed().len() - 1,
            ),
            !r ==> final(self).nodes@[i as int] == old(self).nodes@[i as int],
            final(self).nodes@[i as int].same_position(&old(self).nodes@[i as int]),
            final(self).nodes@[i as int].flags == old(self).nodes@[i as int].flags,
            final(self).nodes@[i as int].stats == old(self).nodes@[i as int].stats,
            final(self).overflows == old(self).overflows,
            only_node_changed(*old(self), *final(self), i as int),
    {
        let ghost before = *self;
        let r = self.nodes[i as usize].drop_id(id);
        proof {
            let list = before.nodes@[i as int].listed();
            if r {
                assert(list.contains(id));
                lemma_swap_removed(list, list.index_of(id));
                assert(self.nodes@[i as int].id_count == self.nodes@[i as int].listed().len());
                assert(before.nodes@[i as int].id_count == list.len());
            }
            lemma_node_changed(before, *self, i as int);
        }
        r
    }

    /// No game references this node, so the sweep may delete it.
    pub fn is_unused(&self, i: u32) -> (r: bool)
        requires
            i < self.nodes@.len(),
        ensures
            r == (self.nodes@[i as int].id_count == 0),
    {
        self.nodes[i as usize].id_count == 0
    }

    /// Every slot whose node some game uses, in order, for the sweep.
    pub fn live_slots(&self) -> (r: Vec<u32>)
        requires
            self.wf(),
        ensures
            r@ == used_slots(self.nodes@, self.nodes@.len()),
    {
        let mut r: Vec<u32> = Vec::new();
        let mut i: usize = 0;
        while i < self.nodes.len()
            invariant
                i <= self.nodes@.len() < EMPTY,
                r@ == used_slots(self.nodes@, i as nat),
            decreases self.nodes@.len() - i,
        {
            if self.nodes[i].id_count > 0 {
                r.push(i as u32);
            }
            i = i + 1;
        }
        r
    }

    /// Drop every node. Used on a network update.
    pub fn clear(&mut self)
        requires
            old(self).wf(),
        ensures
            final(self).wf(),
            final(self).nodes@.len() == 0,
            final(self).live == 0,
            final(self).capacity == old(self).capacity,
            final(self).overflows == old(self).overflows,
            forall|k: u64| !#[trigger] final(self).has(k),
    {
        self.nodes.clear();
        self.free.clear();
        self.index.clear();
        self.live = 0;
    }
}

/// The slots below `n` whose node some game uses.
pub open spec fn used_slots<S>(nodes: Seq<Node<S>>, n: nat) -> Seq<u32>
    decreases n,
{
    if n == 0 {
        seq![]
    } else {
        let rest = used_slots(nodes, (n - 1) as nat);
        if nodes[n - 1].id_count > 0 {
            rest.push((n - 1) as u32)
        } else {
            rest
        }
    }
}

/// The slots of `before` with one more taken: the one freed last, or else a new one.
pub open spec fn slot_taken<S>(before: Arena<S>, after: Arena<S>) -> bool {
    if before.free@.len() > 0 {
        after.free@ == before.free@.drop_last() && after.nodes@.len() == before.nodes@.len()
    } else {
        after.free@ == before.free@ && after.nodes@.len() == before.nodes@.len() + 1
    }
}

/// Only the contents of node `i` have changed.
pub open spec fn only_node_changed<S>(before: Arena<S>, after: Arena<S>, i: int) -> bool {
    &&& after.nodes@.len() == before.nodes@.len()
    &&& after.free == before.free
    &&& after.index == before.index
    &&& after.capacity == before.capacity
    &&& after.live == before.live
    &&& forall|j: int|
        0 <= j < before.nodes@.len() && j != i ==> #[trigger] after.nodes@[j] == before.nodes@[j]
}

/// Changing the contents of a node, but not its key, keeps the arena in order.
pub proof fn lemma_node_changed<S>(before: Arena<S>, after: Arena<S>, i: int)
    requires
        before.wf(),
        only_node_changed(before, after, i),
        0 <= i < before.nodes@.len(),
        after.nodes@[i].wf(),
        after.nodes@[i].key == before.nodes@[i].key,
        before.is_live(i) || after.nodes@[i].id_count == 0,
    ensures
        after.wf(),
        forall|j: int| #[trigger] after.is_live(j) <==> before.is_live(j),
{
    assert forall|j: int| #[trigger] after.is_live(j) implies after.index@.contains_key(
        after.nodes@[j].key,
    ) && after.index@[after.nodes@[j].key] == j by {
        assert(before.is_live(j));
    }
    assert forall|k: u64| #[trigger] after.index@.contains_key(k) implies after.is_live(
        after.index@[k] as int,
    ) && after.nodes@[after.index@[k] as int].key == k by {
        assert(before.index@.contains_key(k));
        assert(before.is_live(before.index@[k] as int));
    }
    assert forall|j: int| 0 <= j < after.nodes@.len() implies (#[trigger] after.nodes@[j]).wf() by {
        if j != i {
            assert(before.nodes@[j].wf());
        }
    }
    assert forall|j: int| 0 <= j < after.nodes@.len() && !after.is_live(j) implies (
    #[trigger] after.nodes@[j]).id_count == 0 by {
        assert(!before.is_live(j));
        if j != i {
            assert(before.nodes@[j].id_count == 0);
        }
    }
}

pub(crate) proof fn lemma_touch_lists<S>(n: Node<S>, id: u16)
    requires
        n.wf(),
    ensures
        touch_list(n, id).contains(id),
{
    let l = touch_list(n, id);
    if n.listed().contains(id) {
    } else if n.id_count < K {
        assert(l[n.listed().len() as int] == id);
    } else {
        assert(l[n.id_cursor as int] == id);
    }
}

/// A free list that gains a slot it did not hold.
proof fn lemma_free_list(free: Seq<u32>, n: nat, i: u32)
    requires
        free.no_duplicates(),
        forall|j: int| 0 <= j < free.len() ==> (#[trigger] free[j]) < n,
        !free.contains(i),
        i < n,
    ensures
        free.push(i).no_duplicates(),
        forall|j: int| 0 <= j < free.push(i).len() ==> (#[trigger] free.push(i)[j]) < n,
{
    let f2 = free.push(i);
    assert forall|a: int, b: int| 0 <= a < f2.len() && 0 <= b < f2.len() && a != b implies f2[a]
        != f2[b] by {
        if a < free.len() {
            assert(free.contains(free[a]));
        }
        if b < free.len() {
            assert(free.contains(free[b]));
        }
    }
    assert forall|j: int| 0 <= j < f2.len() implies (#[trigger] f2[j]) < n by {
        if j < free.len() {
            assert(free[j] < n);
        }
    }
}

/// A default statistic block is needed only to blank a new node's statistics.
impl<S: Default> Arena<S> {
    /// Add a node for `key`, which must be absent, used by game `id`.
    ///
    /// Returns `None` when the stack is full, which the caller has to treat as a search
    /// budget being exhausted rather than an error.
    pub fn insert(&mut self, key: u64, game: Game, flags: u8, id: u16) -> (r: Option<u32>)
        requires
            old(self).wf(),
            !old(self).has(key),
        ensures
            final(self).wf(),
            r is None <==> old(self).live == old(self).capacity,
            r is None ==> *final(self) == *old(self),
            r matches Some(i) ==> {
                let n = final(self).nodes@[i as int];
                &&& !old(self).is_live(i as int)
                &&& i == old(self).next_slot()
                &&& slot_taken(*old(self), *final(self))
                &&& n.key == key
                &&& n.game == game
                &&& n.flags == flags
                &&& n.listed() == seq![id]
                &&& n.id_cursor == 0
                &&& n.sweep_age == 0
                &&& call_ensures(S::default, (), n.stats)
                &&& final(self).live == old(self).live + 1
                &&& final(self).index@ == old(self).index@.insert(key, i)
                &&& forall|j: int| #[trigger]
                    final(self).is_live(j) <==> old(self).is_live(j) || j == i
                &&& forall|j: int|
                    0 <= j < old(self).nodes@.len() && j != i
                        ==> #[trigger] final(self).nodes@[j] == old(self).nodes@[j]
            },
            final(self).capacity == old(self).capacity,
            final(self).overflows == old(self).overflows,
    {
        let ghost before = *self;
        let mut ids: [u16; K] = [0u16; K];
        ids[0] = id;
        let node = Node {
            key,
            game,
            flags,
            ids,
            id_count: 1,
            id_cursor: 0,
            sweep_age: 0,
            stats: S::default(),
        };
        assert(node.listed() =~= seq![id]);
        proof {
            lemma_finite(before.index.entries@);
        }
        let depth: usize = self.free.len();
        let slot: u32 = if depth > 0 {
            let s: u32 = self.free[depth - 1];
            self.free.truncate(depth - 1);
            self.nodes.set(s as usize, node);
            s
        } else {
            if self.nodes.len() >= self.capacity {
                return None;
            }
            let s: usize = self.nodes.len();
            self.nodes.push(node);
            s as u32
        };
        self.index.insert(key, slot);
        self.live = self.live + 1;
        proof {
            let i = slot as int;
            let n0 = before.nodes@.len();
            if before.free@.len() > 0 {
                let last = before.free@.len() - 1;
                assert(before.free@[last] == slot);
                assert(slot < n0);
                assert(self.free@ =~= before.free@.drop_last());
                assert forall|j: int| #[trigger] self.is_live(j) <==> before.is_live(j) || j
                    == i by {
                    if self.free@.contains(j as u32) {
                        let h = self.free@.index_of(j as u32);
                        assert(before.free@[h] == j as u32);
                    }
                    if before.free@.contains(j as u32) {
                        let h = before.free@.index_of(j as u32);
                        assert(before.free@[h] == j as u32);
                        if h < last {
                            assert(self.free@[h] == j as u32);
                        }
                    }
                }
                assert(before.free@.contains(slot));
            } else {
                assert(self.free@ =~= before.free@);
                assert forall|j: int| #[trigger] self.is_live(j) <==> before.is_live(j) || j
                    == i by {}
            }
            assert(!before.is_live(i));
            assert forall|j: int| 0 <= j < n0 && j != i implies #[trigger] self.nodes@[j]
                == before.nodes@[j] by {}
            assert forall|j: int| #[trigger] self.is_live(j) implies self.index@.contains_key(
                self.nodes@[j].key,
            ) && self.index@[self.nodes@[j].key] == j by {
                if j != i {
                    assert(before.is_live(j));
                    assert(before.index@.contains_key(before.nodes@[j].key));
                }
            }
            assert forall|k: u64| #[trigger] self.index@.contains_key(k) implies self.is_live(
                self.index@[k] as int,
            ) && self.nodes@[self.index@[k] as int].key == k by {
                if k != key {
                    assert(before.index@.contains_key(k));
                    assert(before.is_live(before.index@[k] as int));
                }
                assert(self.is_live(i));
            }
            assert forall|j: int| 0 <= j < self.nodes@.len() implies (
            #[trigger] self.nodes@[j]).wf() by {
                if j != i {
                    assert(before.nodes@[j].wf());
                }
            }
            assert forall|j: int| 0 <= j < self.nodes@.len() && !self.is_live(j) implies (
            #[trigger] self.nodes@[j]).id_count == 0 by {
                assert(!before.is_live(j));
                assert(before.nodes@[j].id_count == 0);
            }
        }
        Some(slot)
    }
}

} // verus!
