//! The search rule. Everything else about the search is shared.
//!
//! A variant supplies a statistic block per node and the operations on it: adopt the model's
//! priors, weigh the legal squares of a player one by one, and fold a value back into the
//! edge that was chosen. Which square is chosen follows from the weighing, so a rule cannot
//! choose a square that is not legal.
//!
//! Values are absolute, player 0's and player 1's, never relative to a side to move. That is
//! what makes a node's statistics safe to accumulate across games.
use vstd::prelude::*;

use crate::legal::{count_below, holds, test_bit, LEGAL_WORDS};
use crate::rng::Rng;
use crate::sums::unit;

verus! {

/// A move and the probability it was drawn with, for a rule that needs it in its backup.
#[derive(Clone, Copy, Debug)]
pub struct Choice<P> {
    pub action: u8,
    pub prob: P,
}

/// A search rule.
pub trait Variant {
    /// The statistics of one node.
    type Stats: Clone + Default;

    /// The rule's own tunables.
    type Params;

    /// A probability.
    type Prob: Copy;

    /// What a position is worth to the two players.
    type Value: Copy;

    /// The model's output for one position: priors and values of both players.
    type Reading;

    /// What a root emits for training.
    type Target: Clone;

    /// The state of a walk over one player's legal squares.
    type Scan;

    /// Adopt the model's output for one player.
    fn set_priors(
        stats: Self::Stats,
        reading: &Self::Reading,
        legal: [u64; LEGAL_WORDS],
        player: usize,
    ) -> Self::Stats;

    /// What the model says a position is worth.
    fn value(reading: &Self::Reading) -> Self::Value;

    /// What a finished game is worth: its result per player, as 1, 0 or -1.
    fn terminal(result: [i8; 2]) -> Self::Value;

    /// Begin to select one player's move out of a mask that is not empty.
    fn open(
        stats: &Self::Stats,
        legal: [u64; LEGAL_WORDS],
        player: usize,
        params: &Self::Params,
        rng: Rng,
    ) -> (Self::Scan, Rng);

    /// Weigh one legal square; the squares come in board order. Says whether this square is
    /// to be chosen over any before it.
    ///
    /// Gives the statistics back because a rule may accumulate its average strategy here.
    fn weigh(
        stats: Self::Stats,
        scan: Self::Scan,
        square: usize,
        player: usize,
    ) -> (Self::Stats, Self::Scan, bool);

    /// The probability with which a square was chosen.
    fn prob(scan: &Self::Scan, square: usize) -> Self::Prob;

    /// Fold `value` into the edges named by `choice`.
    ///
    /// `legal_counts` is the node's own legal-move count per player. It is a property of the
    /// position, so it is the same at backup as it was at selection.
    fn backup(
        stats: Self::Stats,
        choice: [Choice<Self::Prob>; 2],
        value: Self::Value,
        legal_counts: [u32; 2],
        params: &Self::Params,
    ) -> Self::Stats;

    /// Turn a statistic block into that of a root, with a root's own noise.
    fn make_root(
        stats: Self::Stats,
        legal: [[u64; LEGAL_WORDS]; 2],
        params: &Self::Params,
        rng: Rng,
    ) -> (Self::Stats, Rng);

    /// The training target of a root.
    fn target(stats: &Self::Stats, legal: [[u64; LEGAL_WORDS]; 2]) -> Self::Target;

    /// Begin to draw one player's move from a target.
    fn open_draw(
        target: &Self::Target,
        legal: [u64; LEGAL_WORDS],
        player: usize,
        rng: Rng,
    ) -> (Self::Scan, Rng);

    /// Weigh one legal square for a draw, as [`Self::weigh`] does for a selection.
    fn weigh_draw(
        target: &Self::Target,
        scan: Self::Scan,
        square: usize,
        player: usize,
    ) -> (Self::Scan, bool);
}

/// The set squares of a mask, low to high, which is board order.
#[derive(Clone, Copy)]
pub struct MaskIter {
    pub words: [u64; LEGAL_WORDS],
    /// The first square not yet given out.
    pub at: usize,
}

impl MaskIter {
    /// The next set square, if there is one.
    pub fn next(&mut self) -> (r: Option<usize>)
        ensures
            final(self).words == old(self).words,
            r matches Some(k) ==> {
                &&& old(self).at <= k < 128
                &&& holds(old(self).words@, k as int)
                &&& forall|j: int| old(self).at <= j < k ==> !#[trigger] holds(old(self).words@, j)
                &&& final(self).at == k + 1
            },
            r is None ==> final(self).at == old(self).at && forall|j: int|
                old(self).at <= j < 128 ==> !#[trigger] holds(old(self).words@, j),
    {
        let mut k: usize = self.at;
        while k < 128
            invariant
                old(self).at <= k,
                *self == *old(self),
                forall|j: int| old(self).at <= j < k ==> !#[trigger] holds(self.words@, j),
            decreases 128 - k,
        {
            if test_bit(self.words, k) {
                self.at = k + 1;
                return Some(k);
            }
            k = k + 1;
        }
        None
    }
}

/// The set squares of a mask.
pub fn squares(legal: [u64; LEGAL_WORDS]) -> (m: MaskIter)
    ensures
        m.words == legal,
        m.at == 0,
{
    MaskIter { words: legal, at: 0 }
}

/// Is `square` the one that the verdicts on a mask's squares come to: the last one chosen over
/// those before it, or the last of all where none was?
pub open spec fn is_pick(legal: Seq<u64>, verdicts: Seq<bool>, square: int) -> bool {
    &&& 0 <= square < 128
    &&& holds(legal, square)
    &&& if exists|k: int| 0 <= k < 128 && #[trigger] verdicts[k] {
        &&& verdicts[square]
        &&& forall|k: int| square < k < 128 ==> !#[trigger] verdicts[k]
    } else {
        forall|k: int| square < k < 128 ==> !#[trigger] holds(legal, k)
    }
}

/// The square a mask and the verdicts on its squares come to. A square off the mask has no
/// favourable verdict.
pub fn pick(legal: [u64; LEGAL_WORDS], verdicts: &Vec<bool>) -> (square: usize)
    requires
        verdicts@.len() == 128,
        forall|k: int| 0 <= k < 128 && #[trigger] verdicts@[k] ==> holds(legal@, k),
        count_below(legal@, 128) > 0,
    ensures
        is_pick(legal@, verdicts@, square as int),
{
    let mut k: usize = 128;
    while k > 0
        invariant
            k <= 128,
            verdicts@.len() == 128,
            forall|j: int| 0 <= j < 128 && #[trigger] verdicts@[j] ==> holds(legal@, j),
            forall|j: int| k <= j < 128 ==> !#[trigger] verdicts@[j],
        decreases k,
    {
        if verdicts[k - 1] {
            assert(verdicts@[k - 1]);
            return k - 1;
        }
        k = k - 1;
    }
    last_of(legal)
}

/// The last set square of a mask that is not empty.
fn last_of(legal: [u64; LEGAL_WORDS]) -> (square: usize)
    requires
        count_below(legal@, 128) > 0,
    ensures
        square < 128,
        holds(legal@, square as int),
        forall|k: int| square < k < 128 ==> !#[trigger] holds(legal@, k),
{
    let mut k: usize = 127;
    while !test_bit(legal, k)
        invariant
            k < 128,
            count_below(legal@, 128) > 0,
            forall|j: int| k < j < 128 ==> !#[trigger] holds(legal@, j),
        decreases k,
    {
        proof {
            if k == 0 {
                lemma_none_below(legal@, 128);
            }
        }
        k = k - 1;
    }
    k
}

/// A mask with no bit set below `n` counts none.
proof fn lemma_none_below(w: Seq<u64>, n: nat)
    requires
        forall|j: int| 0 <= j < n ==> !#[trigger] holds(w, j),
    ensures
        count_below(w, n) == 0,
    decreases n,
{
    if n > 0 {
        let f = |j: int| unit(holds(w, j));
        lemma_none_below(w, (n - 1) as nat);
        assert(!holds(w, n - 1));
        assert(count_below(w, n) == count_below(w, (n - 1) as nat) + f(n - 1));
    }
}

/// A walk over a player's squares to select a move: `states[k]` is what the rule holds before
/// square `k`, and `verdicts[k]` its verdict on it. Squares off the mask are passed over.
pub open spec fn walks<V: Variant>(
    legal: Seq<u64>,
    player: usize,
    states: Seq<(V::Stats, V::Scan)>,
    verdicts: Seq<bool>,
) -> bool {
    &&& states.len() == 129
    &&& verdicts.len() == 128
    &&& forall|k: int| 0 <= k < 128 ==> #[trigger] weighed::<V>(legal, player, states, verdicts, k)
}

/// What a walk does at square `k`.
pub open spec fn weighed<V: Variant>(
    legal: Seq<u64>,
    player: usize,
    states: Seq<(V::Stats, V::Scan)>,
    verdicts: Seq<bool>,
    k: int,
) -> bool {
    if holds(legal, k) {
        call_ensures(
            V::weigh,
            (states[k].0, states[k].1, k as usize, player),
            (states[k + 1].0, states[k + 1].1, verdicts[k]),
        )
    } else {
        states[k + 1] == states[k] && !verdicts[k]
    }
}

/// Selecting one player's move, by a given walk.
pub open spec fn selects_by<V: Variant>(
    before: (V::Stats, Rng),
    legal: [u64; LEGAL_WORDS],
    player: usize,
    params: V::Params,
    after: (V::Stats, Rng),
    c: Choice<V::Prob>,
    states: Seq<(V::Stats, V::Scan)>,
    verdicts: Seq<bool>,
) -> bool {
    &&& walks::<V>(legal@, player, states, verdicts)
    &&& states[0].0 == before.0
    &&& call_ensures(
        V::open,
        (&before.0, legal, player, &params, before.1),
        (states[0].1, after.1),
    )
    &&& states[128].0 == after.0
    &&& is_pick(legal@, verdicts, c.action as int)
    &&& call_ensures(V::prob, (&states[128].1, c.action as usize), c.prob)
}

/// Selecting one player's move: the rule opens a walk, weighs each legal square in board
/// order, and the move is the one its verdicts come to. `before` and `after` are the
/// statistics and the generator.
pub open spec fn selects<V: Variant>(
    before: (V::Stats, Rng),
    legal: [u64; LEGAL_WORDS],
    player: usize,
    params: V::Params,
    after: (V::Stats, Rng),
    c: Choice<V::Prob>,
) -> bool {
    exists|states: Seq<(V::Stats, V::Scan)>, verdicts: Seq<bool>| #[trigger]
        selects_by::<V>(before, legal, player, params, after, c, states, verdicts)
}

/// Select one player's move: have the rule weigh the legal squares in board order, and pick
/// by its verdicts.
fn select_one<V: Variant>(
    stats: &mut V::Stats,
    legal: [u64; LEGAL_WORDS],
    player: usize,
    params: &V::Params,
    rng: &mut Rng,
) -> (c: Choice<V::Prob>)
    requires
        count_below(legal@, 128) > 0,
    ensures
        c.action < 128,
        holds(legal@, c.action as int),
        selects::<V>(
            (*old(stats), *old(rng)),
            legal,
            player,
            *params,
            (*final(stats), *final(rng)),
            c,
        ),
{
    let ghost before = (*stats, *rng);
    let mut held = V::Stats::default();
    std::mem::swap(&mut held, stats);
    let (opened, next) = V::open(&held, legal, player, params, rng.clone());
    *rng = next;
    let mut scan = opened;
    let ghost mut states: Seq<(V::Stats, V::Scan)> = seq![(held, scan)];
    let mut verdicts: Vec<bool> = Vec::new();
    let mut k: usize = 0;
    while k < 128
        invariant
            k <= 128,
            verdicts@.len() == k,
            states.len() == k + 1,
            states[0].0 == before.0,
            call_ensures(V::open, (&before.0, legal, player, params, before.1), (states[0].1, next)),
            states[k as int] == (held, scan),
            forall|j: int|
                0 <= j < k ==> #[trigger] weighed::<V>(legal@, player, states, verdicts@, j),
            forall|j: int| 0 <= j < k && #[trigger] verdicts@[j] ==> holds(legal@, j),
        decreases 128 - k,
    {
        let ghost s0 = states;
        let ghost v0 = verdicts@;
        if test_bit(legal, k) {
            let (new_stats, new_scan, verdict) = V::weigh(held, scan, k, player);
            held = new_stats;
            scan = new_scan;
            verdicts.push(verdict);
        } else {
            verdicts.push(false);
        }
        proof {
            states = states.push((held, scan));
            assert forall|j: int| 0 <= j < k + 1 implies #[trigger] weighed::<V>(
                legal@,
                player,
                states,
                verdicts@,
                j,
            ) by {
                if j < k {
                    assert(weighed::<V>(legal@, player, s0, v0, j));
                }
            }
        }
        k = k + 1;
    }
    let square: usize = pick(legal, &verdicts);
    let c = Choice { action: square as u8, prob: V::prob(&scan, square) };
    *stats = held;
    proof {
        assert(selects_by::<V>(
            before,
            legal,
            player,
            *params,
            (held, next),
            c,
            states,
            verdicts@,
        ));
    }
    c
}

/// Choosing a joint move: player 0's, then player 1's.
pub open spec fn selects_both<V: Variant>(
    before: (V::Stats, Rng),
    legal: [[u64; LEGAL_WORDS]; 2],
    params: V::Params,
    after: (V::Stats, Rng),
    c: [Choice<V::Prob>; 2],
) -> bool {
    exists|mid: (V::Stats, Rng)|
        {
            &&& #[trigger] selects::<V>(before, legal@[0], 0, params, mid, c@[0])
            &&& selects::<V>(mid, legal@[1], 1, params, after, c@[1])
        }
}

/// Choose the joint move: one square per player, out of that player's mask, neither of which
/// may be empty. Each is the one [`pick`] gives for the verdicts of [`Variant::weigh`].
///
/// Joint because the players move simultaneously and the search only ever wants both, which
/// also keeps a caller from pairing one player's mask with the other's index.
pub fn select<V: Variant>(
    stats: &mut V::Stats,
    legal: [[u64; LEGAL_WORDS]; 2],
    params: &V::Params,
    rng: &mut Rng,
) -> (c: [Choice<V::Prob>; 2])
    requires
        count_below(legal@[0]@, 128) > 0,
        count_below(legal@[1]@, 128) > 0,
    ensures
        c@[0].action < 128,
        c@[1].action < 128,
        holds(legal@[0]@, c@[0].action as int),
        holds(legal@[1]@, c@[1].action as int),
        selects_both::<V>(
            (*old(stats), *old(rng)),
            legal,
            *params,
            (*final(stats), *final(rng)),
            c,
        ),
{
    let ghost before = (*stats, *rng);
    let first = select_one::<V>(stats, legal[0], 0, params, rng);
    let ghost mid = (*stats, *rng);
    let second = select_one::<V>(stats, legal[1], 1, params, rng);
    proof {
        assert(selects::<V>(before, legal@[0], 0, *params, mid, first));
    }
    [first, second]
}

/// A walk over a player's squares to draw a move from a target.
pub open spec fn draw_walks<V: Variant>(
    target: V::Target,
    legal: Seq<u64>,
    player: usize,
    scans: Seq<V::Scan>,
    verdicts: Seq<bool>,
) -> bool {
    &&& scans.len() == 129
    &&& verdicts.len() == 128
    &&& forall|k: int|
        0 <= k < 128 ==> #[trigger] draw_weighed::<V>(target, legal, player, scans, verdicts, k)
}

/// What a walk to draw a move does at square `k`.
pub open spec fn draw_weighed<V: Variant>(
    target: V::Target,
    legal: Seq<u64>,
    player: usize,
    scans: Seq<V::Scan>,
    verdicts: Seq<bool>,
    k: int,
) -> bool {
    if holds(legal, k) {
        call_ensures(
            V::weigh_draw,
            (&target, scans[k], k as usize, player),
            (scans[k + 1], verdicts[k]),
        )
    } else {
        scans[k + 1] == scans[k] && !verdicts[k]
    }
}

/// Drawing one player's move from a target, by a given walk.
pub open spec fn draws_by<V: Variant>(
    target: V::Target,
    legal: [u64; LEGAL_WORDS],
    player: usize,
    before: Rng,
    after: Rng,
    square: int,
    scans: Seq<V::Scan>,
    verdicts: Seq<bool>,
) -> bool {
    &&& draw_walks::<V>(target, legal@, player, scans, verdicts)
    &&& call_ensures(V::open_draw, (&target, legal, player, before), (scans[0], after))
    &&& is_pick(legal@, verdicts, square)
}

/// Drawing one player's move from a target: the rule opens a walk, weighs each legal square in
/// board order, and the move is the one its verdicts come to.
pub open spec fn draws<V: Variant>(
    target: V::Target,
    legal: [u64; LEGAL_WORDS],
    player: usize,
    before: Rng,
    after: Rng,
    square: int,
) -> bool {
    exists|scans: Seq<V::Scan>, verdicts: Seq<bool>| #[trigger]
        draws_by::<V>(target, legal, player, before, after, square, scans, verdicts)
}

/// Draw one player's move from a target: the one [`pick`] gives for the verdicts of
/// [`Variant::weigh_draw`].
pub fn draw<V: Variant>(
    target: &V::Target,
    legal: [u64; LEGAL_WORDS],
    player: usize,
    rng: &mut Rng,
) -> (square: usize)
    requires
        count_below(legal@, 128) > 0,
    ensures
        square < 128,
        holds(legal@, square as int),
        draws::<V>(*target, legal, player, *old(rng), *final(rng), square as int),
{
    let ghost before = *rng;
    let (opened, next) = V::open_draw(target, legal, player, rng.clone());
    *rng = next;
    let mut scan = opened;
    let ghost mut scans: Seq<V::Scan> = seq![scan];
    let mut verdicts: Vec<bool> = Vec::new();
    let mut k: usize = 0;
    while k < 128
        invariant
            k <= 128,
            verdicts@.len() == k,
            scans.len() == k + 1,
            call_ensures(V::open_draw, (target, legal, player, before), (scans[0], next)),
            scans[k as int] == scan,
            forall|j: int|
                0 <= j < k ==> #[trigger] draw_weighed::<V>(
                    *target,
                    legal@,
                    player,
                    scans,
                    verdicts@,
                    j,
                ),
            forall|j: int| 0 <= j < k && #[trigger] verdicts@[j] ==> holds(legal@, j),
        decreases 128 - k,
    {
        let ghost s0 = scans;
        let ghost v0 = verdicts@;
        if test_bit(legal, k) {
            let (new_scan, verdict) = V::weigh_draw(target, scan, k, player);
            scan = new_scan;
            verdicts.push(verdict);
        } else {
            verdicts.push(false);
        }
        proof {
            scans = scans.push(scan);
            assert forall|j: int| 0 <= j < k + 1 implies #[trigger] draw_weighed::<V>(
                *target,
                legal@,
                player,
                scans,
                verdicts@,
                j,
            ) by {
                if j < k {
                    assert(draw_weighed::<V>(*target, legal@, player, s0, v0, j));
                }
            }
        }
        k = k + 1;
    }
    let square: usize = pick(legal, &verdicts);
    proof {
        assert(draws_by::<V>(
            *target,
            legal,
            player,
            before,
            next,
            square as int,
            scans,
            verdicts@,
        ));
    }
    square
}

} // verus!
