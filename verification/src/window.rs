//! One game's part of a vector that holds a batch of games.
use vstd::prelude::*;

verus! {

/// The `g`th block of `w` entries.
pub open spec fn block<T>(v: Seq<T>, g: int, w: int) -> Seq<T> {
    v.subrange(g * w, g * w + w)
}

/// A vector with its `g`th block of `w` entries replaced.
pub open spec fn with_block<T>(v: Seq<T>, g: int, w: int, b: Seq<T>) -> Seq<T> {
    v.subrange(0, g * w) + b + v.subrange(g * w + w, v.len() as int)
}

/// A block lies within the vector.
pub proof fn lemma_block_range(g: int, w: int, n: int)
    requires
        0 <= g < n,
        0 <= w,
    ensures
        0 <= g * w,
        g * w + w <= n * w,
{
    assert(0 <= g * w) by (nonlinear_arith)
        requires
            0 <= g,
            0 <= w,
    ;
    assert(g * w + w <= n * w) by (nonlinear_arith)
        requires
            g + 1 <= n,
            0 <= w,
    ;
}

/// Replacing a block leaves the others.
pub proof fn lemma_with_block<T>(v: Seq<T>, n: int, g: int, w: int, b: Seq<T>)
    requires
        0 <= g < n,
        0 < w,
        v.len() == n * w,
        b.len() == w,
    ensures
        with_block(v, g, w, b).len() == v.len(),
        block(with_block(v, g, w, b), g, w) == b,
        forall|h: int|
            0 <= h < n && h != g ==> #[trigger] block(with_block(v, g, w, b), h, w) == block(
                v,
                h,
                w,
            ),
{
    lemma_block_range(g, w, n);
    let u = with_block(v, g, w, b);
    assert(block(u, g, w) =~= b);
    assert forall|h: int| 0 <= h < n && h != g implies #[trigger] block(u, h, w) == block(
        v,
        h,
        w,
    ) by {
        lemma_block_range(h, w, n);
        if h < g {
            assert(h * w + w <= g * w) by (nonlinear_arith)
                requires
                    h + 1 <= g,
                    0 <= w,
            ;
        } else {
            assert(g * w + w <= h * w) by (nonlinear_arith)
                requires
                    g + 1 <= h,
                    0 <= w,
            ;
        }
        assert(block(u, h, w) =~= block(v, h, w));
    }
}

/// The `g`th block of `w` entries, to write to.
pub(crate) fn window<T>(v: &mut Vec<T>, g: usize, w: usize) -> (r: &mut [T])
    requires
        g * w + w <= old(v)@.len(),
    ensures
        r@ == block(old(v)@, g as int, w as int),
        final(v)@ == with_block(old(v)@, g as int, w as int, final(r)@),
{
    assert(0 <= g * w) by (nonlinear_arith);
    let len: usize = v.len();
    assert(g * w <= len);
    let lo: usize = g * w;
    let (left, rest) = v.split_at_mut(lo);
    let (mid, right) = rest.split_at_mut(w);
    mid
}

/// The `g`th block of `w` entries, to read.
pub(crate) fn window_ref<T>(v: &Vec<T>, g: usize, w: usize) -> (r: &[T])
    requires
        g * w + w <= v@.len(),
    ensures
        r@ == block(v@, g as int, w as int),
{
    assert(0 <= g * w) by (nonlinear_arith);
    let len: usize = v.len();
    assert(g * w <= len);
    let lo: usize = g * w;
    vstd::slice::slice_subrange(v.as_slice(), lo, lo + w)
}

} // verus!
