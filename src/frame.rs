//! The depth-tested buffers as a mathematical object, and the laws of the depth test.
//!
//! Drawing is modelled as a sequence of fragments (pixel, depth, colour) that
//! depends on the geometry alone; the buffers then pass each fragment through
//! the depth test in order. A fragment survives when its depth is at least the
//! stored one, so the larger depth wins and equal depths let the later fragment
//! through.
use vstd::prelude::*;

verus! {

/// One pixel write proposed to the depth test.
pub struct Fragment {
    pub index: int,
    pub depth: i64,
    pub color: (u8, u8, u8),
}

/// The contents of both buffers.
pub struct Frame {
    pub colors: Seq<(u8, u8, u8)>,
    pub depths: Seq<i64>,
}

/// The depth test on one fragment: it overwrites colour and depth unless its
/// depth is below the stored one.
pub open spec fn apply(f: Frame, g: Fragment) -> Frame {
    if 0 <= g.index < f.depths.len() && g.depth >= f.depths[g.index] {
        Frame { colors: f.colors.update(g.index, g.color), depths: f.depths.update(g.index, g.depth) }
    } else {
        f
    }
}

/// The fragments `gs` passed through the depth test in order.
pub open spec fn apply_all(f: Frame, gs: Seq<Fragment>) -> Frame
    decreases gs.len(),
{
    if gs.len() == 0 {
        f
    } else {
        apply(apply_all(f, gs.drop_last()), gs.last())
    }
}

/// Passing two sequences one after the other is passing their concatenation.
pub proof fn lemma_apply_all_concat(f: Frame, g1: Seq<Fragment>, g2: Seq<Fragment>)
    ensures
        apply_all(f, g1 + g2) == apply_all(apply_all(f, g1), g2),
    decreases g2.len(),
{
    if g2.len() == 0 {
        assert(g1 + g2 =~= g1);
    } else {
        assert((g1 + g2).drop_last() =~= g1 + g2.drop_last());
        lemma_apply_all_concat(f, g1, g2.drop_last());
    }
}

/// A pixel's colour and depth.
pub type Pixel = ((u8, u8, u8), i64);

/// Pixel `p` of a frame.
pub open spec fn px(f: Frame, p: int) -> Pixel {
    (f.colors[p], f.depths[p])
}

/// Whether both buffers have the same number of entries.
pub open spec fn frame_wf(f: Frame) -> bool {
    f.colors.len() == f.depths.len()
}

/// The depth test on one fragment, seen from pixel `p` alone.
pub open spec fn step_px(st: Pixel, g: Fragment, p: int) -> Pixel {
    if g.index == p && g.depth >= st.1 {
        (g.color, g.depth)
    } else {
        st
    }
}

/// The fragments `gs` passed through the depth test, seen from pixel `p` alone.
pub open spec fn fold_px(st: Pixel, gs: Seq<Fragment>, p: int) -> Pixel
    decreases gs.len(),
{
    if gs.len() == 0 {
        st
    } else {
        step_px(fold_px(st, gs.drop_last(), p), gs.last(), p)
    }
}

/// Whether some fragment of `gs` on pixel `p` has depth at least `d`.
pub open spec fn reaches(gs: Seq<Fragment>, p: int, d: int) -> bool {
    exists|i: int| 0 <= i < gs.len() && (#[trigger] gs[i]).index == p && gs[i].depth >= d
}

/// Whether some fragment of `gs` falls on pixel `p`.
pub open spec fn covers(gs: Seq<Fragment>, p: int) -> bool {
    reaches(gs, p, i64::MIN as int)
}

/// A pixel below every depth.
pub open spec fn bottom() -> Pixel {
    ((0u8, 0u8, 0u8), i64::MIN)
}

/// What `gs` leaves on pixel `p` when nothing was there: the colour and depth
/// of its last deepest fragment on `p`.
pub open spec fn deepest(gs: Seq<Fragment>, p: int) -> Pixel {
    fold_px(bottom(), gs, p)
}

proof fn lemma_reaches_prefix(gs: Seq<Fragment>, p: int, d: int)
    requires
        gs.len() > 0,
        reaches(gs.drop_last(), p, d),
    ensures
        reaches(gs, p, d),
{
    let i = choose|i: int|
        0 <= i < gs.drop_last().len() && (#[trigger] gs.drop_last()[i]).index == p
            && gs.drop_last()[i].depth >= d;
    assert(gs[i] == gs.drop_last()[i]);
}

proof fn lemma_reaches_split(gs: Seq<Fragment>, p: int, d: int)
    requires
        gs.len() > 0,
        reaches(gs, p, d),
        !reaches(gs.drop_last(), p, d),
    ensures
        gs.last().index == p,
        gs.last().depth >= d,
{
    let i = choose|i: int| 0 <= i < gs.len() && (#[trigger] gs[i]).index == p && gs[i].depth >= d;
    if i < gs.len() - 1 {
        assert(gs.drop_last()[i] == gs[i]);
    }
}

proof fn lemma_px(f: Frame, gs: Seq<Fragment>, p: int)
    requires
        frame_wf(f),
        0 <= p < f.depths.len(),
    ensures
        frame_wf(apply_all(f, gs)),
        apply_all(f, gs).depths.len() == f.depths.len(),
        px(apply_all(f, gs), p) == fold_px(px(f, p), gs, p),
    decreases gs.len(),
{
    if gs.len() > 0 {
        lemma_px(f, gs.drop_last(), p);
    }
}

proof fn lemma_fold_untouched(st: Pixel, gs: Seq<Fragment>, p: int)
    requires
        !reaches(gs, p, st.1 as int),
    ensures
        fold_px(st, gs, p) == st,
    decreases gs.len(),
{
    if gs.len() > 0 {
        if reaches(gs.drop_last(), p, st.1 as int) {
            lemma_reaches_prefix(gs, p, st.1 as int);
        }
        lemma_fold_untouched(st, gs.drop_last(), p);
        assert(gs.last() == gs[gs.len() - 1]);
    }
}

proof fn lemma_fold_bounded(st: Pixel, gs: Seq<Fragment>, p: int, d: int)
    requires
        st.1 <= d,
        forall|i: int| 0 <= i < gs.len() && (#[trigger] gs[i]).index == p ==> gs[i].depth <= d,
    ensures
        fold_px(st, gs, p).1 <= d,
    decreases gs.len(),
{
    if gs.len() > 0 {
        assert forall|i: int|
            0 <= i < gs.drop_last().len() && (#[trigger] gs.drop_last()[i]).index == p implies gs.drop_last()[i].depth
            <= d by {
            assert(gs.drop_last()[i] == gs[i]);
        }
        lemma_fold_bounded(st, gs.drop_last(), p, d);
        assert(gs.last() == gs[gs.len() - 1]);
    }
}

proof fn lemma_fold_ge(st: Pixel, gs: Seq<Fragment>, p: int)
    ensures
        fold_px(st, gs, p).1 >= st.1,
        forall|i: int|
            0 <= i < gs.len() && (#[trigger] gs[i]).index == p ==> fold_px(st, gs, p).1 >= gs[i].depth,
    decreases gs.len(),
{
    if gs.len() > 0 {
        lemma_fold_ge(st, gs.drop_last(), p);
        assert forall|i: int| 0 <= i < gs.len() && (#[trigger] gs[i]).index == p implies fold_px(st, gs, p).1
            >= gs[i].depth by {
            if i < gs.len() - 1 {
                assert(gs.drop_last()[i] == gs[i]);
            }
        }
    }
}

proof fn lemma_fold_converge(lo: Pixel, st: Pixel, gs: Seq<Fragment>, p: int)
    requires
        lo.1 <= st.1,
        reaches(gs, p, st.1 as int),
    ensures
        fold_px(st, gs, p) == fold_px(lo, gs, p),
    decreases gs.len(),
{
    let pre = gs.drop_last();
    if reaches(pre, p, st.1 as int) {
        lemma_fold_converge(lo, st, pre, p);
    } else {
        lemma_reaches_split(gs, p, st.1 as int);
        lemma_fold_untouched(st, pre, p);
        assert forall|i: int| 0 <= i < pre.len() && (#[trigger] pre[i]).index == p implies pre[i].depth
            <= st.1 by {
            if pre[i].depth >= st.1 {
                assert(reaches(pre, p, st.1 as int));
            }
        }
        lemma_fold_bounded(lo, pre, p, st.1 as int);
    }
}

proof fn lemma_fold_reaches_result(st: Pixel, gs: Seq<Fragment>, p: int)
    requires
        reaches(gs, p, st.1 as int),
    ensures
        reaches(gs, p, fold_px(st, gs, p).1 as int),
    decreases gs.len(),
{
    let pre = gs.drop_last();
    let g = gs.last();
    let r = fold_px(st, gs, p);
    if g.index == p && g.depth >= fold_px(st, pre, p).1 {
        assert(gs[gs.len() - 1] == g);
    } else if reaches(pre, p, st.1 as int) {
        lemma_fold_reaches_result(st, pre, p);
        lemma_reaches_prefix(gs, p, r.1 as int);
    } else {
        lemma_fold_untouched(st, pre, p);
    }
}

/// What `gs` leaves on a pixel: its last deepest fragment if one reaches the
/// stored depth, else the pixel unchanged.
pub proof fn lemma_fold_shape(st: Pixel, gs: Seq<Fragment>, p: int)
    ensures
        fold_px(st, gs, p) == if reaches(gs, p, st.1 as int) {
            deepest(gs, p)
        } else {
            st
        },
        reaches(gs, p, st.1 as int) <==> covers(gs, p) && deepest(gs, p).1 >= st.1,
{
    if reaches(gs, p, st.1 as int) {
        lemma_fold_converge(bottom(), st, gs, p);
        lemma_fold_ge(bottom(), gs, p);
        let i = choose|i: int| 0 <= i < gs.len() && (#[trigger] gs[i]).index == p && gs[i].depth >= st.1;
        assert(gs[i].depth >= i64::MIN);
    } else {
        lemma_fold_untouched(st, gs, p);
        if covers(gs, p) && deepest(gs, p).1 >= st.1 {
            lemma_fold_reaches_result(bottom(), gs, p);
            let i = choose|i: int|
                0 <= i < gs.len() && (#[trigger] gs[i]).index == p && gs[i].depth >= deepest(gs, p).1;
            assert(reaches(gs, p, st.1 as int));
        }
    }
}

/// Passing the same fragments through the depth test twice leaves both
/// buffers as passing them once does.
pub proof fn lemma_apply_all_idempotent(f: Frame, gs: Seq<Fragment>)
    requires
        frame_wf(f),
    ensures
        apply_all(apply_all(f, gs), gs) == apply_all(f, gs),
{
    let once = apply_all(f, gs);
    let twice = apply_all(once, gs);
    lemma_px_len(f, gs);
    lemma_px_len(once, gs);
    assert forall|p: int| 0 <= p < f.depths.len() implies px(twice, p) == px(once, p) by {
        lemma_px(f, gs, p);
        lemma_px(once, gs, p);
        let st = px(f, p);
        lemma_fold_shape(st, gs, p);
        lemma_fold_shape(fold_px(st, gs, p), gs, p);
        if reaches(gs, p, st.1 as int) {
            lemma_fold_reaches_result(st, gs, p);
        }
    }
    assert forall|p: int| 0 <= p < f.depths.len() implies twice.colors[p] == once.colors[p]
        && twice.depths[p] == once.depths[p] by {
        assert(px(twice, p) == px(once, p));
    }
    assert(twice.colors =~= once.colors);
    assert(twice.depths =~= once.depths);
}

proof fn lemma_px_len(f: Frame, gs: Seq<Fragment>)
    requires
        frame_wf(f),
    ensures
        frame_wf(apply_all(f, gs)),
        apply_all(f, gs).depths.len() == f.depths.len(),
    decreases gs.len(),
{
    if gs.len() > 0 {
        lemma_px_len(f, gs.drop_last());
    }
}

/// On a pixel where the deepest fragments of `g1` and `g2` differ in depth, or
/// where one of them has none, the order in which the two sequences pass the
/// depth test does not matter.
pub proof fn lemma_apply_all_order(f: Frame, g1: Seq<Fragment>, g2: Seq<Fragment>, p: int)
    requires
        frame_wf(f),
        0 <= p < f.depths.len(),
        !(covers(g1, p) && covers(g2, p) && deepest(g1, p).1 == deepest(g2, p).1),
    ensures
        px(apply_all(apply_all(f, g1), g2), p) == px(apply_all(apply_all(f, g2), g1), p),
{
    let st = px(f, p);
    lemma_px(f, g1, p);
    lemma_px(f, g2, p);
    lemma_px(apply_all(f, g1), g2, p);
    lemma_px(apply_all(f, g2), g1, p);
    let r1 = fold_px(st, g1, p);
    let r2 = fold_px(st, g2, p);
    lemma_fold_shape(st, g1, p);
    lemma_fold_shape(st, g2, p);
    lemma_fold_shape(r1, g2, p);
    lemma_fold_shape(r2, g1, p);
    lemma_fold_shape(bottom(), g1, p);
    lemma_fold_shape(bottom(), g2, p);
}

} // verus!
