//! The framebuffer, the depth buffer and the rasterizer that fills them.
use crate::fixed::{
    fraction, fraction_spec, in_range, lerp_unclamped, lerp_unclamped_spec, round_fx, round_spec,
    LIMIT, ONE,
};
use crate::frame::{
    apply, apply_all, covers, deepest, frame_wf, lemma_apply_all_concat, lemma_apply_all_idempotent,
    lemma_apply_all_order, px, Fragment, Frame,
};
use crate::matrix::Mat4;
use crate::model::Model;
use crate::point::{to_display_spec, toDCoords, Vec3f, Vec4f, Vertex, MAX_DIM};
use vstd::prelude::*;

verus! {

/// Tolerance, as a scalar, by which row and column ranges are widened on each
/// side so that neighbouring triangles leave no seam.
pub const EPS: i64 = 29491;

/// A colour channel: the scalar range `[0, ONE]` onto `0..=255`, held at the ends.
pub open spec fn channel_spec(v: int) -> u8 {
    if v <= 0 {
        0
    } else if v >= ONE {
        255
    } else {
        (v * 255 / (ONE as int)) as u8
    }
}

pub open spec fn rgb_spec(c: Vec3f) -> (u8, u8, u8) {
    (channel_spec(c.x as int), channel_spec(c.y as int), channel_spec(c.z as int))
}

fn channel(v: i64) -> (r: u8)
    ensures
        r == channel_spec(v as int),
{
    if v <= 0 {
        0
    } else if v >= ONE {
        255
    } else {
        proof {
            assert(0 <= v * 255 / (ONE as int) < 256) by (nonlinear_arith)
                requires
                    0 < v < ONE,
            ;
        }
        (v * 255 / ONE) as u8
    }
}

/// A colour vector as stored in the framebuffer.
pub fn to_rgb(c: Vec3f) -> (r: (u8, u8, u8))
    ensures
        r == rgb_spec(c),
{
    (channel(c.x), channel(c.y), channel(c.z))
}

/// First and one-past-last column of the span between the scalars `a` and `b`,
/// widened by `EPS` and clamped to `[0, w]`.
pub open spec fn span(a: int, b: int, w: int) -> (int, int) {
    let lo = if a > b {
        round_spec(b - EPS)
    } else {
        round_spec(a - EPS)
    };
    let hi = if a > b {
        round_spec(a + EPS)
    } else {
        round_spec(b + EPS)
    };
    (if lo < 0 {
        0
    } else {
        lo
    }, if hi > w {
        w
    } else {
        hi
    })
}

/// The fragment of the span at column `x` of row `y`.
pub open spec fn scan_fragment(
    a: int,
    b: int,
    za: int,
    zb: int,
    y: int,
    c1: Vec3f,
    c2: Vec3f,
    w: int,
    x: int,
) -> Fragment {
    let t = fraction_spec(x * ONE - a, b - a);
    Fragment {
        index: y * w + x,
        depth: lerp_unclamped_spec(za, zb, t) as i64,
        color: rgb_spec(Vec3f::lerp_spec(c1, c2, t)),
    }
}

/// The fragments of one span, left to right.
pub open spec fn scan_frags(
    a: int,
    b: int,
    za: int,
    zb: int,
    y: int,
    c1: Vec3f,
    c2: Vec3f,
    w: int,
) -> Seq<Fragment> {
    let (lo, hi) = span(a, b, w);
    Seq::new(
        if hi > lo {
            (hi - lo) as nat
        } else {
            0
        },
        |i: int| scan_fragment(a, b, za, zb, y, c1, c2, w, lo + i),
    )
}

/// Whether the triangle `a b c` winds clockwise: the z component of
/// `(b - a) x (c - a)` is negative.
pub open spec fn back_facing(a: Vec3f, b: Vec3f, c: Vec3f) -> bool {
    b.sub_spec(a).cross_spec(c.sub_spec(a)).z < 0
}

/// A position with `x` and `y` mapped onto a `w` by `h` display; `z` is kept as depth.
pub open spec fn project_spec(p: Vec3f, w: int, h: int) -> Vec3f {
    Vec3f {
        x: to_display_spec(p.x as int, w) as i64,
        y: to_display_spec(p.y as int, h) as i64,
        z: p.z,
    }
}

/// Three points ordered by row, by three compare-and-swap steps.
pub open spec fn sort_rows(p0: Vec3f, p1: Vec3f, p2: Vec3f) -> (Vec3f, Vec3f, Vec3f) {
    let (p0, p1) = if p0.y > p1.y {
        (p1, p0)
    } else {
        (p0, p1)
    };
    let (p0, p2) = if p0.y > p2.y {
        (p2, p0)
    } else {
        (p0, p2)
    };
    let (p1, p2) = if p1.y > p2.y {
        (p2, p1)
    } else {
        (p1, p2)
    };
    (p0, p1, p2)
}

pub open spec fn black() -> Vec3f {
    Vec3f { x: 0, y: 0, z: 0 }
}

pub open spec fn white() -> Vec3f {
    Vec3f { x: ONE, y: ONE, z: ONE }
}

/// Row `y` of the upper part of the sorted triangle `p0 p1 p2`: between the
/// long edge `p0 p2` and the edge `p0 p1`.
pub open spec fn top_row(p0: Vec3f, p1: Vec3f, p2: Vec3f, y: int, w: int) -> Seq<Fragment> {
    let ta = fraction_spec(y * ONE - p0.y, p2.y - p0.y);
    let tb = fraction_spec(y * ONE - p0.y, p1.y - p0.y);
    scan_frags(
        lerp_unclamped_spec(p0.x as int, p2.x as int, ta),
        lerp_unclamped_spec(p0.x as int, p1.x as int, tb),
        lerp_unclamped_spec(p0.z as int, p2.z as int, ta),
        lerp_unclamped_spec(p0.z as int, p1.z as int, tb),
        y,
        black(),
        white(),
        w,
    )
}

/// Where the long edge `p0 p2` crosses the row of `p1`: column and depth.
pub open spec fn split_spec(p0: Vec3f, p1: Vec3f, p2: Vec3f) -> (int, int) {
    let t = fraction_spec(p1.y - p0.y, p2.y - p0.y);
    (lerp_unclamped_spec(p0.x as int, p2.x as int, t), lerp_unclamped_spec(p0.z as int, p2.z as int, t))
}

/// Row `y` of the lower part of the sorted triangle `p0 p1 p2`: between the
/// edge `p1 p2` and the long edge from the split point to `p2`.
pub open spec fn bottom_row(p0: Vec3f, p1: Vec3f, p2: Vec3f, y: int, w: int) -> Seq<Fragment> {
    let (mid, mid_z) = split_spec(p0, p1, p2);
    let t = fraction_spec(y * ONE - p1.y, p2.y - p1.y);
    scan_frags(
        lerp_unclamped_spec(p1.x as int, p2.x as int, t),
        lerp_unclamped_spec(mid, p2.x as int, t),
        lerp_unclamped_spec(p1.z as int, p2.z as int, t),
        lerp_unclamped_spec(mid_z, p2.z as int, t),
        y,
        black(),
        white(),
        w,
    )
}

pub open spec fn part_row(top: bool, p0: Vec3f, p1: Vec3f, p2: Vec3f, y: int, w: int) -> Seq<
    Fragment,
> {
    if top {
        top_row(p0, p1, p2, y, w)
    } else {
        bottom_row(p0, p1, p2, y, w)
    }
}

/// The fragments of rows `lo` to `hi - 1` of one part, top row first.
pub open spec fn part_rows(
    top: bool,
    p0: Vec3f,
    p1: Vec3f,
    p2: Vec3f,
    lo: int,
    hi: int,
    w: int,
) -> Seq<Fragment>
    decreases hi - lo,
{
    if hi <= lo {
        Seq::empty()
    } else {
        part_rows(top, p0, p1, p2, lo, hi - 1, w) + part_row(top, p0, p1, p2, hi - 1, w)
    }
}

/// Rows from the one nearest `from - EPS` to the one nearest `to + EPS`,
/// exclusive, clamped to `[0, h]`.
pub open spec fn row_range(from: int, to: int, h: int) -> (int, int) {
    let lo = round_spec(from - EPS);
    let hi = round_spec(to + EPS);
    (if lo < 0 {
        0
    } else {
        lo
    }, if hi > h {
        h
    } else {
        hi
    })
}

/// The fragments of the triangle `a b c` on a `w` by `h` display: none when it
/// is back facing, else the upper part and then the lower part.
pub open spec fn tri_frags(a: Vertex, b: Vertex, c: Vertex, w: int, h: int) -> Seq<Fragment> {
    if back_facing(a.p, b.p, c.p) {
        Seq::empty()
    } else {
        let (p0, p1, p2) = sort_rows(project_spec(a.p, w, h), project_spec(b.p, w, h), project_spec(c.p, w, h));
        let (tlo, thi) = row_range(p0.y as int, p1.y as int, h);
        let (blo, bhi) = row_range(p1.y as int, p2.y as int, h);
        part_rows(true, p0, p1, p2, tlo, thi, w) + part_rows(false, p0, p1, p2, blo, bhi, w)
    }
}

/// A position as the affine transform `m` moves it: `m (p, 1)` with the last
/// component dropped, not divided through.
pub open spec fn transform_spec(m: Mat4, p: Vec3f) -> Vec3f {
    let r = m.mul_vec_spec(Vec4f { x: p.x, y: p.y, z: p.z, w: ONE });
    Vec3f { x: r.x, y: r.y, z: r.z }
}

pub open spec fn transform_vertex(m: Mat4, v: Vertex) -> Vertex {
    Vertex { p: transform_spec(m, v.p), c: v.c }
}

/// The buffers after drawing the faces `faces`, in order, of the mesh with
/// vertices `verts` moved by `m`.
pub open spec fn faces_frame(
    f: Frame,
    verts: Seq<Vertex>,
    faces: Seq<(usize, usize, usize)>,
    m: Mat4,
    w: int,
    h: int,
) -> Frame
    decreases faces.len(),
{
    if faces.len() == 0 {
        f
    } else {
        let t = faces.last();
        apply_all(
            faces_frame(f, verts, faces.drop_last(), m, w, h),
            tri_frags(
                transform_vertex(m, verts[t.0 as int]),
                transform_vertex(m, verts[t.1 as int]),
                transform_vertex(m, verts[t.2 as int]),
                w,
                h,
            ),
        )
    }
}

/// A colour framebuffer and its depth buffer, row-major, `width * height` each.
/// A fragment is kept where its depth is at least the stored one.
pub struct GraphicsState {
    pub width: usize,
    pub height: usize,
    pub d: Vec<(u8, u8, u8)>,
    pub depth_buffer: Vec<i64>,
}

impl GraphicsState {
    pub open spec fn wf(&self) -> bool {
        &&& 1 <= self.width <= MAX_DIM
        &&& 1 <= self.height <= MAX_DIM
        &&& self.d@.len() == self.width * self.height
        &&& self.depth_buffer@.len() == self.width * self.height
    }

    pub open spec fn view(&self) -> Frame {
        Frame { colors: self.d@, depths: self.depth_buffer@ }
    }

    /// A black `width` by `height` display with every depth zero.
    pub fn new(width: usize, height: usize) -> (r: GraphicsState)
        requires
            1 <= width <= MAX_DIM,
            1 <= height <= MAX_DIM,
        ensures
            r.wf(),
            r.width == width,
            r.height == height,
            r.view().colors == Seq::new((width * height) as nat, |i: int| (0u8, 0u8, 0u8)),
            r.view().depths == Seq::new((width * height) as nat, |i: int| 0i64),
    {
        proof {
            assert(width * height <= MAX_DIM * MAX_DIM) by (nonlinear_arith)
                requires
                    1 <= width <= MAX_DIM,
                    1 <= height <= MAX_DIM,
            ;
        }
        let n = width * height;
        let mut d: Vec<(u8, u8, u8)> = Vec::new();
        let mut depth_buffer: Vec<i64> = Vec::new();
        let mut i: usize = 0;
        while i < n
            invariant
                i <= n,
                d@ == Seq::new(i as nat, |k: int| (0u8, 0u8, 0u8)),
                depth_buffer@ == Seq::new(i as nat, |k: int| 0i64),
            decreases n - i,
        {
            d.push((0, 0, 0));
            depth_buffer.push(0);
            i += 1;
            assert(d@ =~= Seq::new(i as nat, |k: int| (0u8, 0u8, 0u8)));
            assert(depth_buffer@ =~= Seq::new(i as nat, |k: int| 0i64));
        }
        GraphicsState { width, height, d, depth_buffer }
    }

    /// Sets every pixel to `(r, g, b)`.
    pub fn clear_display(&mut self, r: u8, g: u8, b: u8)
        requires
            old(self).wf(),
        ensures
            final(self).wf(),
            final(self).width == old(self).width,
            final(self).height == old(self).height,
            final(self).depth_buffer@ == old(self).depth_buffer@,
            final(self).d@ == Seq::new(old(self).d@.len(), |i: int| (r, g, b)),
    {
        let n = self.d.len();
        let mut i: usize = 0;
        while i < n
            invariant
                i <= n,
                n == self.d@.len(),
                self.wf(),
                self.width == old(self).width,
                self.height == old(self).height,
                self.depth_buffer@ == old(self).depth_buffer@,
                forall|k: int| 0 <= k < i ==> self.d@[k] == (r, g, b),
            decreases n - i,
        {
            self.d.set(i, (r, g, b));
            i += 1;
        }
        assert(self.d@ =~= Seq::new(old(self).d@.len(), |i: int| (r, g, b)));
    }

    /// Sets every depth to `value`.
    pub fn clear_depth_buffer(&mut self, value: i64)
        requires
            old(self).wf(),
        ensures
            final(self).wf(),
            final(self).width == old(self).width,
            final(self).height == old(self).height,
            final(self).d@ == old(self).d@,
            final(self).depth_buffer@ == Seq::new(old(self).depth_buffer@.len(), |i: int| value),
    {
        let n = self.depth_buffer.len();
        let mut i: usize = 0;
        while i < n
            invariant
                i <= n,
                n == self.depth_buffer@.len(),
                self.wf(),
                self.width == old(self).width,
                self.height == old(self).height,
                self.d@ == old(self).d@,
                forall|k: int| 0 <= k < i ==> self.depth_buffer@[k] == value,
            decreases n - i,
        {
            self.depth_buffer.set(i, value);
            i += 1;
        }
        assert(self.depth_buffer@ =~= Seq::new(old(self).depth_buffer@.len(), |i: int| value));
    }

    /// Draws row `y` between the columns `a` and `b` (scalars), interpolating
    /// depth from `a_z` to `b_z` and colour from `c1` to `c2`, through the depth test.
    pub fn draw_scanline(
        &mut self,
        a: i64,
        b: i64,
        a_z: i64,
        b_z: i64,
        y: i64,
        c1: Vec3f,
        c2: Vec3f,
    )
        requires
            old(self).wf(),
            in_range(a as int),
            in_range(b as int),
            in_range(a_z as int),
            in_range(b_z as int),
            c1.wf(),
            c2.wf(),
            0 <= y < old(self).height,
        ensures
            final(self).wf(),
            final(self).width == old(self).width,
            final(self).height == old(self).height,
            final(self).view() == apply_all(
                old(self).view(),
                scan_frags(
                    a as int,
                    b as int,
                    a_z as int,
                    b_z as int,
                    y as int,
                    c1,
                    c2,
                    old(self).width as int,
                ),
            ),
    {
        let ghost w = self.width as int;
        let ghost frags = scan_frags(a as int, b as int, a_z as int, b_z as int, y as int, c1, c2, w);
        let (mut lo, mut hi) = if a > b {
            (round_fx(b - EPS), round_fx(a + EPS))
        } else {
            (round_fx(a - EPS), round_fx(b + EPS))
        };
        if lo < 0 {
            lo = 0;
        }
        if hi > self.width as i64 {
            hi = self.width as i64;
        }
        assert((lo as int, hi as int) == span(a as int, b as int, w));
        let mut x = lo;
        while x < hi
            invariant
                self.wf(),
                self.width == old(self).width,
                self.height == old(self).height,
                w == self.width,
                0 <= y < self.height,
                0 <= lo <= x,
                x <= hi || x == lo,
                hi <= w,
                (lo as int, hi as int) == span(a as int, b as int, w),
                frags == scan_frags(a as int, b as int, a_z as int, b_z as int, y as int, c1, c2, w),
                in_range(a as int),
                in_range(b as int),
                in_range(a_z as int),
                in_range(b_z as int),
                c1.wf(),
                c2.wf(),
                self.view() == apply_all(old(self).view(), frags.take(x - lo)),
            decreases hi - x,
        {
            let t = fraction(x * ONE - a, b - a);
            let c = Vec3f::lerp(c1, c2, t);
            let z = lerp_unclamped(a_z, b_z, t);
            proof {
                assert(y * w + x < w * self.height) by (nonlinear_arith)
                    requires
                        0 <= y < self.height,
                        0 <= x < w,
                ;
                assert(w * self.height <= MAX_DIM * MAX_DIM) by (nonlinear_arith)
                    requires
                        1 <= w <= MAX_DIM,
                        1 <= self.height <= MAX_DIM,
                ;
                assert(0 <= y * w) by (nonlinear_arith)
                    requires
                        0 <= y,
                        0 <= w,
                ;
            }
            let idx = (y as usize) * self.width + x as usize;
            let ghost before = self.view();
            let ghost g = frags[x - lo];
            assert(g == scan_fragment(a as int, b as int, a_z as int, b_z as int, y as int, c1, c2, w, x as int));
            if z >= self.depth_buffer[idx] {
                self.d.set(idx, to_rgb(c));
                self.depth_buffer.set(idx, z);
                assert(self.view().colors =~= before.colors.update(idx as int, g.color));
                assert(self.view().depths =~= before.depths.update(idx as int, g.depth));
            }
            assert(self.view() == apply(before, g));
            assert(frags.take(x + 1 - lo).drop_last() =~= frags.take(x - lo));
            x += 1;
        }
        assert(frags.take(x - lo) =~= frags);
    }

    fn project(&self, p: Vec3f) -> (r: Vec3f)
        requires
            self.wf(),
            p.wf(),
        ensures
            r == project_spec(p, self.width as int, self.height as int),
            r.wf(),
    {
        let d = toDCoords(p.vec2f(), self.width, self.height);
        Vec3f { x: d.x, y: d.y, z: p.z }
    }

    fn row_bounds(&self, from: i64, to: i64) -> (r: (i64, i64))
        requires
            self.wf(),
            in_range(from as int),
            in_range(to as int),
        ensures
            (r.0 as int, r.1 as int) == row_range(from as int, to as int, self.height as int),
            0 <= r.0,
            r.1 <= self.height,
    {
        let mut lo = round_fx(from - EPS);
        let mut hi = round_fx(to + EPS);
        if lo < 0 {
            lo = 0;
        }
        if hi > self.height as i64 {
            hi = self.height as i64;
        }
        (lo, hi)
    }

    /// Draws the rows `lo` to `hi - 1` of one part of the sorted triangle.
    fn draw_part(&mut self, top: bool, p0: Vec3f, p1: Vec3f, p2: Vec3f, lo: i64, hi: i64)
        requires
            old(self).wf(),
            p0.wf(),
            p1.wf(),
            p2.wf(),
            0 <= lo,
            hi <= old(self).height,
        ensures
            final(self).wf(),
            final(self).width == old(self).width,
            final(self).height == old(self).height,
            final(self).view() == apply_all(
                old(self).view(),
                part_rows(top, p0, p1, p2, lo as int, hi as int, old(self).width as int),
            ),
    {
        let ghost w = self.width as int;
        let mt = fraction(p1.y - p0.y, p2.y - p0.y);
        let mid = lerp_unclamped(p0.x, p2.x, mt);
        let mid_z = lerp_unclamped(p0.z, p2.z, mt);
        assert((mid as int, mid_z as int) == split_spec(p0, p1, p2));
        let dark = Vec3f { x: 0, y: 0, z: 0 };
        let light = Vec3f { x: ONE, y: ONE, z: ONE };
        let mut y = lo;
        while y < hi
            invariant
                self.wf(),
                self.width == old(self).width,
                self.height == old(self).height,
                w == self.width,
                p0.wf(),
                p1.wf(),
                p2.wf(),
                0 <= lo <= y,
                y <= hi || y == lo,
                hi <= self.height,
                in_range(mid as int),
                in_range(mid_z as int),
                (mid as int, mid_z as int) == split_spec(p0, p1, p2),
                dark == black(),
                light == white(),
                self.view() == apply_all(old(self).view(), part_rows(top, p0, p1, p2, lo as int, y as int, w)),
            decreases hi - y,
        {
            let ghost before = self.view();
            if top {
                let ta = fraction(y * ONE - p0.y, p2.y - p0.y);
                let tb = fraction(y * ONE - p0.y, p1.y - p0.y);
                let xa = lerp_unclamped(p0.x, p2.x, ta);
                let xb = lerp_unclamped(p0.x, p1.x, tb);
                let za = lerp_unclamped(p0.z, p2.z, ta);
                let zb = lerp_unclamped(p0.z, p1.z, tb);
                self.draw_scanline(xa, xb, za, zb, y, dark, light);
            } else {
                let t = fraction(y * ONE - p1.y, p2.y - p1.y);
                let xa = lerp_unclamped(p1.x, p2.x, t);
                let xb = lerp_unclamped(mid, p2.x, t);
                let za = lerp_unclamped(p1.z, p2.z, t);
                let zb = lerp_unclamped(mid_z, p2.z, t);
                self.draw_scanline(xa, xb, za, zb, y, dark, light);
            }
            proof {
                lemma_apply_all_concat(
                    old(self).view(),
                    part_rows(top, p0, p1, p2, lo as int, y as int, w),
                    part_row(top, p0, p1, p2, y as int, w),
                );
            }
            y += 1;
        }
    }

    /// Rasterizes the triangle `a b c`, unless it winds clockwise.
    pub fn draw_tri(&mut self, a: Vertex, b: Vertex, c: Vertex)
        requires
            old(self).wf(),
            a.wf(),
            b.wf(),
            c.wf(),
        ensures
            final(self).wf(),
            final(self).width == old(self).width,
            final(self).height == old(self).height,
            final(self).view() == apply_all(
                old(self).view(),
                tri_frags(a, b, c, old(self).width as int, old(self).height as int),
            ),
            back_facing(a.p, b.p, c.p) ==> final(self).view() == old(self).view(),
    {
        if b.p.sub(a.p).cross(c.p.sub(a.p)).z < 0 {
            return;
        }
        let pa = self.project(a.p);
        let pb = self.project(b.p);
        let pc = self.project(c.p);
        let (p0, p1) = if pa.y > pb.y {
            (pb, pa)
        } else {
            (pa, pb)
        };
        let (p0, p2) = if p0.y > pc.y {
            (pc, p0)
        } else {
            (p0, pc)
        };
        let (p1, p2) = if p1.y > p2.y {
            (p2, p1)
        } else {
            (p1, p2)
        };
        let ghost w = self.width as int;
        let ghost start = self.view();
        let (tlo, thi) = self.row_bounds(p0.y, p1.y);
        self.draw_part(true, p0, p1, p2, tlo, thi);
        let (blo, bhi) = self.row_bounds(p1.y, p2.y);
        self.draw_part(false, p0, p1, p2, blo, bhi);
        proof {
            lemma_apply_all_concat(
                start,
                part_rows(true, p0, p1, p2, tlo as int, thi as int, w),
                part_rows(false, p0, p1, p2, blo as int, bhi as int, w),
            );
        }
    }

    /// Draws every face of `model`, in order, after moving its vertices by `mat`.
    pub fn draw_model(&mut self, model: &Model, mat: Mat4)
        requires
            old(self).wf(),
            model.wf(),
            mat.wf(),
        ensures
            final(self).wf(),
            final(self).width == old(self).width,
            final(self).height == old(self).height,
            final(self).view() == faces_frame(
                old(self).view(),
                model.verts@,
                model.faces@,
                mat,
                old(self).width as int,
                old(self).height as int,
            ),
    {
        let ghost w = self.width as int;
        let ghost h = self.height as int;
        let mut proj_vert: Vec<Vertex> = Vec::new();
        let mut i: usize = 0;
        while i < model.verts.len()
            invariant
                model.wf(),
                mat.wf(),
                i <= model.verts@.len(),
                proj_vert@.len() == i,
                forall|k: int|
                    0 <= k < i ==> #[trigger] proj_vert@[k] == transform_vertex(mat, model.verts@[k]),
                forall|k: int| 0 <= k < i ==> (#[trigger] proj_vert@[k]).wf(),
            decreases model.verts@.len() - i,
        {
            let v = model.verts[i];
            assert(v.wf());
            let p = mat.mul_vec(v.p.vec4f(ONE)).vec3f();
            proj_vert.push(Vertex { p, c: v.c });
            i += 1;
        }
        let mut j: usize = 0;
        while j < model.faces.len()
            invariant
                self.wf(),
                self.width == old(self).width,
                self.height == old(self).height,
                w == self.width,
                h == self.height,
                model.wf(),
                j <= model.faces@.len(),
                proj_vert@.len() == model.verts@.len(),
                forall|k: int|
                    0 <= k < proj_vert@.len() ==> #[trigger] proj_vert@[k] == transform_vertex(
                        mat,
                        model.verts@[k],
                    ),
                forall|k: int| 0 <= k < proj_vert@.len() ==> (#[trigger] proj_vert@[k]).wf(),
                self.view() == faces_frame(
                    old(self).view(),
                    model.verts@,
                    model.faces@.take(j as int),
                    mat,
                    w,
                    h,
                ),
            decreases model.faces@.len() - j,
        {
            let f = model.faces[j];
            assert(model.faces@[j as int] == f);
            self.draw_tri(proj_vert[f.0], proj_vert[f.1], proj_vert[f.2]);
            assert(model.faces@.take(j + 1).drop_last() =~= model.faces@.take(j as int));
            j += 1;
        }
        assert(model.faces@.take(j as int) =~= model.faces@);
    }
}


/// A clockwise triangle changes nothing.
pub proof fn lemma_back_facing_draws_nothing(f: Frame, a: Vertex, b: Vertex, c: Vertex, w: int, h: int)
    requires
        back_facing(a.p, b.p, c.p),
    ensures
        apply_all(f, tri_frags(a, b, c, w, h)) == f,
{
}

/// Reversing the winding of a clockwise triangle makes it front facing.
pub proof fn lemma_reversed_not_culled(a: Vertex, b: Vertex, c: Vertex)
    requires
        back_facing(a.p, b.p, c.p),
    ensures
        !back_facing(a.p, c.p, b.p),
{
    let d1 = b.p.sub_spec(a.p);
    let d2 = c.p.sub_spec(a.p);
    let e = d1.cross_exact(d2).2;
    assert(d2.cross_exact(d1).2 == -e);
    assert(e < 0) by {
        if e >= 0 {
            assert(e * 1 >= 0);
            assert((e * 1) / (ONE as int) >= 0);
        }
    }
    assert((-e) * 1 > 0);
    assert((-e * 1) / (ONE as int) >= 0);
}

/// Drawing a triangle a second time changes nothing.
pub proof fn lemma_draw_tri_idempotent(f: Frame, a: Vertex, b: Vertex, c: Vertex, w: int, h: int)
    requires
        frame_wf(f),
    ensures
        apply_all(apply_all(f, tri_frags(a, b, c, w, h)), tri_frags(a, b, c, w, h)) == apply_all(
            f,
            tri_frags(a, b, c, w, h),
        ),
{
    lemma_apply_all_idempotent(f, tri_frags(a, b, c, w, h));
}

/// On a pixel where two triangles do not tie for the deepest fragment, the
/// result does not depend on which is drawn first.
pub proof fn lemma_draw_tri_order(
    f: Frame,
    t1: (Vertex, Vertex, Vertex),
    t2: (Vertex, Vertex, Vertex),
    w: int,
    h: int,
    p: int,
)
    requires
        frame_wf(f),
        0 <= p < f.depths.len(),
        !(covers(tri_frags(t1.0, t1.1, t1.2, w, h), p) && covers(tri_frags(t2.0, t2.1, t2.2, w, h), p)
            && deepest(tri_frags(t1.0, t1.1, t1.2, w, h), p).1 == deepest(
            tri_frags(t2.0, t2.1, t2.2, w, h),
            p,
        ).1),
    ensures
        px(
            apply_all(apply_all(f, tri_frags(t1.0, t1.1, t1.2, w, h)), tri_frags(t2.0, t2.1, t2.2, w, h)),
            p,
        ) == px(
            apply_all(apply_all(f, tri_frags(t2.0, t2.1, t2.2, w, h)), tri_frags(t1.0, t1.1, t1.2, w, h)),
            p,
        ),
{
    lemma_apply_all_order(f, tri_frags(t1.0, t1.1, t1.2, w, h), tri_frags(t2.0, t2.1, t2.2, w, h), p);
}


/// The fragments of the faces `faces` of the mesh with vertices `verts` moved
/// by `m`, face after face.
pub open spec fn model_frags(
    verts: Seq<Vertex>,
    faces: Seq<(usize, usize, usize)>,
    m: Mat4,
    w: int,
    h: int,
) -> Seq<Fragment>
    decreases faces.len(),
{
    if faces.len() == 0 {
        Seq::empty()
    } else {
        let t = faces.last();
        model_frags(verts, faces.drop_last(), m, w, h) + tri_frags(
            transform_vertex(m, verts[t.0 as int]),
            transform_vertex(m, verts[t.1 as int]),
            transform_vertex(m, verts[t.2 as int]),
            w,
            h,
        )
    }
}

/// Drawing a mesh passes all its fragments through the depth test in one sequence.
pub proof fn lemma_faces_frame_frags(
    f: Frame,
    verts: Seq<Vertex>,
    faces: Seq<(usize, usize, usize)>,
    m: Mat4,
    w: int,
    h: int,
)
    ensures
        faces_frame(f, verts, faces, m, w, h) == apply_all(f, model_frags(verts, faces, m, w, h)),
    decreases faces.len(),
{
    if faces.len() > 0 {
        let t = faces.last();
        lemma_faces_frame_frags(f, verts, faces.drop_last(), m, w, h);
        lemma_apply_all_concat(
            f,
            model_frags(verts, faces.drop_last(), m, w, h),
            tri_frags(
                transform_vertex(m, verts[t.0 as int]),
                transform_vertex(m, verts[t.1 as int]),
                transform_vertex(m, verts[t.2 as int]),
                w,
                h,
            ),
        );
    }
}

/// Drawing a mesh a second time with the same transform changes nothing.
pub proof fn lemma_draw_model_idempotent(
    f: Frame,
    verts: Seq<Vertex>,
    faces: Seq<(usize, usize, usize)>,
    m: Mat4,
    w: int,
    h: int,
)
    requires
        frame_wf(f),
    ensures
        faces_frame(faces_frame(f, verts, faces, m, w, h), verts, faces, m, w, h) == faces_frame(
            f,
            verts,
            faces,
            m,
            w,
            h,
        ),
{
    let once = faces_frame(f, verts, faces, m, w, h);
    lemma_faces_frame_frags(f, verts, faces, m, w, h);
    lemma_faces_frame_frags(once, verts, faces, m, w, h);
    lemma_apply_all_idempotent(f, model_frags(verts, faces, m, w, h));
}

} // verus!
