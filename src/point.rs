//! Fixed-size vectors, vertices and the mapping onto the display.
use crate::fixed::{
    div_floor, div_spec, floor_div, fx_add, fx_div, fx_mul, fx_sub, in_range, lerp, lerp_spec, mul_spec,
    sat, saturate, LIMIT, ONE,
};
use vstd::arithmetic::div_mod::lemma_fundamental_div_mod;
use vstd::prelude::*;

verus! {

/// Lower corner of the clip square, on both axes.
pub const MIN_SCREEN: i64 = -327680;

/// Upper corner of the clip square, on both axes.
pub const MAX_SCREEN: i64 = 327680;

/// Largest width or height of a display, in pixels.
pub const MAX_DIM: usize = 16384;

#[derive(Clone, Copy, Debug, PartialEq, Eq)]
pub struct Vec2f {
    pub x: i64,
    pub y: i64,
}

#[derive(Clone, Copy, Debug, PartialEq, Eq)]
pub struct Vec3f {
    pub x: i64,
    pub y: i64,
    pub z: i64,
}

#[derive(Clone, Copy, Debug, PartialEq, Eq)]
pub struct Vec4f {
    pub x: i64,
    pub y: i64,
    pub z: i64,
    pub w: i64,
}

/// A saturated scalar as stored in a vector.
pub open spec fn sat64(v: int) -> i64 {
    sat(v) as i64
}

/// Dot product of two 3-vectors as an exact integer (scale `ONE * ONE`).
pub open spec fn dot3_exact(a: Vec3f, b: Vec3f) -> int {
    a.x * b.x + a.y * b.y + a.z * b.z
}

/// Integer square root: the `r >= 0` with `r * r <= n < (r + 1) * (r + 1)`.
pub open spec fn is_isqrt(r: int, n: int) -> bool {
    0 <= r && r * r <= n < (r + 1) * (r + 1)
}

pub open spec fn isqrt_spec(n: int) -> int {
    choose|r: int| is_isqrt(r, n)
}

proof fn lemma_isqrt_unique(r1: int, r2: int, n: int)
    requires
        is_isqrt(r1, n),
        is_isqrt(r2, n),
    ensures
        r1 == r2,
{
    if r1 < r2 {
        assert((r1 + 1) * (r1 + 1) <= r2 * r2) by (nonlinear_arith)
            requires
                0 <= r1 < r2,
        ;
    } else if r2 < r1 {
        assert((r2 + 1) * (r2 + 1) <= r1 * r1) by (nonlinear_arith)
            requires
                0 <= r2 < r1,
        ;
    }
}

/// Integer square root by bisection.
fn isqrt(n: u128) -> (r: u128)
    requires
        n < 0x10_0000_0000_0000_0000_0000,
    ensures
        is_isqrt(r as int, n as int),
        r as int == isqrt_spec(n as int),
{
    let mut lo: u128 = 0;
    let mut hi: u128 = 0x400_0000_0000;
    assert(hi * hi == 0x10_0000_0000_0000_0000_0000);
    while hi - lo > 1
        invariant
            lo < hi <= 0x400_0000_0000,
            lo * lo <= n < hi * hi,
        decreases hi - lo,
    {
        let mid = lo + (hi - lo) / 2;
        assert(mid * mid <= 0x10_0000_0000_0000_0000_0000) by (nonlinear_arith)
            requires
                mid <= 0x400_0000_0000,
        ;
        if mid * mid <= n {
            lo = mid;
        } else {
            hi = mid;
        }
    }
    proof {
        assert(hi == lo + 1);
        assert(is_isqrt(lo as int, n as int));
        lemma_isqrt_unique(lo as int, isqrt_spec(n as int), n as int);
    }
    lo
}

impl Vec2f {
    pub open spec fn wf(&self) -> bool {
        in_range(self.x as int) && in_range(self.y as int)
    }

    pub fn new(x: i64, y: i64) -> (r: Vec2f)
        ensures
            r == (Vec2f { x, y }),
    {
        Vec2f { x, y }
    }

    pub open spec fn add_spec(self, o: Vec2f) -> Vec2f {
        Vec2f { x: sat64(self.x + o.x), y: sat64(self.y + o.y) }
    }

    pub open spec fn sub_spec(self, o: Vec2f) -> Vec2f {
        Vec2f { x: sat64(self.x - o.x), y: sat64(self.y - o.y) }
    }

    pub open spec fn lerp_spec(a: Vec2f, b: Vec2f, t: int) -> Vec2f {
        Vec2f { x: lerp_spec(a.x as int, b.x as int, t) as i64, y: lerp_spec(a.y as int, b.y as int, t) as i64 }
    }

    /// Componentwise sum.
    pub fn add(self, o: Vec2f) -> (r: Vec2f)
        requires
            self.wf(),
            o.wf(),
        ensures
            r == self.add_spec(o),
    {
        Vec2f { x: fx_add(self.x, o.x), y: fx_add(self.y, o.y) }
    }

    /// Componentwise difference.
    pub fn sub(self, o: Vec2f) -> (r: Vec2f)
        requires
            self.wf(),
            o.wf(),
        ensures
            r == self.sub_spec(o),
    {
        Vec2f { x: fx_sub(self.x, o.x), y: fx_sub(self.y, o.y) }
    }

    pub open spec fn mul_elem_spec(self, o: Vec2f) -> Vec2f {
        Vec2f { x: mul_spec(self.x as int, o.x as int) as i64, y: mul_spec(self.y as int, o.y as int) as i64 }
    }

    pub open spec fn div_elem_spec(self, o: Vec2f) -> Vec2f {
        Vec2f { x: div_spec(self.x as int, o.x as int) as i64, y: div_spec(self.y as int, o.y as int) as i64 }
    }

    pub open spec fn add_scalar_spec(self, k: int) -> Vec2f {
        Vec2f { x: sat64(self.x + k), y: sat64(self.y + k) }
    }

    pub open spec fn sub_scalar_spec(self, k: int) -> Vec2f {
        Vec2f { x: sat64(self.x - k), y: sat64(self.y - k) }
    }

    pub open spec fn scale_spec(self, k: int) -> Vec2f {
        Vec2f { x: mul_spec(self.x as int, k) as i64, y: mul_spec(self.y as int, k) as i64 }
    }

    pub open spec fn div_scalar_spec(self, k: int) -> Vec2f {
        Vec2f { x: div_spec(self.x as int, k) as i64, y: div_spec(self.y as int, k) as i64 }
    }

    /// Squared Euclidean norm, exact (scale `ONE * ONE`).
    pub open spec fn norm2(self) -> int {
        self.x * self.x + self.y * self.y
    }

    pub open spec fn length_spec(self) -> int {
        sat(isqrt_spec(self.norm2()))
    }

    pub open spec fn normalized_spec(self) -> Vec2f {
        self.div_scalar_spec(self.length_spec())
    }

    /// Componentwise product.
    pub fn mul(self, o: Vec2f) -> (r: Vec2f)
        requires
            self.wf(),
            o.wf(),
        ensures
            r == self.mul_elem_spec(o),
            r.wf(),
    {
        Vec2f { x: fx_mul(self.x, o.x), y: fx_mul(self.y, o.y) }
    }

    /// Componentwise quotient.
    pub fn div(self, o: Vec2f) -> (r: Vec2f)
        requires
            self.wf(),
            o.wf(),
        ensures
            r == self.div_elem_spec(o),
            r.wf(),
    {
        Vec2f { x: fx_div(self.x, o.x), y: fx_div(self.y, o.y) }
    }

    /// The scalar `k` added to every component.
    pub fn add_scalar(self, k: i64) -> (r: Vec2f)
        requires
            self.wf(),
            in_range(k as int),
        ensures
            r == self.add_scalar_spec(k as int),
            r.wf(),
    {
        Vec2f { x: fx_add(self.x, k), y: fx_add(self.y, k) }
    }

    /// The scalar `k` subtracted from every component.
    pub fn sub_scalar(self, k: i64) -> (r: Vec2f)
        requires
            self.wf(),
            in_range(k as int),
        ensures
            r == self.sub_scalar_spec(k as int),
            r.wf(),
    {
        Vec2f { x: fx_sub(self.x, k), y: fx_sub(self.y, k) }
    }

    /// Every component multiplied by the scalar `k`.
    pub fn scale(self, k: i64) -> (r: Vec2f)
        requires
            self.wf(),
            in_range(k as int),
        ensures
            r == self.scale_spec(k as int),
            r.wf(),
    {
        Vec2f { x: fx_mul(self.x, k), y: fx_mul(self.y, k) }
    }

    /// Every component divided by the scalar `k`.
    pub fn div_scalar(self, k: i64) -> (r: Vec2f)
        requires
            self.wf(),
            in_range(k as int),
        ensures
            r == self.div_scalar_spec(k as int),
            r.wf(),
    {
        Vec2f { x: fx_div(self.x, k), y: fx_div(self.y, k) }
    }

    /// Euclidean length.
    pub fn length(&self) -> (r: i64)
        requires
            self.wf(),
        ensures
            r == self.length_spec(),
            0 <= r <= LIMIT,
    {
        let x = self.x as i128;
        let y = self.y as i128;
        proof {
            assert(x * x <= LIMIT * LIMIT && 0 <= x * x) by (nonlinear_arith)
                requires
                    -LIMIT <= x <= LIMIT,
            ;
            assert(y * y <= LIMIT * LIMIT && 0 <= y * y) by (nonlinear_arith)
                requires
                    -LIMIT <= y <= LIMIT,
            ;
        }
        let n = (x * x + y * y) as u128;
        let r = isqrt(n);
        if r > LIMIT as u128 {
            LIMIT
        } else {
            r as i64
        }
    }

    /// Divides every component by the length, in place. A zero vector stays zero.
    pub fn normalize(&mut self)
        requires
            old(self).wf(),
        ensures
            *final(self) == old(self).normalized_spec(),
            final(self).wf(),
    {
        let l = self.length();
        *self = self.div_scalar(l);
    }

    /// Componentwise interpolation held at the ends (see `lerp`).
    pub fn lerp(a: Vec2f, b: Vec2f, t: i64) -> (r: Vec2f)
        requires
            a.wf(),
            b.wf(),
        ensures
            r == Vec2f::lerp_spec(a, b, t as int),
            r.wf(),
    {
        Vec2f { x: lerp(a.x, b.x, t), y: lerp(a.y, b.y, t) }
    }
}

impl Vec3f {
    pub open spec fn wf(&self) -> bool {
        in_range(self.x as int) && in_range(self.y as int) && in_range(self.z as int)
    }

    pub fn new(x: i64, y: i64, z: i64) -> (r: Vec3f)
        ensures
            r == (Vec3f { x, y, z }),
    {
        Vec3f { x, y, z }
    }

    pub open spec fn add_spec(self, o: Vec3f) -> Vec3f {
        Vec3f { x: sat64(self.x + o.x), y: sat64(self.y + o.y), z: sat64(self.z + o.z) }
    }

    pub open spec fn sub_spec(self, o: Vec3f) -> Vec3f {
        Vec3f { x: sat64(self.x - o.x), y: sat64(self.y - o.y), z: sat64(self.z - o.z) }
    }

    pub open spec fn scale_spec(self, k: int) -> Vec3f {
        Vec3f {
            x: mul_spec(self.x as int, k) as i64,
            y: mul_spec(self.y as int, k) as i64,
            z: mul_spec(self.z as int, k) as i64,
        }
    }

    pub open spec fn div_scalar_spec(self, k: int) -> Vec3f {
        Vec3f {
            x: div_spec(self.x as int, k) as i64,
            y: div_spec(self.y as int, k) as i64,
            z: div_spec(self.z as int, k) as i64,
        }
    }

    /// The cross product, each component an exact integer (scale `ONE * ONE`).
    pub open spec fn cross_exact(self, v: Vec3f) -> (int, int, int) {
        (
            self.y * v.z - self.z * v.y,
            self.z * v.x - self.x * v.z,
            self.x * v.y - self.y * v.x,
        )
    }

    pub open spec fn cross_spec(self, v: Vec3f) -> Vec3f {
        let e = self.cross_exact(v);
        Vec3f {
            x: mul_spec(1, e.0) as i64,
            y: mul_spec(1, e.1) as i64,
            z: mul_spec(1, e.2) as i64,
        }
    }

    /// Squared Euclidean norm, exact (scale `ONE * ONE`).
    pub open spec fn norm2(self) -> int {
        dot3_exact(self, self)
    }

    pub open spec fn length_spec(self) -> int {
        sat(isqrt_spec(self.norm2()))
    }

    pub open spec fn normalized_spec(self) -> Vec3f {
        self.div_scalar_spec(self.length_spec())
    }

    pub open spec fn lerp_spec(a: Vec3f, b: Vec3f, t: int) -> Vec3f {
        Vec3f {
            x: lerp_spec(a.x as int, b.x as int, t) as i64,
            y: lerp_spec(a.y as int, b.y as int, t) as i64,
            z: lerp_spec(a.z as int, b.z as int, t) as i64,
        }
    }

    /// Componentwise sum.
    pub fn add(self, o: Vec3f) -> (r: Vec3f)
        requires
            self.wf(),
            o.wf(),
        ensures
            r == self.add_spec(o),
            r.wf(),
    {
        Vec3f { x: fx_add(self.x, o.x), y: fx_add(self.y, o.y), z: fx_add(self.z, o.z) }
    }

    /// Componentwise difference.
    pub fn sub(self, o: Vec3f) -> (r: Vec3f)
        requires
            self.wf(),
            o.wf(),
        ensures
            r == self.sub_spec(o),
            r.wf(),
    {
        Vec3f { x: fx_sub(self.x, o.x), y: fx_sub(self.y, o.y), z: fx_sub(self.z, o.z) }
    }

    /// Every component multiplied by the scalar `k`.
    pub fn scale(self, k: i64) -> (r: Vec3f)
        requires
            self.wf(),
            in_range(k as int),
        ensures
            r == self.scale_spec(k as int),
            r.wf(),
    {
        Vec3f { x: fx_mul(self.x, k), y: fx_mul(self.y, k), z: fx_mul(self.z, k) }
    }

    /// Every component divided by the scalar `k`.
    pub fn div_scalar(self, k: i64) -> (r: Vec3f)
        requires
            self.wf(),
            in_range(k as int),
        ensures
            r == self.div_scalar_spec(k as int),
            r.wf(),
    {
        Vec3f { x: fx_div(self.x, k), y: fx_div(self.y, k), z: fx_div(self.z, k) }
    }

    /// Euclidean length.
    pub fn length(&self) -> (r: i64)
        requires
            self.wf(),
        ensures
            r == self.length_spec(),
            0 <= r <= LIMIT,
    {
        let x = self.x as i128;
        let y = self.y as i128;
        let z = self.z as i128;
        proof {
            assert(x * x <= LIMIT * LIMIT) by (nonlinear_arith)
                requires
                    -LIMIT <= x <= LIMIT,
            ;
            assert(y * y <= LIMIT * LIMIT) by (nonlinear_arith)
                requires
                    -LIMIT <= y <= LIMIT,
            ;
            assert(z * z <= LIMIT * LIMIT) by (nonlinear_arith)
                requires
                    -LIMIT <= z <= LIMIT,
            ;
            assert(0 <= x * x && 0 <= y * y && 0 <= z * z) by (nonlinear_arith);
        }
        let n = (x * x + y * y + z * z) as u128;
        let r = isqrt(n);
        if r > LIMIT as u128 {
            LIMIT
        } else {
            r as i64
        }
    }

    /// Divides every component by the length, in place. A zero vector stays zero.
    pub fn normalize(&mut self)
        requires
            old(self).wf(),
        ensures
            *final(self) == old(self).normalized_spec(),
            final(self).wf(),
    {
        let l = self.length();
        *self = self.div_scalar(l);
    }

    /// The cross product.
    pub fn cross(&self, v: Vec3f) -> (r: Vec3f)
        requires
            self.wf(),
            v.wf(),
        ensures
            r == self.cross_spec(v),
            r.wf(),
    {
        let (ax, ay, az) = (self.x as i128, self.y as i128, self.z as i128);
        let (bx, by, bz) = (v.x as i128, v.y as i128, v.z as i128);
        proof {
            assert forall|p: int, q: int| in_range(p) && in_range(q) implies -LIMIT * LIMIT <= p * q
                <= LIMIT * LIMIT by {
                assert(-LIMIT * LIMIT <= p * q <= LIMIT * LIMIT) by (nonlinear_arith)
                    requires
                        -LIMIT <= p <= LIMIT,
                        -LIMIT <= q <= LIMIT,
                ;
            }
            assert(in_range(ay as int) && in_range(bz as int));
        }
        let ex = ay * bz - az * by;
        let ey = az * bx - ax * bz;
        let ez = ax * by - ay * bx;
        let one: i128 = ONE as i128;
        let r = Vec3f {
            x: saturate(floor_div(ex, one)),
            y: saturate(floor_div(ey, one)),
            z: saturate(floor_div(ez, one)),
        };
        proof {
            assert(ex * 1 == ex && ey * 1 == ey && ez * 1 == ez);
        }
        r
    }

    pub open spec fn mul_elem_spec(self, o: Vec3f) -> Vec3f {
        Vec3f { x: mul_spec(self.x as int, o.x as int) as i64, y: mul_spec(self.y as int, o.y as int) as i64, z: mul_spec(self.z as int, o.z as int) as i64 }
    }

    pub open spec fn div_elem_spec(self, o: Vec3f) -> Vec3f {
        Vec3f { x: div_spec(self.x as int, o.x as int) as i64, y: div_spec(self.y as int, o.y as int) as i64, z: div_spec(self.z as int, o.z as int) as i64 }
    }

    pub open spec fn add_scalar_spec(self, k: int) -> Vec3f {
        Vec3f { x: sat64(self.x + k), y: sat64(self.y + k), z: sat64(self.z + k) }
    }

    pub open spec fn sub_scalar_spec(self, k: int) -> Vec3f {
        Vec3f { x: sat64(self.x - k), y: sat64(self.y - k), z: sat64(self.z - k) }
    }

    /// Componentwise product.
    pub fn mul(self, o: Vec3f) -> (r: Vec3f)
        requires
            self.wf(),
            o.wf(),
        ensures
            r == self.mul_elem_spec(o),
            r.wf(),
    {
        Vec3f { x: fx_mul(self.x, o.x), y: fx_mul(self.y, o.y), z: fx_mul(self.z, o.z) }
    }

    /// Componentwise quotient.
    pub fn div(self, o: Vec3f) -> (r: Vec3f)
        requires
            self.wf(),
            o.wf(),
        ensures
            r == self.div_elem_spec(o),
            r.wf(),
    {
        Vec3f { x: fx_div(self.x, o.x), y: fx_div(self.y, o.y), z: fx_div(self.z, o.z) }
    }

    /// The scalar `k` added to every component.
    pub fn add_scalar(self, k: i64) -> (r: Vec3f)
        requires
            self.wf(),
            in_range(k as int),
        ensures
            r == self.add_scalar_spec(k as int),
            r.wf(),
    {
        Vec3f { x: fx_add(self.x, k), y: fx_add(self.y, k), z: fx_add(self.z, k) }
    }

    /// The scalar `k` subtracted from every component.
    pub fn sub_scalar(self, k: i64) -> (r: Vec3f)
        requires
            self.wf(),
            in_range(k as int),
        ensures
            r == self.sub_scalar_spec(k as int),
            r.wf(),
    {
        Vec3f { x: fx_sub(self.x, k), y: fx_sub(self.y, k), z: fx_sub(self.z, k) }
    }

    /// Componentwise interpolation held at the ends (see `lerp`).
    pub fn lerp(a: Vec3f, b: Vec3f, t: i64) -> (r: Vec3f)
        requires
            a.wf(),
            b.wf(),
        ensures
            r == Vec3f::lerp_spec(a, b, t as int),
            r.wf(),
    {
        Vec3f { x: lerp(a.x, b.x, t), y: lerp(a.y, b.y, t), z: lerp(a.z, b.z, t) }
    }

    /// The first two components.
    pub fn vec2f(&self) -> (r: Vec2f)
        ensures
            r == (Vec2f { x: self.x, y: self.y }),
    {
        Vec2f { x: self.x, y: self.y }
    }

    /// The homogeneous 4-vector with `a` as its last component.
    pub fn vec4f(&self, a: i64) -> (r: Vec4f)
        ensures
            r == (Vec4f { x: self.x, y: self.y, z: self.z, w: a }),
    {
        Vec4f { x: self.x, y: self.y, z: self.z, w: a }
    }
}

impl Vec4f {
    pub open spec fn wf(&self) -> bool {
        in_range(self.x as int) && in_range(self.y as int) && in_range(self.z as int) && in_range(
            self.w as int,
        )
    }

    pub fn new(x: i64, y: i64, z: i64, w: i64) -> (r: Vec4f)
        ensures
            r == (Vec4f { x, y, z, w }),
    {
        Vec4f { x, y, z, w }
    }

    pub open spec fn add_spec(self, o: Vec4f) -> Vec4f {
        Vec4f { x: sat64(self.x + o.x), y: sat64(self.y + o.y), z: sat64(self.z + o.z), w: sat64(self.w + o.w) }
    }

    pub open spec fn sub_spec(self, o: Vec4f) -> Vec4f {
        Vec4f { x: sat64(self.x - o.x), y: sat64(self.y - o.y), z: sat64(self.z - o.z), w: sat64(self.w - o.w) }
    }

    pub open spec fn add_scalar_spec(self, k: int) -> Vec4f {
        Vec4f { x: sat64(self.x + k), y: sat64(self.y + k), z: sat64(self.z + k), w: sat64(self.w + k) }
    }

    pub open spec fn scale_spec(self, k: int) -> Vec4f {
        Vec4f {
            x: mul_spec(self.x as int, k) as i64,
            y: mul_spec(self.y as int, k) as i64,
            z: mul_spec(self.z as int, k) as i64,
            w: mul_spec(self.w as int, k) as i64,
        }
    }

    pub open spec fn div_scalar_spec(self, k: int) -> Vec4f {
        Vec4f {
            x: div_spec(self.x as int, k) as i64,
            y: div_spec(self.y as int, k) as i64,
            z: div_spec(self.z as int, k) as i64,
            w: div_spec(self.w as int, k) as i64,
        }
    }

    /// Componentwise sum.
    pub fn add(self, o: Vec4f) -> (r: Vec4f)
        requires
            self.wf(),
            o.wf(),
        ensures
            r == self.add_spec(o),
            r.wf(),
    {
        Vec4f {
            x: fx_add(self.x, o.x),
            y: fx_add(self.y, o.y),
            z: fx_add(self.z, o.z),
            w: fx_add(self.w, o.w),
        }
    }

    /// Componentwise difference.
    pub fn sub(self, o: Vec4f) -> (r: Vec4f)
        requires
            self.wf(),
            o.wf(),
        ensures
            r == self.sub_spec(o),
            r.wf(),
    {
        Vec4f {
            x: fx_sub(self.x, o.x),
            y: fx_sub(self.y, o.y),
            z: fx_sub(self.z, o.z),
            w: fx_sub(self.w, o.w),
        }
    }

    /// The scalar `k` added to every component.
    pub fn add_scalar(self, k: i64) -> (r: Vec4f)
        requires
            self.wf(),
            in_range(k as int),
        ensures
            r == self.add_scalar_spec(k as int),
            r.wf(),
    {
        Vec4f {
            x: fx_add(self.x, k),
            y: fx_add(self.y, k),
            z: fx_add(self.z, k),
            w: fx_add(self.w, k),
        }
    }

    /// Every component multiplied by the scalar `k`.
    pub fn scale(self, k: i64) -> (r: Vec4f)
        requires
            self.wf(),
            in_range(k as int),
        ensures
            r == self.scale_spec(k as int),
            r.wf(),
    {
        Vec4f {
            x: fx_mul(self.x, k),
            y: fx_mul(self.y, k),
            z: fx_mul(self.z, k),
            w: fx_mul(self.w, k),
        }
    }

    /// Every component divided by the scalar `k`.
    pub fn div_scalar(self, k: i64) -> (r: Vec4f)
        requires
            self.wf(),
            in_range(k as int),
        ensures
            r == self.div_scalar_spec(k as int),
            r.wf(),
    {
        Vec4f {
            x: fx_div(self.x, k),
            y: fx_div(self.y, k),
            z: fx_div(self.z, k),
            w: fx_div(self.w, k),
        }
    }

    pub open spec fn mul_elem_spec(self, o: Vec4f) -> Vec4f {
        Vec4f { x: mul_spec(self.x as int, o.x as int) as i64, y: mul_spec(self.y as int, o.y as int) as i64, z: mul_spec(self.z as int, o.z as int) as i64, w: mul_spec(self.w as int, o.w as int) as i64 }
    }

    pub open spec fn div_elem_spec(self, o: Vec4f) -> Vec4f {
        Vec4f { x: div_spec(self.x as int, o.x as int) as i64, y: div_spec(self.y as int, o.y as int) as i64, z: div_spec(self.z as int, o.z as int) as i64, w: div_spec(self.w as int, o.w as int) as i64 }
    }

    pub open spec fn sub_scalar_spec(self, k: int) -> Vec4f {
        Vec4f { x: sat64(self.x - k), y: sat64(self.y - k), z: sat64(self.z - k), w: sat64(self.w - k) }
    }

    /// Squared Euclidean norm, exact (scale `ONE * ONE`).
    pub open spec fn norm2(self) -> int {
        self.x * self.x + self.y * self.y + self.z * self.z + self.w * self.w
    }

    pub open spec fn length_spec(self) -> int {
        sat(isqrt_spec(self.norm2()))
    }

    pub open spec fn normalized_spec(self) -> Vec4f {
        self.div_scalar_spec(self.length_spec())
    }

    /// Componentwise product.
    pub fn mul(self, o: Vec4f) -> (r: Vec4f)
        requires
            self.wf(),
            o.wf(),
        ensures
            r == self.mul_elem_spec(o),
            r.wf(),
    {
        Vec4f { x: fx_mul(self.x, o.x), y: fx_mul(self.y, o.y), z: fx_mul(self.z, o.z), w: fx_mul(self.w, o.w) }
    }

    /// Componentwise quotient.
    pub fn div(self, o: Vec4f) -> (r: Vec4f)
        requires
            self.wf(),
            o.wf(),
        ensures
            r == self.div_elem_spec(o),
            r.wf(),
    {
        Vec4f { x: fx_div(self.x, o.x), y: fx_div(self.y, o.y), z: fx_div(self.z, o.z), w: fx_div(self.w, o.w) }
    }

    /// The scalar `k` subtracted from every component.
    pub fn sub_scalar(self, k: i64) -> (r: Vec4f)
        requires
            self.wf(),
            in_range(k as int),
        ensures
            r == self.sub_scalar_spec(k as int),
            r.wf(),
    {
        Vec4f { x: fx_sub(self.x, k), y: fx_sub(self.y, k), z: fx_sub(self.z, k), w: fx_sub(self.w, k) }
    }

    /// Euclidean length.
    pub fn length(&self) -> (r: i64)
        requires
            self.wf(),
        ensures
            r == self.length_spec(),
            0 <= r <= LIMIT,
    {
        let x = self.x as i128;
        let y = self.y as i128;
        let z = self.z as i128;
        let w = self.w as i128;
        proof {
            assert(x * x <= LIMIT * LIMIT && 0 <= x * x) by (nonlinear_arith)
                requires
                    -LIMIT <= x <= LIMIT,
            ;
            assert(y * y <= LIMIT * LIMIT && 0 <= y * y) by (nonlinear_arith)
                requires
                    -LIMIT <= y <= LIMIT,
            ;
            assert(z * z <= LIMIT * LIMIT && 0 <= z * z) by (nonlinear_arith)
                requires
                    -LIMIT <= z <= LIMIT,
            ;
            assert(w * w <= LIMIT * LIMIT && 0 <= w * w) by (nonlinear_arith)
                requires
                    -LIMIT <= w <= LIMIT,
            ;
        }
        let n = (x * x + y * y + z * z + w * w) as u128;
        let r = isqrt(n);
        if r > LIMIT as u128 {
            LIMIT
        } else {
            r as i64
        }
    }

    /// Divides every component by the length, in place. A zero vector stays zero.
    pub fn normalize(&mut self)
        requires
            old(self).wf(),
        ensures
            *final(self) == old(self).normalized_spec(),
            final(self).wf(),
    {
        let l = self.length();
        *self = self.div_scalar(l);
    }

    /// Component `i` (0 to 3).
    pub open spec fn get(self, i: int) -> int {
        if i == 0 {
            self.x as int
        } else if i == 1 {
            self.y as int
        } else if i == 2 {
            self.z as int
        } else {
            self.w as int
        }
    }

    /// The first two components.
    pub fn vec2f(&self) -> (r: Vec2f)
        ensures
            r == (Vec2f { x: self.x, y: self.y }),
    {
        Vec2f { x: self.x, y: self.y }
    }

    /// The first three components; the last is dropped, not divided through.
    pub fn vec3f(&self) -> (r: Vec3f)
        ensures
            r == (Vec3f { x: self.x, y: self.y, z: self.z }),
    {
        Vec3f { x: self.x, y: self.y, z: self.z }
    }
}

/// A corner of a triangle: position and colour.
#[derive(Clone, Copy, Debug, PartialEq, Eq)]
pub struct Vertex {
    pub p: Vec3f,
    pub c: Vec3f,
}

impl Vertex {
    pub open spec fn wf(&self) -> bool {
        self.p.wf() && self.c.wf()
    }

    /// A white vertex at `(x, y, z)`.
    pub fn new(x: i64, y: i64, z: i64) -> (r: Vertex)
        ensures
            r.p == (Vec3f { x, y, z }),
            r.c == (Vec3f { x: ONE, y: ONE, z: ONE }),
    {
        Vertex { p: Vec3f { x, y, z }, c: Vec3f { x: ONE, y: ONE, z: ONE } }
    }

    /// Sets the colour, keeping the position.
    pub fn color(&mut self, r: i64, g: i64, b: i64) -> (v: &Vertex)
        ensures
            final(self).p == old(self).p,
            final(self).c == (Vec3f { x: r, y: g, z: b }),
            *v == *final(self),
    {
        self.c = Vec3f { x: r, y: g, z: b };
        self
    }
}

/// One display coordinate: the clip interval `[MIN_SCREEN, MAX_SCREEN]` mapped
/// linearly onto `[0, size]` pixels.
pub open spec fn to_display_spec(v: int, size: int) -> int {
    sat(div_floor((v - MIN_SCREEN) * size * ONE, MAX_SCREEN - MIN_SCREEN))
}

fn to_display(v: i64, size: usize) -> (r: i64)
    requires
        in_range(v as int),
        1 <= size <= MAX_DIM,
    ensures
        r == to_display_spec(v as int, size as int),
{
    let d = v as i128 - MIN_SCREEN as i128;
    proof {
        assert(-(2 * LIMIT) * MAX_DIM * ONE <= d * size * ONE <= (2 * LIMIT) * MAX_DIM * ONE)
            by (nonlinear_arith)
            requires
                -2 * LIMIT <= d <= 2 * LIMIT,
                1 <= size <= MAX_DIM,
        ;
    }
    saturate(floor_div(d * size as i128 * ONE as i128, (MAX_SCREEN - MIN_SCREEN) as i128))
}

/// Maps a point of the clip square onto display coordinates of a
/// `width` by `height` display (a scalar per pixel).
pub fn toDCoords(p: Vec2f, width: usize, height: usize) -> (r: Vec2f)
    requires
        p.wf(),
        1 <= width <= MAX_DIM,
        1 <= height <= MAX_DIM,
    ensures
        r.x == to_display_spec(p.x as int, width as int),
        r.y == to_display_spec(p.y as int, height as int),
        r.wf(),
{
    Vec2f { x: to_display(p.x, width), y: to_display(p.y, height) }
}


pub open spec fn abs(x: int) -> int {
    if x < 0 {
        -x
    } else {
        x
    }
}

/// Sum of the magnitudes of the components.
pub open spec fn norm1(u: Vec3f) -> int {
    abs(u.x as int) + abs(u.y as int) + abs(u.z as int)
}

/// Dot product of `u` with the exact integer triple `e`.
pub open spec fn dot_exact(u: Vec3f, e: (int, int, int)) -> int {
    u.x * e.0 + u.y * e.1 + u.z * e.2
}

proof fn lemma_split(u: int, e: int, c: int, r: int, one: int)
    requires
        e == one * c + r,
    ensures
        u * e == one * (u * c) + u * r,
{
    assert(u * e == one * (u * c) + u * r) by (nonlinear_arith)
        requires
            e == one * c + r,
    ;
}

proof fn lemma_triple_zero(a0: int, a1: int, a2: int, b0: int, b1: int, b2: int)
    ensures
        a0 * (a1 * b2 - a2 * b1) + a1 * (a2 * b0 - a0 * b2) + a2 * (a0 * b1 - a1 * b0) == 0,
        b0 * (a1 * b2 - a2 * b1) + b1 * (a2 * b0 - a0 * b2) + b2 * (a0 * b1 - a1 * b0) == 0,
{
    assert(a0 * (a1 * b2 - a2 * b1) + a1 * (a2 * b0 - a0 * b2) + a2 * (a0 * b1 - a1 * b0) == 0)
        by (nonlinear_arith);
    assert(b0 * (a1 * b2 - a2 * b1) + b1 * (a2 * b0 - a0 * b2) + b2 * (a0 * b1 - a1 * b0) == 0)
        by (nonlinear_arith);
}

proof fn lemma_mul_rem_bound(a: int, r: int, one: int)
    requires
        0 <= r < one,
    ensures
        -(abs(a) * one) <= a * r <= abs(a) * one,
{
    if a < 0 {
        assert(-(abs(a) * one) <= a * r <= abs(a) * one) by (nonlinear_arith)
            requires
                0 <= r < one,
                a < 0,
                abs(a) == -a,
        ;
    } else {
        assert(-(abs(a) * one) <= a * r <= abs(a) * one) by (nonlinear_arith)
            requires
                0 <= r < one,
                a >= 0,
                abs(a) == a,
        ;
    }
}

proof fn lemma_rounded_dot(u: Vec3f, e: (int, int, int), c: Vec3f)
    requires
        dot_exact(u, e) == 0,
        c.x == e.0 / (ONE as int),
        c.y == e.1 / (ONE as int),
        c.z == e.2 / (ONE as int),
    ensures
        abs(dot3_exact(u, c)) <= norm1(u),
{
    let one = ONE as int;
    lemma_fundamental_div_mod(e.0, one);
    lemma_fundamental_div_mod(e.1, one);
    lemma_fundamental_div_mod(e.2, one);
    let (r0, r1, r2) = (e.0 % one, e.1 % one, e.2 % one);
    lemma_split(u.x as int, e.0, c.x as int, r0, one);
    lemma_split(u.y as int, e.1, c.y as int, r1, one);
    lemma_split(u.z as int, e.2, c.z as int, r2, one);
    assert(one * dot3_exact(u, c) == one * (u.x * c.x) + one * (u.y * c.y) + one * (u.z * c.z)) by (nonlinear_arith);
    lemma_mul_rem_bound(u.x as int, r0, one);
    lemma_mul_rem_bound(u.y as int, r1, one);
    lemma_mul_rem_bound(u.z as int, r2, one);
    assert(u.x * r0 <= abs(u.x as int) * one && u.x * r0 >= -(abs(u.x as int) * one));
    assert(u.y * r1 <= abs(u.y as int) * one && u.y * r1 >= -(abs(u.y as int) * one));
    assert(u.z * r2 <= abs(u.z as int) * one && u.z * r2 >= -(abs(u.z as int) * one));
    let d = dot3_exact(u, c);
    let n = norm1(u);
    assert(-(n * one) <= one * d <= n * one) by (nonlinear_arith)
        requires
            one * d == -(u.x * r0 + u.y * r1 + u.z * r2),
            u.x * r0 <= abs(u.x as int) * one,
            u.x * r0 >= -(abs(u.x as int) * one),
            u.y * r1 <= abs(u.y as int) * one,
            u.y * r1 >= -(abs(u.y as int) * one),
            u.z * r2 <= abs(u.z as int) * one,
            u.z * r2 >= -(abs(u.z as int) * one),
            n == abs(u.x as int) + abs(u.y as int) + abs(u.z as int),
    ;
    assert(-n <= d <= n) by (nonlinear_arith)
        requires
            -(n * one) <= one * d <= n * one,
            one > 0,
    ;
}

/// The exact cross product is orthogonal to both factors; rounded to scalars
/// (without saturation), its dot product with either factor stays within the
/// factor's summed component magnitudes, in units of `1 / (ONE * ONE)`.
pub proof fn lemma_cross_orthogonal(u: Vec3f, v: Vec3f)
    requires
        u.wf(),
        v.wf(),
        in_range(u.cross_exact(v).0 / (ONE as int)),
        in_range(u.cross_exact(v).1 / (ONE as int)),
        in_range(u.cross_exact(v).2 / (ONE as int)),
    ensures
        dot_exact(u, u.cross_exact(v)) == 0,
        dot_exact(v, u.cross_exact(v)) == 0,
        abs(dot3_exact(u, u.cross_spec(v))) <= norm1(u),
        abs(dot3_exact(v, u.cross_spec(v))) <= norm1(v),
{
    let e = u.cross_exact(v);
    lemma_triple_zero(u.x as int, u.y as int, u.z as int, v.x as int, v.y as int, v.z as int);
    let c = u.cross_spec(v);
    assert(e.0 * 1 == e.0 && e.1 * 1 == e.1 && e.2 * 1 == e.2);
    lemma_rounded_dot(u, e, c);
    lemma_rounded_dot(v, e, c);
}


proof fn lemma_isqrt_exists(n: int)
    requires
        n >= 0,
    ensures
        is_isqrt(isqrt_spec(n), n),
    decreases n,
{
    if n == 0 {
        assert(is_isqrt(0, 0));
    } else {
        lemma_isqrt_exists(n - 1);
        let r = isqrt_spec(n - 1);
        if (r + 1) * (r + 1) <= n {
            assert(n < (r + 2) * (r + 2)) by (nonlinear_arith)
                requires
                    n - 1 < (r + 1) * (r + 1),
                    r >= 0,
            ;
            assert(is_isqrt(r + 1, n));
        } else {
            assert(is_isqrt(r, n));
        }
    }
}

/// One component before and after division by the length `l`:
/// `l * n` is `y - r` for `y = v * ONE` and a remainder `0 <= r < l`.
proof fn lemma_unit_component(v: int, l: int, n: int)
    requires
        l >= 1,
        -l <= v <= l,
        n == (v * ONE) / l,
    ensures
        (l * n) * (l * n) <= (abs(v) * ONE + l) * (abs(v) * ONE + l),
        (l * n) * (l * n) >= (v * ONE) * (v * ONE) - 2 * l * (abs(v) * ONE),
        -(ONE + 1) <= n <= ONE + 1,
{
    let y = v * ONE;
    lemma_fundamental_div_mod(y, l);
    let r = y % l;
    assert(l * n == y - r);
    let x = l * n;
    assert(abs(y) == abs(v) * ONE) by (nonlinear_arith)
        requires
            y == v * ONE,
            abs(v) == if v < 0 {
                -v
            } else {
                v
            },
            abs(y) == if y < 0 {
                -y
            } else {
                y
            },
    ;
    assert(x * x <= (abs(y) + l) * (abs(y) + l)) by (nonlinear_arith)
        requires
            x == y - r,
            0 <= r < l,
            abs(y) == if y < 0 {
                -y
            } else {
                y
            },
    ;
    assert(x * x >= y * y - 2 * l * abs(y)) by (nonlinear_arith)
        requires
            x == y - r,
            0 <= r < l,
            abs(y) == if y < 0 {
                -y
            } else {
                y
            },
    ;
    assert(-(ONE + 1) <= n <= ONE + 1) by (nonlinear_arith)
        requires
            l * n == y - r,
            0 <= r < l,
            y == v * ONE,
            -l <= v <= l,
            l >= 1,
    ;
}

proof fn lemma_square_scale(l: int, u: int)
    ensures
        (l * u) * (l * u) == (l * l) * (u * u),
{
    assert((l * u) * (l * u) == (l * l) * (u * u)) by (nonlinear_arith);
}

proof fn lemma_distribute3(k: int, a: int, b: int, c: int)
    ensures
        k * (a + b + c) == k * a + k * b + k * c,
{
    assert(k * (a + b + c) == k * a + k * b + k * c) by (nonlinear_arith);
}

proof fn lemma_square_abs(a: int)
    ensures
        abs(a) * abs(a) == a * a,
        0 <= abs(a),
{
    if a < 0 {
        assert((-a) * (-a) == a * a) by (nonlinear_arith);
    }
}

proof fn lemma_upper_component(x: int, p: int, l: int)
    requires
        x * x <= (p * ONE + l) * (p * ONE + l),
        0 <= p <= l,
    ensures
        x * x <= 4294967296 * (p * p) + 131073 * (l * l),
{
    assert((p * 65536 + l) * (p * 65536 + l) <= 4294967296 * (p * p) + 131073 * (l * l))
        by (nonlinear_arith)
        requires
            0 <= p <= l,
    ;
}

proof fn lemma_lower_component(x: int, v: int, l: int)
    requires
        x * x >= (v * ONE) * (v * ONE) - 2 * l * (abs(v) * ONE),
        0 <= abs(v) <= l,
    ensures
        x * x >= 4294967296 * (v * v) - 131072 * (l * l),
{
    let p = abs(v);
    assert((v * 65536) * (v * 65536) == 4294967296 * (v * v)) by (nonlinear_arith);
    assert(2 * l * (p * 65536) <= 131072 * (l * l)) by (nonlinear_arith)
        requires
            0 <= p <= l,
    ;
}

/// A vector of length at least one, below the largest scalar, normalizes to
/// length one to within four units of the last place.
pub proof fn lemma_normalize_unit(v: Vec3f)
    requires
        v.wf(),
        ONE <= v.length_spec() < LIMIT,
    ensures
        ONE - 4 <= v.normalized_spec().length_spec() <= ONE + 3,
{
    let big_n = v.norm2();
    assert(big_n >= 0) by (nonlinear_arith)
        requires
            big_n == v.x * v.x + v.y * v.y + v.z * v.z,
    ;
    lemma_isqrt_exists(big_n);
    let l = isqrt_spec(big_n);
    assert(l == v.length_spec());
    let (a, b, c) = (v.x as int, v.y as int, v.z as int);
    assert(-l <= a <= l && -l <= b <= l && -l <= c <= l) by (nonlinear_arith)
        requires
            a * a + b * b + c * c < (l + 1) * (l + 1),
            l >= 0,
    ;
    let u = v.normalized_spec();
    lemma_unit_component(a, l, (a * ONE) / l);
    lemma_unit_component(b, l, (b * ONE) / l);
    lemma_unit_component(c, l, (c * ONE) / l);
    assert(u.x == (a * ONE) / l && u.y == (b * ONE) / l && u.z == (c * ONE) / l);
    let s = u.norm2();
    let (xa, xb, xc) = (l * u.x, l * u.y, l * u.z);
    let ll = l * l;
    lemma_square_scale(l, u.x as int);
    lemma_square_scale(l, u.y as int);
    lemma_square_scale(l, u.z as int);
    lemma_distribute3(ll, u.x * u.x, u.y * u.y, u.z * u.z);
    assert(ll * s == xa * xa + xb * xb + xc * xc);
    let (pa, pb, pc) = (abs(a), abs(b), abs(c));
    lemma_square_abs(a);
    lemma_square_abs(b);
    lemma_square_abs(c);
    lemma_upper_component(xa, pa, l);
    lemma_upper_component(xb, pb, l);
    lemma_upper_component(xc, pc, l);
    lemma_lower_component(xa, a, l);
    lemma_lower_component(xb, b, l);
    lemma_lower_component(xc, c, l);
    assert(big_n <= ll + 2 * l) by (nonlinear_arith)
        requires
            big_n < (l + 1) * (l + 1),
            ll == l * l,
    ;
    assert(8589934592 * l <= 131072 * ll) by (nonlinear_arith)
        requires
            l >= 65536,
            ll == l * l,
    ;
    assert(ll * s < 4295491600 * ll);
    assert(ll * s >= 4294574080 * ll);
    assert(4294443024 <= s < 4295491600) by (nonlinear_arith)
        requires
            ll * s < 4295491600 * ll,
            ll * s >= 4294574080 * ll,
            ll >= 1,
    ;
    lemma_isqrt_exists(s);
    let r = isqrt_spec(s);
    assert(65532 <= r <= 65539) by (nonlinear_arith)
        requires
            r >= 0,
            r * r <= s,
            s < (r + 1) * (r + 1),
            4294443024 <= s < 4295491600,
    ;
}

} // verus!
