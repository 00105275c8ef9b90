//! 4x4 matrices over fixed-point scalars, stored by columns.
use crate::fixed::{div_floor, floor_div, fx_add, fx_sub, in_range, sat, saturate, LIMIT, ONE};
use crate::point::{sat64, Vec3f, Vec4f};
use vstd::arithmetic::div_mod::lemma_fundamental_div_mod_converse;
use vstd::prelude::*;

verus! {

/// A 4x4 matrix given by its columns; `c3` holds the translation.
#[derive(Clone, Copy, Debug, PartialEq, Eq)]
pub struct Mat4 {
    pub c0: Vec4f,
    pub c1: Vec4f,
    pub c2: Vec4f,
    pub c3: Vec4f,
}

/// Saturated `(a.x*v.x + b.x*v.y + c.x*v.z + d.x*v.w) / ONE` on the row picked by `r`.
pub open spec fn row_dot(m: Mat4, r: int, v: Vec4f) -> i64 {
    sat64(
        div_floor(
            m.c0.get(r) * v.x + m.c1.get(r) * v.y + m.c2.get(r) * v.z + m.c3.get(r) * v.w,
            ONE as int,
        ),
    )
}

impl Mat4 {
    pub open spec fn wf(&self) -> bool {
        self.c0.wf() && self.c1.wf() && self.c2.wf() && self.c3.wf()
    }

    /// Column `c` (0 to 3).
    pub open spec fn col(self, c: int) -> Vec4f {
        if c == 0 {
            self.c0
        } else if c == 1 {
            self.c1
        } else if c == 2 {
            self.c2
        } else {
            self.c3
        }
    }

    /// The entry in column `c`, row `r`.
    pub open spec fn at(self, c: int, r: int) -> int {
        self.col(c).get(r)
    }

    pub open spec fn identity_spec() -> Mat4 {
        Mat4 {
            c0: Vec4f { x: ONE, y: 0, z: 0, w: 0 },
            c1: Vec4f { x: 0, y: ONE, z: 0, w: 0 },
            c2: Vec4f { x: 0, y: 0, z: ONE, w: 0 },
            c3: Vec4f { x: 0, y: 0, z: 0, w: ONE },
        }
    }

    pub open spec fn mul_vec_spec(self, v: Vec4f) -> Vec4f {
        Vec4f {
            x: row_dot(self, 0, v),
            y: row_dot(self, 1, v),
            z: row_dot(self, 2, v),
            w: row_dot(self, 3, v),
        }
    }

    pub open spec fn mul_spec(self, o: Mat4) -> Mat4 {
        Mat4 {
            c0: self.mul_vec_spec(o.c0),
            c1: self.mul_vec_spec(o.c1),
            c2: self.mul_vec_spec(o.c2),
            c3: self.mul_vec_spec(o.c3),
        }
    }

    pub open spec fn add_spec(self, o: Mat4) -> Mat4 {
        Mat4 {
            c0: self.c0.add_spec(o.c0),
            c1: self.c1.add_spec(o.c1),
            c2: self.c2.add_spec(o.c2),
            c3: self.c3.add_spec(o.c3),
        }
    }

    pub open spec fn sub_spec(self, o: Mat4) -> Mat4 {
        Mat4 {
            c0: self.c0.sub_spec(o.c0),
            c1: self.c1.sub_spec(o.c1),
            c2: self.c2.sub_spec(o.c2),
            c3: self.c3.sub_spec(o.c3),
        }
    }

    pub open spec fn add_scalar_spec(self, k: int) -> Mat4 {
        Mat4 {
            c0: self.c0.add_scalar_spec(k),
            c1: self.c1.add_scalar_spec(k),
            c2: self.c2.add_scalar_spec(k),
            c3: self.c3.add_scalar_spec(k),
        }
    }

    pub open spec fn scale_spec(self, k: int) -> Mat4 {
        Mat4 {
            c0: self.c0.scale_spec(k),
            c1: self.c1.scale_spec(k),
            c2: self.c2.scale_spec(k),
            c3: self.c3.scale_spec(k),
        }
    }

    pub open spec fn div_scalar_spec(self, k: int) -> Mat4 {
        Mat4 {
            c0: self.c0.div_scalar_spec(k),
            c1: self.c1.div_scalar_spec(k),
            c2: self.c2.div_scalar_spec(k),
            c3: self.c3.div_scalar_spec(k),
        }
    }

    pub open spec fn translate_spec(self, x: int, y: int, z: int) -> Mat4 {
        Mat4 {
            c3: Vec4f { x: sat64(self.c3.x + x), y: sat64(self.c3.y + y), z: sat64(self.c3.z + z), ..self.c3 },
            ..self
        }
    }

    /// The Rodrigues rotation about the unit vector `u`, from the sine `sn` and
    /// cosine `cs` of the angle: `u u^T + cs (I - u u^T) + sn [u]x`, with one
    /// in the bottom right corner.
    pub open spec fn rodrigues_spec(u: Vec3f, sn: int, cs: int) -> Mat4 {
        let t = Mat4::outer_spec(u);
        let k = Mat4::skew_spec(u).scale_spec(sn);
        let c = Mat4::identity_spec().sub_spec(t).scale_spec(cs);
        let r = t.add_spec(c).add_spec(k);
        Mat4 { c3: Vec4f { w: ONE, ..r.c3 }, ..r }
    }

    /// `u u^T` in the upper left 3x3 block, zero elsewhere.
    pub open spec fn outer_spec(u: Vec3f) -> Mat4 {
        Mat4 {
            c0: Vec4f { x: u.x, y: u.y, z: u.z, w: 0 }.scale_spec(u.x as int),
            c1: Vec4f { x: u.x, y: u.y, z: u.z, w: 0 }.scale_spec(u.y as int),
            c2: Vec4f { x: u.x, y: u.y, z: u.z, w: 0 }.scale_spec(u.z as int),
            c3: Vec4f { x: 0, y: 0, z: 0, w: 0 },
        }
    }

    /// The cross-product matrix of `u` in the upper left 3x3 block.
    pub open spec fn skew_spec(u: Vec3f) -> Mat4 {
        Mat4 {
            c0: Vec4f { x: 0, y: u.z, z: sat64(-u.y), w: 0 },
            c1: Vec4f { x: sat64(-u.z), y: 0, z: u.x, w: 0 },
            c2: Vec4f { x: u.y, y: sat64(-u.x), z: 0, w: 0 },
            c3: Vec4f { x: 0, y: 0, z: 0, w: 0 },
        }
    }

    pub open spec fn rotate_spec(self, axis: Vec3f, sn: int, cs: int) -> Mat4 {
        self.mul_spec(Mat4::rodrigues_spec(axis.normalized_spec(), sn, cs))
    }

    /// The identity matrix.
    pub fn identity() -> (r: Mat4)
        ensures
            r == Mat4::identity_spec(),
            r.wf(),
    {
        Mat4 {
            c0: Vec4f { x: ONE, y: 0, z: 0, w: 0 },
            c1: Vec4f { x: 0, y: ONE, z: 0, w: 0 },
            c2: Vec4f { x: 0, y: 0, z: ONE, w: 0 },
            c3: Vec4f { x: 0, y: 0, z: 0, w: ONE },
        }
    }

    fn row(&self, r: usize, v: Vec4f) -> (e: i64)
        requires
            self.wf(),
            v.wf(),
            r < 4,
        ensures
            e == row_dot(*self, r as int, v),
    {
        let (a, b, c, d) = if r == 0 {
            (self.c0.x, self.c1.x, self.c2.x, self.c3.x)
        } else if r == 1 {
            (self.c0.y, self.c1.y, self.c2.y, self.c3.y)
        } else if r == 2 {
            (self.c0.z, self.c1.z, self.c2.z, self.c3.z)
        } else {
            (self.c0.w, self.c1.w, self.c2.w, self.c3.w)
        };
        proof {
            assert forall|p: int, q: int| in_range(p) && in_range(q) implies -LIMIT * LIMIT <= p * q
                <= LIMIT * LIMIT by {
                assert(-LIMIT * LIMIT <= p * q <= LIMIT * LIMIT) by (nonlinear_arith)
                    requires
                        -LIMIT <= p <= LIMIT,
                        -LIMIT <= q <= LIMIT,
                ;
            }
            assert(in_range(a as int) && in_range(v.x as int));
            assert(in_range(b as int) && in_range(v.y as int));
            assert(in_range(c as int) && in_range(v.z as int));
            assert(in_range(d as int) && in_range(v.w as int));
        }
        let sum = a as i128 * v.x as i128 + b as i128 * v.y as i128 + c as i128 * v.z as i128
            + d as i128 * v.w as i128;
        saturate(floor_div(sum, ONE as i128))
    }

    /// The homogeneous transform `self * v`.
    pub fn mul_vec(&self, v: Vec4f) -> (r: Vec4f)
        requires
            self.wf(),
            v.wf(),
        ensures
            r == self.mul_vec_spec(v),
            r.wf(),
    {
        Vec4f { x: self.row(0, v), y: self.row(1, v), z: self.row(2, v), w: self.row(3, v) }
    }

    /// The matrix product `self * o`: `o` is applied first.
    pub fn mul(&self, o: &Mat4) -> (r: Mat4)
        requires
            self.wf(),
            o.wf(),
        ensures
            r == self.mul_spec(*o),
            r.wf(),
    {
        Mat4 {
            c0: self.mul_vec(o.c0),
            c1: self.mul_vec(o.c1),
            c2: self.mul_vec(o.c2),
            c3: self.mul_vec(o.c3),
        }
    }

    /// Elementwise sum.
    pub fn add(&self, o: &Mat4) -> (r: Mat4)
        requires
            self.wf(),
            o.wf(),
        ensures
            r == self.add_spec(*o),
            r.wf(),
    {
        Mat4 { c0: self.c0.add(o.c0), c1: self.c1.add(o.c1), c2: self.c2.add(o.c2), c3: self.c3.add(o.c3) }
    }

    /// Elementwise difference.
    pub fn sub(&self, o: &Mat4) -> (r: Mat4)
        requires
            self.wf(),
            o.wf(),
        ensures
            r == self.sub_spec(*o),
            r.wf(),
    {
        Mat4 { c0: self.c0.sub(o.c0), c1: self.c1.sub(o.c1), c2: self.c2.sub(o.c2), c3: self.c3.sub(o.c3) }
    }

    /// The scalar `k` added to every entry.
    pub fn add_scalar(&self, k: i64) -> (r: Mat4)
        requires
            self.wf(),
            in_range(k as int),
        ensures
            r == self.add_scalar_spec(k as int),
            r.wf(),
    {
        Mat4 {
            c0: self.c0.add_scalar(k),
            c1: self.c1.add_scalar(k),
            c2: self.c2.add_scalar(k),
            c3: self.c3.add_scalar(k),
        }
    }

    /// The scalar `k` subtracted from every entry.
    pub fn sub_scalar(&self, k: i64) -> (r: Mat4)
        requires
            self.wf(),
            in_range(k as int),
        ensures
            r == self.add_scalar_spec(-k),
            r.wf(),
    {
        self.add_scalar(-k)
    }

    /// Every entry multiplied by the scalar `k`.
    pub fn scale(&self, k: i64) -> (r: Mat4)
        requires
            self.wf(),
            in_range(k as int),
        ensures
            r == self.scale_spec(k as int),
            r.wf(),
    {
        Mat4 { c0: self.c0.scale(k), c1: self.c1.scale(k), c2: self.c2.scale(k), c3: self.c3.scale(k) }
    }

    /// Every entry divided by the scalar `k`.
    pub fn div_scalar(&self, k: i64) -> (r: Mat4)
        requires
            self.wf(),
            in_range(k as int),
        ensures
            r == self.div_scalar_spec(k as int),
            r.wf(),
    {
        Mat4 {
            c0: self.c0.div_scalar(k),
            c1: self.c1.div_scalar(k),
            c2: self.c2.div_scalar(k),
            c3: self.c3.div_scalar(k),
        }
    }

    /// Adds `(x, y, z)` to the translation column.
    pub fn translate3f(self, x: i64, y: i64, z: i64) -> (r: Mat4)
        requires
            self.wf(),
            in_range(x as int),
            in_range(y as int),
            in_range(z as int),
        ensures
            r == self.translate_spec(x as int, y as int, z as int),
            r.wf(),
    {
        let c3 = Vec4f {
            x: fx_add(self.c3.x, x),
            y: fx_add(self.c3.y, y),
            z: fx_add(self.c3.z, z),
            w: self.c3.w,
        };
        Mat4 { c3, ..self }
    }

    /// Composes the rotation about `axis` by the angle whose sine and cosine are
    /// `sn` and `cs` after this transform: `self * R`. The axis is normalized first.
    pub fn rotate(self, axis: Vec3f, sn: i64, cs: i64) -> (r: Mat4)
        requires
            self.wf(),
            axis.wf(),
            in_range(sn as int),
            in_range(cs as int),
        ensures
            r == self.rotate_spec(axis, sn as int, cs as int),
            r.wf(),
    {
        let mut u = axis;
        u.normalize();
        let base = Vec4f { x: u.x, y: u.y, z: u.z, w: 0 };
        let zero = Vec4f { x: 0, y: 0, z: 0, w: 0 };
        let t = Mat4 { c0: base.scale(u.x), c1: base.scale(u.y), c2: base.scale(u.z), c3: zero };
        let k = Mat4 {
            c0: Vec4f { x: 0, y: u.z, z: fx_sub(0, u.y), w: 0 },
            c1: Vec4f { x: fx_sub(0, u.z), y: 0, z: u.x, w: 0 },
            c2: Vec4f { x: u.y, y: fx_sub(0, u.x), z: 0, w: 0 },
            c3: zero,
        }.scale(sn);
        let c = Mat4::identity().sub(&t).scale(cs);
        let m = t.add(&c).add(&k);
        let rot = Mat4 { c3: Vec4f { w: ONE, ..m.c3 }, ..m };
        self.mul(&rot)
    }
}


/// The identity leaves every vector unchanged.
pub proof fn lemma_identity_mul_vec(v: Vec4f)
    requires
        v.wf(),
    ensures
        Mat4::identity_spec().mul_vec_spec(v) == v,
{
    let one = ONE as int;
    lemma_fundamental_div_mod_converse(one * v.x, one, v.x as int, 0);
    lemma_fundamental_div_mod_converse(one * v.y, one, v.y as int, 0);
    lemma_fundamental_div_mod_converse(one * v.z, one, v.z as int, 0);
    lemma_fundamental_div_mod_converse(one * v.w, one, v.w as int, 0);
}

/// The identity composed before a matrix leaves it unchanged.
pub proof fn lemma_identity_mul(m: Mat4)
    requires
        m.wf(),
    ensures
        Mat4::identity_spec().mul_spec(m) == m,
{
    lemma_identity_mul_vec(m.c0);
    lemma_identity_mul_vec(m.c1);
    lemma_identity_mul_vec(m.c2);
    lemma_identity_mul_vec(m.c3);
}

} // verus!
