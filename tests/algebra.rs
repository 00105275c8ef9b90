use rasterizer::fixed::{
    floor_div, fraction, fx_add, fx_div, fx_mul, fx_sub, lerp, lerp_unclamped, round_fx, saturate,
    LIMIT, ONE,
};
use rasterizer::matrix::Mat4;
use rasterizer::point::{toDCoords, Vec2f, Vec3f, Vec4f, Vertex};

fn v3(x: i64, y: i64, z: i64) -> Vec3f {
    Vec3f::new(x, y, z)
}

fn dot(a: Vec3f, b: Vec3f) -> i128 {
    a.x as i128 * b.x as i128 + a.y as i128 * b.y as i128 + a.z as i128 * b.z as i128
}

#[test]
fn floor_div_rounds_down() {
    assert_eq!(floor_div(7, 2), 3);
    assert_eq!(floor_div(-7, 2), -4);
    assert_eq!(floor_div(7, -2), -4);
    assert_eq!(floor_div(-8, 2), -4);
}

#[test]
fn scalar_arithmetic() {
    assert_eq!(fx_add(ONE, ONE / 2), 3 * ONE / 2);
    assert_eq!(fx_sub(ONE, 3 * ONE), -2 * ONE);
    assert_eq!(fx_mul(3 * ONE, ONE / 2), 3 * ONE / 2);
    assert_eq!(fx_mul(-ONE, ONE / 2), -ONE / 2);
    assert_eq!(fx_div(ONE, 4 * ONE), ONE / 4);
    assert_eq!(fx_div(-ONE, 3 * ONE), -21846);
}

#[test]
fn scalar_saturation() {
    assert_eq!(fx_add(LIMIT, ONE), LIMIT);
    assert_eq!(fx_sub(-LIMIT, ONE), -LIMIT);
    assert_eq!(fx_mul(LIMIT, 2 * ONE), LIMIT);
    assert_eq!(saturate(-(LIMIT as i128) * 3), -LIMIT);
    assert_eq!(fx_div(ONE, 0), LIMIT);
    assert_eq!(fx_div(-ONE, 0), -LIMIT);
    assert_eq!(fx_div(0, 0), 0);
}

#[test]
fn fraction_of_interval() {
    assert_eq!(fraction(1, 4), ONE / 4);
    assert_eq!(fraction(-1, 4), -ONE / 4);
    assert_eq!(fraction(5, 0), 0);
    assert_eq!(fraction(3, 2), 3 * ONE / 2);
}

#[test]
fn lerp_ends_and_clamp() {
    let (a, b) = (2 * ONE, 6 * ONE);
    assert_eq!(lerp(a, b, 0), a);
    assert_eq!(lerp(a, b, ONE), b);
    assert_eq!(lerp(a, b, ONE / 2), 4 * ONE);
    assert_eq!(lerp(a, b, ONE / 4), 3 * ONE);
    assert_eq!(lerp(a, b, -ONE), a);
    assert_eq!(lerp(a, b, 3 * ONE), b);
}

#[test]
fn lerp_unclamped_extrapolates() {
    let (a, b) = (2 * ONE, 6 * ONE);
    assert_eq!(lerp_unclamped(a, b, 0), a);
    assert_eq!(lerp_unclamped(a, b, ONE), b);
    assert_eq!(lerp_unclamped(a, b, 2 * ONE), 10 * ONE);
    assert_eq!(lerp_unclamped(a, b, -ONE), -2 * ONE);
    assert_eq!(lerp_unclamped(a, b, -ONE / 2), 0);
    assert_eq!(lerp_unclamped(0, LIMIT, 4 * ONE), LIMIT);
}

#[test]
fn vector_lerp_clamps() {
    let a = v3(0, 0, 0);
    let b = v3(ONE, 2 * ONE, -ONE);
    assert_eq!(Vec3f::lerp(a, b, ONE / 2), v3(ONE / 2, ONE, -ONE / 2));
    assert_eq!(Vec3f::lerp(a, b, -5), a);
    assert_eq!(Vec3f::lerp(a, b, 2 * ONE), b);
    let p = Vec2f::new(0, ONE);
    let q = Vec2f::new(ONE, 0);
    assert_eq!(Vec2f::lerp(p, q, ONE / 4), Vec2f::new(ONE / 4, 3 * ONE / 4));
    assert_eq!(Vec2f::lerp(p, q, 7 * ONE), q);
}

#[test]
fn rounding_to_pixels() {
    assert_eq!(round_fx(ONE / 2), 1);
    assert_eq!(round_fx(ONE / 2 - 1), 0);
    assert_eq!(round_fx(3 * ONE + ONE / 3), 3);
    assert_eq!(round_fx(-ONE / 3), 0);
    assert_eq!(round_fx(-ONE), -1);
}

#[test]
fn vector_arithmetic() {
    let a = v3(ONE, 2 * ONE, 3 * ONE);
    let b = v3(ONE / 2, -ONE, 0);
    assert_eq!(a.add(b), v3(3 * ONE / 2, ONE, 3 * ONE));
    assert_eq!(a.sub(b), v3(ONE / 2, 3 * ONE, 3 * ONE));
    assert_eq!(a.scale(2 * ONE), v3(2 * ONE, 4 * ONE, 6 * ONE));
    assert_eq!(a.div_scalar(2 * ONE), v3(ONE / 2, ONE, 3 * ONE / 2));
    let p = Vec2f::new(ONE, ONE);
    assert_eq!(p.add(Vec2f::new(ONE, -ONE)), Vec2f::new(2 * ONE, 0));
    assert_eq!(p.sub(Vec2f::new(ONE, -ONE)), Vec2f::new(0, 2 * ONE));
    let q = Vec4f::new(ONE, 2 * ONE, 3 * ONE, 4 * ONE);
    assert_eq!(q.add(q), Vec4f::new(2 * ONE, 4 * ONE, 6 * ONE, 8 * ONE));
    assert_eq!(q.sub(q), Vec4f::new(0, 0, 0, 0));
    assert_eq!(q.add_scalar(ONE), Vec4f::new(2 * ONE, 3 * ONE, 4 * ONE, 5 * ONE));
    assert_eq!(q.scale(ONE / 2), Vec4f::new(ONE / 2, ONE, 3 * ONE / 2, 2 * ONE));
    assert_eq!(q.div_scalar(2 * ONE), Vec4f::new(ONE / 2, ONE, 3 * ONE / 2, 2 * ONE));
}

#[test]
fn vector_conversions() {
    let a = v3(1, 2, 3);
    assert_eq!(a.vec2f(), Vec2f::new(1, 2));
    assert_eq!(a.vec4f(9), Vec4f::new(1, 2, 3, 9));
    let q = Vec4f::new(5, 6, 7, 8);
    assert_eq!(q.vec2f(), Vec2f::new(5, 6));
    assert_eq!(q.vec3f(), v3(5, 6, 7));
}

#[test]
fn length_is_euclidean() {
    assert_eq!(v3(3 * ONE, 4 * ONE, 0).length(), 5 * ONE);
    assert_eq!(v3(0, 0, 0).length(), 0);
    assert_eq!(v3(-2 * ONE, 0, 0).length(), 2 * ONE);
}

#[test]
fn normalize_gives_unit_length() {
    let mut v = v3(3 * ONE, 4 * ONE, 0);
    v.normalize();
    assert_eq!(v, v3(39321, 52428, 0));
    for w in [v3(ONE, ONE, ONE), v3(-7 * ONE, 2 * ONE, 11 * ONE), v3(123456, -654321, 99)] {
        let mut n = w;
        n.normalize();
        let l = n.length();
        assert!((l - ONE).abs() <= 3, "length {} for {:?}", l, w);
    }
    let mut z = v3(0, 0, 0);
    z.normalize();
    assert_eq!(z, v3(0, 0, 0));
}

#[test]
fn cross_of_axes() {
    let x = v3(ONE, 0, 0);
    let y = v3(0, ONE, 0);
    assert_eq!(x.cross(y), v3(0, 0, ONE));
    assert_eq!(y.cross(x), v3(0, 0, -ONE));
    assert_eq!(x.cross(x), v3(0, 0, 0));
}

#[test]
fn cross_is_orthogonal() {
    let pairs = [
        (v3(ONE, 2 * ONE, 3 * ONE), v3(-4 * ONE, ONE / 3, 2 * ONE)),
        (v3(12345, -67890, 4242), v3(-999, 31337, 77777)),
    ];
    for (u, v) in pairs {
        let c = u.cross(v);
        let bound_u = (u.x.abs() + u.y.abs() + u.z.abs()) as i128;
        let bound_v = (v.x.abs() + v.y.abs() + v.z.abs()) as i128;
        assert!(dot(u, c).abs() <= bound_u);
        assert!(dot(v, c).abs() <= bound_v);
        assert_ne!(c, v3(0, 0, 0));
    }
}

#[test]
fn display_mapping() {
    let c = toDCoords(Vec2f::new(0, 0), 64, 48);
    assert_eq!(c, Vec2f::new(32 * ONE, 24 * ONE));
    let lo = toDCoords(Vec2f::new(-5 * ONE, -5 * ONE), 640, 480);
    assert_eq!(lo, Vec2f::new(0, 0));
    let hi = toDCoords(Vec2f::new(5 * ONE, 5 * ONE), 640, 480);
    assert_eq!(hi, Vec2f::new(640 * ONE, 480 * ONE));
    let out = toDCoords(Vec2f::new(10 * ONE, -10 * ONE), 64, 48);
    assert_eq!(out, Vec2f::new(96 * ONE, -24 * ONE));
}

#[test]
fn vertex_builder() {
    let mut v = Vertex::new(ONE, 2 * ONE, 3 * ONE);
    assert_eq!(v.p, v3(ONE, 2 * ONE, 3 * ONE));
    assert_eq!(v.c, v3(ONE, ONE, ONE));
    let r = *v.color(ONE / 2, 0, ONE);
    assert_eq!(r.c, v3(ONE / 2, 0, ONE));
    assert_eq!(v.p, v3(ONE, 2 * ONE, 3 * ONE));
}

fn sample_matrix() -> Mat4 {
    Mat4 {
        c0: Vec4f::new(ONE, 2 * ONE, 3 * ONE, 4 * ONE),
        c1: Vec4f::new(-ONE, ONE / 2, 0, 7 * ONE),
        c2: Vec4f::new(5, -6, 7, -8),
        c3: Vec4f::new(0, 0, 9 * ONE, ONE),
    }
}

#[test]
fn identity_leaves_vectors_and_matrices() {
    let i = Mat4::identity();
    for v in [Vec4f::new(1, -2, 3, -4), Vec4f::new(ONE, 5 * ONE, -7 * ONE, ONE), Vec4f::new(LIMIT, -LIMIT, 0, 17)] {
        assert_eq!(i.mul_vec(v), v);
    }
    let m = sample_matrix();
    assert_eq!(i.mul(&m), m);
    assert_eq!(m.mul(&i), m);
}

#[test]
fn matrix_product_composes() {
    let m = sample_matrix();
    let n = Mat4::identity().translate3f(ONE, 2 * ONE, 3 * ONE);
    let v = Vec4f::new(ONE, ONE, ONE, ONE);
    assert_eq!(m.mul(&n).mul_vec(v), m.mul_vec(n.mul_vec(v)));
    assert_eq!(n.mul_vec(v), Vec4f::new(2 * ONE, 3 * ONE, 4 * ONE, ONE));
}

#[test]
fn matrix_elementwise() {
    let m = sample_matrix();
    let i = Mat4::identity();
    assert_eq!(m.add(&i).sub(&i), m);
    assert_eq!(i.scale(3 * ONE).c1, Vec4f::new(0, 3 * ONE, 0, 0));
    assert_eq!(i.div_scalar(2 * ONE).c2, Vec4f::new(0, 0, ONE / 2, 0));
    assert_eq!(i.add_scalar(ONE).c0, Vec4f::new(2 * ONE, ONE, ONE, ONE));
    assert_eq!(i.sub_scalar(ONE).c0, Vec4f::new(0, -ONE, -ONE, -ONE));
}

#[test]
fn translate_adds_to_last_column() {
    let m = Mat4::identity().translate3f(ONE, -ONE, 2 * ONE).translate3f(ONE, 0, 0);
    assert_eq!(m.c3, Vec4f::new(2 * ONE, -ONE, 2 * ONE, ONE));
    assert_eq!(m.c0, Vec4f::new(ONE, 0, 0, 0));
}

#[test]
fn rotate_quarter_turn_about_z() {
    let r = Mat4::identity().rotate(v3(0, 0, 5 * ONE), ONE, 0);
    assert_eq!(r.mul_vec(Vec4f::new(ONE, 0, 0, ONE)), Vec4f::new(0, ONE, 0, ONE));
    assert_eq!(r.mul_vec(Vec4f::new(0, ONE, 0, ONE)), Vec4f::new(-ONE, 0, 0, ONE));
    assert_eq!(r.mul_vec(Vec4f::new(0, 0, ONE, ONE)), Vec4f::new(0, 0, ONE, ONE));
}

#[test]
fn rotate_zero_angle_is_identity() {
    let r = Mat4::identity().rotate(v3(ONE, ONE, ONE), 0, ONE);
    let v = Vec4f::new(3 * ONE, -2 * ONE, ONE, ONE);
    let w = r.mul_vec(v);
    assert!((w.x - v.x).abs() <= 4 && (w.y - v.y).abs() <= 4 && (w.z - v.z).abs() <= 4);
    assert_eq!(w.w, ONE);
}

#[test]
fn rotate_composes_after_existing_transform() {
    let t = Mat4::identity().translate3f(ONE, 0, 0);
    let r = t.rotate(v3(0, 0, ONE), ONE, 0);
    let p = r.mul_vec(Vec4f::new(ONE, 0, 0, ONE));
    assert_eq!(p, Vec4f::new(ONE, ONE, 0, ONE));
}

#[test]
fn elementwise_products_and_scalars() {
    let a = v3(2 * ONE, -3 * ONE, ONE / 2);
    let b = v3(ONE / 2, 2 * ONE, 4 * ONE);
    assert_eq!(a.mul(b), v3(ONE, -6 * ONE, 2 * ONE));
    assert_eq!(a.div(b), v3(4 * ONE, -3 * ONE / 2, ONE / 8));
    assert_eq!(a.add_scalar(ONE), v3(3 * ONE, -2 * ONE, 3 * ONE / 2));
    assert_eq!(a.sub_scalar(ONE), v3(ONE, -4 * ONE, -ONE / 2));
    let p = Vec2f::new(3 * ONE, -ONE);
    assert_eq!(p.mul(Vec2f::new(ONE / 3, 5 * ONE)), Vec2f::new(ONE - 1, -5 * ONE));
    assert_eq!(p.div(Vec2f::new(2 * ONE, 0)), Vec2f::new(3 * ONE / 2, -LIMIT));
    assert_eq!(p.add_scalar(ONE), Vec2f::new(4 * ONE, 0));
    assert_eq!(p.sub_scalar(ONE), Vec2f::new(2 * ONE, -2 * ONE));
    assert_eq!(p.scale(2 * ONE), Vec2f::new(6 * ONE, -2 * ONE));
    assert_eq!(p.div_scalar(2 * ONE), Vec2f::new(3 * ONE / 2, -ONE / 2));
    let q = Vec4f::new(ONE, 2 * ONE, 3 * ONE, 4 * ONE);
    assert_eq!(q.mul(q), Vec4f::new(ONE, 4 * ONE, 9 * ONE, 16 * ONE));
    assert_eq!(q.div(q), Vec4f::new(ONE, ONE, ONE, ONE));
    assert_eq!(q.sub_scalar(ONE), Vec4f::new(0, ONE, 2 * ONE, 3 * ONE));
}

#[test]
fn length_and_normalize_in_two_and_four_dimensions() {
    assert_eq!(Vec2f::new(3 * ONE, -4 * ONE).length(), 5 * ONE);
    assert_eq!(Vec4f::new(ONE, ONE, ONE, ONE).length(), 2 * ONE);
    let mut p = Vec2f::new(0, -7 * ONE);
    p.normalize();
    assert_eq!(p, Vec2f::new(0, -ONE));
    let mut q = Vec4f::new(2 * ONE, 2 * ONE, 2 * ONE, 2 * ONE);
    q.normalize();
    assert_eq!(q, Vec4f::new(ONE / 2, ONE / 2, ONE / 2, ONE / 2));
    let big = Vec4f::new(LIMIT, LIMIT, -LIMIT, LIMIT);
    assert_eq!(big.length(), LIMIT);
}
