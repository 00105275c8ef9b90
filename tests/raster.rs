use rasterizer::fixed::ONE;
use rasterizer::graphics::{to_rgb, GraphicsState};
use rasterizer::matrix::Mat4;
use rasterizer::model::Model;
use rasterizer::point::{Vec3f, Vertex};

/// A clip-square coordinate that lands on display pixel `px` of a display `size` wide.
fn clip(px: i64, size: i64) -> i64 {
    let num = px * 10 * ONE;
    (num + size - 1) / size - 5 * ONE
}

fn vert(px: i64, py: i64, z: i64, w: i64, h: i64) -> Vertex {
    Vertex::new(clip(px, w), clip(py, h), z)
}

fn example_triangle(z: i64) -> (Vertex, Vertex, Vertex) {
    (vert(10, 10, z, 64, 48), vert(50, 10, z, 64, 48), vert(30, 40, z, 64, 48))
}

fn fresh() -> GraphicsState {
    let mut st = GraphicsState::new(64, 48);
    st.clear_display(0, 0, 0);
    st.clear_depth_buffer(0);
    st
}

fn at(st: &GraphicsState, x: usize, y: usize) -> ((u8, u8, u8), i64) {
    let i = y * st.width + x;
    (st.d[i], st.depth_buffer[i])
}

#[test]
fn new_state_is_black_and_zero() {
    let st = GraphicsState::new(5, 3);
    assert_eq!(st.d.len(), 15);
    assert_eq!(st.depth_buffer.len(), 15);
    assert!(st.d.iter().all(|c| *c == (0, 0, 0)));
    assert!(st.depth_buffer.iter().all(|z| *z == 0));
}

#[test]
fn clearing_sets_every_entry() {
    let mut st = GraphicsState::new(4, 4);
    st.clear_display(1, 2, 3);
    assert!(st.d.iter().all(|c| *c == (1, 2, 3)));
    assert!(st.depth_buffer.iter().all(|z| *z == 0));
    st.clear_depth_buffer(-7);
    assert!(st.depth_buffer.iter().all(|z| *z == -7));
    assert!(st.d.iter().all(|c| *c == (1, 2, 3)));
}

#[test]
fn colour_conversion() {
    assert_eq!(to_rgb(Vec3f::new(0, ONE, ONE / 2)), (0, 255, 127));
    assert_eq!(to_rgb(Vec3f::new(-ONE, 2 * ONE, ONE / 4)), (0, 255, 63));
}

#[test]
fn scanline_interpolates_and_tests_depth() {
    let mut st = GraphicsState::new(8, 2);
    st.depth_buffer[8 + 3] = 10 * ONE;
    st.d[8 + 3] = (9, 9, 9);
    let black = Vec3f::new(0, 0, 0);
    let white = Vec3f::new(ONE, ONE, ONE);
    st.draw_scanline(ONE, 5 * ONE, 0, 4 * ONE, 1, black, white);
    assert_eq!(at(&st, 0, 1), ((0, 0, 0), 0));
    assert_eq!(at(&st, 1, 1), ((0, 0, 0), 0));
    assert_eq!(at(&st, 2, 1), ((63, 63, 63), ONE));
    assert_eq!(at(&st, 3, 1), ((9, 9, 9), 10 * ONE));
    assert_eq!(at(&st, 4, 1), ((191, 191, 191), 3 * ONE));
    assert_eq!(at(&st, 5, 1), ((0, 0, 0), 0));
    for x in 0..8 {
        assert_eq!(at(&st, x, 0), ((0, 0, 0), 0));
    }
}

#[test]
fn scanline_reversed_ends_and_clamped() {
    let mut st = GraphicsState::new(8, 1);
    st.clear_depth_buffer(-ONE);
    let c = Vec3f::new(ONE, 0, 0);
    st.draw_scanline(20 * ONE, -3 * ONE, ONE, ONE, 0, c, c);
    for x in 0..8 {
        assert_eq!(at(&st, x, 0), ((255, 0, 0), ONE));
    }
}

#[test]
fn end_to_end_triangle() {
    let mut st = fresh();
    let (a, b, c) = example_triangle(ONE);
    st.draw_tri(a, b, c);
    assert_eq!(at(&st, 5, 5), ((0, 0, 0), 0));
    assert_eq!(at(&st, 30, 20).1, ONE);
    assert_eq!(at(&st, 30, 35).1, ONE);
    assert_eq!(at(&st, 15, 12).1, ONE);
    assert_eq!(at(&st, 45, 12).1, ONE);
    assert_eq!(at(&st, 12, 30).1, 0);
    assert_eq!(at(&st, 48, 30).1, 0);
    for y in (0..10).chain(40..48) {
        for x in 0..64 {
            assert_eq!(at(&st, x, y), ((0, 0, 0), 0), "pixel {} {}", x, y);
        }
    }
    for y in 10..40 {
        let set: Vec<usize> = (0..64).filter(|&x| at(&st, x, y).1 == ONE).collect();
        assert!(!set.is_empty(), "row {}", y);
        let width = set.len() as i64;
        let expected = 40 * (40 - y as i64) / 30;
        assert!((width - expected).abs() <= 2, "row {} width {}", y, width);
        assert_eq!(set[set.len() - 1] - set[0] + 1, set.len(), "row {} has a gap", y);
        let centre = (set[0] + set[set.len() - 1]) as i64;
        assert!((centre - 60).abs() <= 2, "row {} centre {}", y, centre);
    }
}

#[test]
fn clockwise_triangle_is_culled() {
    let (a, b, c) = example_triangle(ONE);
    let mut st = fresh();
    st.draw_tri(a, c, b);
    assert!(st.depth_buffer.iter().all(|z| *z == 0));
    assert!(st.d.iter().all(|p| *p == (0, 0, 0)));
    st.draw_tri(a, b, c);
    assert!(st.depth_buffer.iter().any(|z| *z == ONE));
}

#[test]
fn drawing_twice_changes_nothing() {
    let a = vert(5, 3, ONE, 64, 48);
    let b = vert(58, 20, 2 * ONE, 64, 48);
    let c = vert(22, 45, ONE / 2, 64, 48);
    let mut st = fresh();
    st.draw_tri(a, b, c);
    let d = st.d.clone();
    let z = st.depth_buffer.clone();
    assert!(z.iter().any(|v| *v > ONE));
    st.draw_tri(a, b, c);
    assert_eq!(st.d, d);
    assert_eq!(st.depth_buffer, z);
}

#[test]
fn deeper_triangle_wins_in_either_order() {
    let (a1, b1, c1) = example_triangle(ONE);
    let a2 = vert(20, 5, 2 * ONE, 64, 48);
    let b2 = vert(60, 5, 2 * ONE, 64, 48);
    let c2 = vert(40, 35, 2 * ONE, 64, 48);
    let mut first = fresh();
    first.draw_tri(a1, b1, c1);
    first.draw_tri(a2, b2, c2);
    let mut second = fresh();
    second.draw_tri(a2, b2, c2);
    second.draw_tri(a1, b1, c1);
    assert_eq!(first.d, second.d);
    assert_eq!(first.depth_buffer, second.depth_buffer);
    assert_eq!(at(&first, 35, 20).1, 2 * ONE);
    assert_eq!(at(&first, 20, 20).1, ONE);
    let mut alone = fresh();
    alone.draw_tri(a2, b2, c2);
    assert_eq!(at(&first, 35, 20), at(&alone, 35, 20));
}

#[test]
fn model_with_identity_matches_triangle() {
    let (a, b, c) = example_triangle(ONE);
    let mut m = Model::new();
    m.verts.push(a);
    m.verts.push(b);
    m.verts.push(c);
    m.faces.push((0, 1, 2));
    let mut st = fresh();
    st.draw_model(&m, Mat4::identity());
    let mut direct = fresh();
    direct.draw_tri(a, b, c);
    assert_eq!(st.d, direct.d);
    assert_eq!(st.depth_buffer, direct.depth_buffer);
}

#[test]
fn model_transform_moves_the_image() {
    let (a, b, c) = example_triangle(ONE);
    let mut m = Model::new();
    m.verts.push(a);
    m.verts.push(b);
    m.verts.push(c);
    m.faces.push((0, 1, 2));
    m.faces.push((0, 2, 1));
    let shift = 10 * ONE * 10 / 64;
    let mat = Mat4::identity().translate3f(shift, 0, ONE);
    let mut st = fresh();
    st.draw_model(&m, mat);
    let moved = |v: Vertex| Vertex::new(v.p.x + shift, v.p.y, v.p.z + ONE);
    let mut direct = fresh();
    direct.draw_tri(moved(a), moved(b), moved(c));
    assert_eq!(st.depth_buffer, direct.depth_buffer);
    assert_eq!(st.d, direct.d);
    assert_eq!(at(&st, 58, 10).1, 2 * ONE);
    assert_eq!(at(&st, 15, 10).1, 0);
}

#[test]
fn empty_model_draws_nothing() {
    let mut st = fresh();
    st.draw_model(&Model::new(), Mat4::identity());
    assert!(st.depth_buffer.iter().all(|z| *z == 0));
}

#[test]
fn drawing_a_model_twice_changes_nothing() {
    let mut m = Model::new();
    m.verts.push(vert(5, 3, ONE, 64, 48));
    m.verts.push(vert(58, 20, 2 * ONE, 64, 48));
    m.verts.push(vert(22, 45, ONE / 2, 64, 48));
    m.verts.push(vert(40, 2, 3 * ONE, 64, 48));
    m.faces.push((0, 1, 2));
    m.faces.push((0, 3, 1));
    let mat = Mat4::identity().rotate(Vec3f::new(0, 0, ONE), 20000, 62410);
    let mut st = fresh();
    st.draw_model(&m, mat);
    let d = st.d.clone();
    let z = st.depth_buffer.clone();
    assert!(z.iter().any(|v| *v != 0));
    st.draw_model(&m, mat);
    assert_eq!(st.d, d);
    assert_eq!(st.depth_buffer, z);
}
