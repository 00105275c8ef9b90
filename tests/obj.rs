use rasterizer::fixed::{LIMIT, ONE};
use rasterizer::model::Model;
use rasterizer::obj::{parse_index, parse_scalar};
use rasterizer::point::Vec3f;

fn chars(s: &str) -> Vec<char> {
    s.chars().collect()
}

#[test]
fn scalars_read_as_decimals() {
    assert_eq!(parse_scalar(&chars("1.5")), Some(3 * ONE / 2));
    assert_eq!(parse_scalar(&chars("-0.5")), Some(-ONE / 2));
    assert_eq!(parse_scalar(&chars("5.")), Some(5 * ONE));
    assert_eq!(parse_scalar(&chars(".25")), Some(ONE / 4));
    assert_eq!(parse_scalar(&chars("-.25")), Some(-ONE / 4));
    assert_eq!(parse_scalar(&chars("007")), Some(7 * ONE));
    assert_eq!(parse_scalar(&chars("0")), Some(0));
}

#[test]
fn scalars_round_to_nearest() {
    assert_eq!(parse_scalar(&chars("0.00001")), Some(1));
    assert_eq!(parse_scalar(&chars("-0.00001")), Some(-1));
    assert_eq!(parse_scalar(&chars("0.000007")), Some(0));
    assert_eq!(parse_scalar(&chars("0.1")), Some(6554));
    assert_eq!(parse_scalar(&chars("0.1000000009")), Some(6554));
}

#[test]
fn scalars_saturate() {
    assert_eq!(parse_scalar(&chars("99999999999")), Some(LIMIT));
    assert_eq!(parse_scalar(&chars("-123456789012345678901234567890.5")), Some(-LIMIT));
    assert_eq!(parse_scalar(&chars("16777216")), Some(LIMIT));
    assert_eq!(parse_scalar(&chars("16777215")), Some(16777215 * ONE));
}

#[test]
fn malformed_scalars_are_refused() {
    for s in ["", "-", ".", "-.", "1.2.3", "1/2", "--1", "1-", "1.-5", "+1", "1e5"] {
        assert_eq!(parse_scalar(&chars(s)), None, "{:?}", s);
    }
}

#[test]
fn indices_are_one_based() {
    assert_eq!(parse_index(&chars("1")), Some(0));
    assert_eq!(parse_index(&chars("3/4/5")), Some(2));
    assert_eq!(parse_index(&chars("12//7")), Some(11));
    assert_eq!(parse_index(&chars("0007")), Some(6));
}

#[test]
fn malformed_indices_are_refused() {
    for s in ["", "0", "/3", "-1", "1.5", "0/1", "184467440737095516160"] {
        assert_eq!(parse_index(&chars(s)), None, "{:?}", s);
    }
}

#[test]
fn object_text_gives_vertices_and_faces() {
    let text = "# a comment\nv 1 2 3\nv -1.5 0.25 .5\r\nv 0 0 -2\nvn 0 0 1\nf 1 2 3\nf 3/1/1 2//5 1\ng group\n";
    let m = Model::parse_obj(text).unwrap();
    assert_eq!(m.verts.len(), 3);
    assert_eq!(m.verts[0].p, Vec3f::new(ONE, 2 * ONE, 3 * ONE));
    assert_eq!(m.verts[1].p, Vec3f::new(-3 * ONE / 2, ONE / 4, ONE / 2));
    assert_eq!(m.verts[2].p, Vec3f::new(0, 0, -2 * ONE));
    assert_eq!(m.verts[0].c, Vec3f::new(ONE, ONE, ONE));
    assert_eq!(m.faces, vec![(0, 1, 2), (2, 1, 0)]);
}

#[test]
fn last_line_needs_no_line_feed() {
    let m = Model::parse_obj("v 1 1 1\nf 1 1 1").unwrap();
    assert_eq!(m.verts.len(), 1);
    assert_eq!(m.faces, vec![(0, 0, 0)]);
}

#[test]
fn lines_of_another_shape_are_skipped() {
    let text = "v 1 2\nv  1 2 3\nv 1 2 3 4\nvt 1 2 3\nv 1 2 x\n\n\nv\t1 2 3\n";
    let m = Model::parse_obj(text).unwrap();
    assert_eq!(m.verts.len(), 0);
    assert_eq!(m.faces.len(), 0);
    assert_eq!(Model::parse_obj("").unwrap().verts.len(), 0);
}

#[test]
fn bad_fields_refuse_the_text() {
    assert!(Model::parse_obj("v 1 2 3\nv 1 2/3 3\n").is_none());
    assert!(Model::parse_obj("v 1 2 3\nf 0 1 1\n").is_none());
    assert!(Model::parse_obj("f 1 -2 1\n").is_none());
    assert!(Model::parse_obj("f 1 2 3\nv 1.2.3 0 0").is_none());
}
