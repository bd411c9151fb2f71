use obj_reader::obj::{parse, Face, ParseError, ParseErrorKind};

fn text(s: &str) -> String {
    s.to_string()
}

#[test]
fn face_with_all_three_indices() {
    let d = parse("f 1/2/3 4/5/6 7/8/9").unwrap();
    assert_eq!(d.faces.len(), 1);
    assert_eq!(
        d.faces[0],
        Face {
            vertices: vec![1, 4, 7],
            texture_vertices: Some(vec![2, 5, 8]),
            vertex_normals: Some(vec![3, 6, 9]),
        }
    );
}

#[test]
fn vertex_missing_z_fails() {
    let e = parse("v 1.0 2.0").unwrap_err();
    assert_eq!(e, ParseError { kind: ParseErrorKind::MissingField, line: 1, field: 3 });
}

#[test]
fn vertex_three_fields_has_no_w() {
    let d = parse("v 1.0 2.0 3.0").unwrap();
    assert_eq!(d.vertices.len(), 1);
    assert_eq!(d.vertices[0].x, text("1.0"));
    assert_eq!(d.vertices[0].y, text("2.0"));
    assert_eq!(d.vertices[0].z, text("3.0"));
    assert_eq!(d.vertices[0].w, None);
}

#[test]
fn vertex_four_fields_has_w() {
    let d = parse("v 1 -2 3e2 0.5").unwrap();
    assert_eq!(d.vertices[0].z, text("3e2"));
    assert_eq!(d.vertices[0].w, Some(text("0.5")));
}

#[test]
fn vertex_bad_fourth_field_is_left_out() {
    let d = parse("v 1 2 3 q").unwrap();
    assert_eq!(d.vertices[0].w, None);
}

#[test]
fn vertex_bad_coordinate() {
    let e = parse("v 1 abc 3").unwrap_err();
    assert_eq!(e, ParseError { kind: ParseErrorKind::InvalidNumber, line: 1, field: 2 });
}

#[test]
fn plain_corners_have_no_optional_lists() {
    let d = parse("f 1 2 3").unwrap();
    assert_eq!(
        d.faces[0],
        Face { vertices: vec![1, 2, 3], texture_vertices: None, vertex_normals: None }
    );
}

#[test]
fn corners_with_texture_only() {
    let d = parse("f 1/4 2/5 3/6").unwrap();
    assert_eq!(
        d.faces[0],
        Face { vertices: vec![1, 2, 3], texture_vertices: Some(vec![4, 5, 6]), vertex_normals: None }
    );
}

#[test]
fn empty_middle_part_is_skipped() {
    let d = parse("f 1//7 2//8 3//9").unwrap();
    assert_eq!(
        d.faces[0],
        Face { vertices: vec![1, 2, 3], texture_vertices: Some(vec![7, 8, 9]), vertex_normals: None }
    );
}

#[test]
fn negative_indices_are_kept() {
    let d = parse("f -1 -2 -2147483648").unwrap();
    assert_eq!(d.faces[0].vertices, vec![-1, -2, i32::MIN]);
}

#[test]
fn face_without_corners() {
    let e = parse("f").unwrap_err();
    assert_eq!(e, ParseError { kind: ParseErrorKind::EmptyFace, line: 1, field: 1 });
}

#[test]
fn corner_without_vertex_index() {
    let e = parse("f x/1 2 3").unwrap_err();
    assert_eq!(e, ParseError { kind: ParseErrorKind::MalformedCorner, line: 1, field: 1 });
}

#[test]
fn corner_missing_texture_index() {
    let e = parse("f 1/2 3 4/5").unwrap_err();
    assert_eq!(e, ParseError { kind: ParseErrorKind::MalformedCorner, line: 1, field: 2 });
}

#[test]
fn index_out_of_range() {
    let e = parse("f 1 2147483648 3").unwrap_err();
    assert_eq!(e, ParseError { kind: ParseErrorKind::MalformedCorner, line: 1, field: 2 });
}

#[test]
fn texture_vertex_fields() {
    let d = parse("vt 0.5\nvt 0.5 0.25\nvt 0.1 0.2 0.3").unwrap();
    assert_eq!(d.texture_vertices.len(), 3);
    assert_eq!(d.texture_vertices[0].u, text("0.5"));
    assert_eq!(d.texture_vertices[0].v, None);
    assert_eq!(d.texture_vertices[1].v, Some(text("0.25")));
    assert_eq!(d.texture_vertices[1].w, None);
    assert_eq!(d.texture_vertices[2].w, Some(text("0.3")));
}

#[test]
fn texture_vertex_without_u() {
    let e = parse("vt").unwrap_err();
    assert_eq!(e, ParseError { kind: ParseErrorKind::MissingField, line: 1, field: 1 });
}

#[test]
fn normal_fields() {
    let d = parse("vn 0 1 -1").unwrap();
    assert_eq!(d.vertex_normals[0].i, text("0"));
    assert_eq!(d.vertex_normals[0].j, text("1"));
    assert_eq!(d.vertex_normals[0].k, text("-1"));
    let e = parse("vn 0 1").unwrap_err();
    assert_eq!(e, ParseError { kind: ParseErrorKind::MissingField, line: 1, field: 3 });
}

#[test]
fn other_lines_are_ignored() {
    let d = parse("# comment\n\nmtllib a.mtl\no cube\nv 1 2 3\r\nusemtl m\n").unwrap();
    assert_eq!(d.vertices.len(), 1);
    assert_eq!(d.vertices[0].z, text("3"));
    assert!(d.texture_vertices.is_empty());
    assert!(d.vertex_normals.is_empty());
    assert!(d.faces.is_empty());
}

#[test]
fn empty_text() {
    let d = parse("").unwrap();
    assert!(d.vertices.is_empty() && d.faces.is_empty());
}

#[test]
fn error_names_its_line() {
    let e = parse("v 1 2 3\nvt 0.5\nvn 1 2 x\nv 1").unwrap_err();
    assert_eq!(e, ParseError { kind: ParseErrorKind::InvalidNumber, line: 3, field: 3 });
}

#[test]
fn records_keep_file_order() {
    let d = parse("v 1 1 1\nf 1 2 3\nv 2 2 2\nf 3 2 1\nv 3 3 3").unwrap();
    assert_eq!(d.vertices.len(), 3);
    assert_eq!(d.vertices[1].x, text("2"));
    assert_eq!(d.vertices[2].x, text("3"));
    assert_eq!(d.faces[1].vertices, vec![3, 2, 1]);
}

#[test]
fn number_literal_forms() {
    let d = parse("v inf -NaN +Infinity\nv .5 5. -3E-2 1e+7").unwrap();
    assert_eq!(d.vertices[0].y, text("-NaN"));
    assert_eq!(d.vertices[1].w, Some(text("1e+7")));
    for bad in ["v . 1 2", "v 1e 1 2", "v 1..2 1 2", "v -- 1 2", "v infinit 1 2", "v 0x1 1 2"] {
        let e = parse(bad).unwrap_err();
        assert_eq!(e.kind, ParseErrorKind::InvalidNumber, "{}", bad);
        assert_eq!(e.field, 1);
    }
}

#[test]
fn unicode_white_space_separates_fields() {
    let d = parse("v\u{3000}1\t2\u{a0}3").unwrap();
    assert_eq!(d.vertices[0].x, text("1"));
    assert_eq!(d.vertices[0].z, text("3"));
}

#[test]
fn literals_keep_non_ascii_neighbours_apart() {
    let e = parse("v 1 2 3é").unwrap_err();
    assert_eq!(e, ParseError { kind: ParseErrorKind::InvalidNumber, line: 1, field: 3 });
}
