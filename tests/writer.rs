use obj_reader::obj::parse;
use obj_reader::write::write_obj;

#[test]
fn writes_one_line_per_record() {
    let d = parse("f 1/1/1 2/2/1 3/3/1\nvn 0 0 1\n# note\nvt 0.5\nv 1 2 3 1.0").unwrap();
    assert_eq!(write_obj(&d), "v 1 2 3 1.0\nvt 0.5\nvn 0 0 1\nf 1/1/1 2/2/1 3/3/1\n");
}

#[test]
fn writes_index_extremes() {
    let d = parse("f -2147483648 -1 0 2147483647 10 909").unwrap();
    assert_eq!(write_obj(&d), "f -2147483648 -1 0 2147483647 10 909\n");
}

#[test]
fn writes_corners_without_normals() {
    let d = parse("f 1/4 2/5 3/6\nf 7//8 9//10").unwrap();
    assert_eq!(write_obj(&d), "f 1/4 2/5 3/6\nf 7/8 9/10\n");
}

#[test]
fn parse_write_parse_is_stable() {
    let src = "o thing\nv 1.5 -2 3e1\nv 0 0 0 2\nvt 0.1 0.2 0.3\nvn 1 0 0\r\nf 1/1/1 2/1/1 1/1/1\nf 1 2 1\n";
    let d = parse(src).unwrap();
    let again = parse(&write_obj(&d)).unwrap();
    assert_eq!(again, d);
}

#[test]
fn texture_w_without_v_is_read_back_as_v() {
    let d = parse("vt 0.5 x 0.3").unwrap();
    assert_eq!(d.texture_vertices[0].v, None);
    assert_eq!(d.texture_vertices[0].w, Some("0.3".to_string()));
    let text = write_obj(&d);
    assert_eq!(text, "vt 0.5 0.3\n");
    let again = parse(&text).unwrap();
    assert_eq!(again.texture_vertices[0].v, Some("0.3".to_string()));
}

#[test]
fn empty_data_writes_nothing() {
    let d = parse("# nothing\n").unwrap();
    assert_eq!(write_obj(&d), "");
}
