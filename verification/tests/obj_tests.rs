use solar_sim::obj::{parse_face_vertex, parse_obj, ObjError, VertexRef};

fn toks(rec: &[Vec<u8>]) -> Vec<String> {
    rec.iter().map(|t| String::from_utf8(t.clone()).unwrap()).collect()
}

fn v(position: usize, tex_coord: Option<usize>, normal: Option<usize>) -> VertexRef {
    VertexRef { position, tex_coord, normal }
}

#[test]
fn face_vertex_parts() {
    assert_eq!(parse_face_vertex(b"1/2/3"), Ok((Some(1), Some(2), Some(3))));
    assert_eq!(parse_face_vertex(b"4"), Ok((Some(4), None, None)));
    assert_eq!(parse_face_vertex(b"4//6"), Ok((Some(4), None, Some(6))));
    assert_eq!(parse_face_vertex(b"4/5"), Ok((Some(4), Some(5), None)));
    assert_eq!(parse_face_vertex(b"/5/"), Ok((None, Some(5), None)));
    assert_eq!(parse_face_vertex(b"+7/8/9/10"), Ok((Some(7), Some(8), Some(9))));
    assert_eq!(parse_face_vertex(b"x/1"), Err(ObjError::InvalidIndex));
    assert_eq!(parse_face_vertex(b"1/-2"), Err(ObjError::InvalidIndex));
    assert_eq!(parse_face_vertex(b"4294967296"), Err(ObjError::IndexTooLarge));
    assert_eq!(parse_face_vertex(b"99999999999x"), Err(ObjError::IndexTooLarge));
    assert_eq!(parse_face_vertex(b"12x99999999999"), Err(ObjError::InvalidIndex));
    assert_eq!(parse_face_vertex(b"+"), Err(ObjError::InvalidIndex));
    assert_eq!(parse_face_vertex(b"+7//3"), Ok((Some(7), None, Some(3))));
    assert_eq!(parse_face_vertex(b"1/x/99999999999"), Err(ObjError::InvalidIndex));
    assert_eq!(parse_face_vertex(b"1/99999999999/x"), Err(ObjError::IndexTooLarge));
    assert_eq!(parse_face_vertex(b"4294967295"), Ok((Some(4294967295), None, None)));
}

#[test]
fn single_triangle() {
    let text = b"v 0 0 0\nv 1 0 0\nv 0 1 0\nvt 0.5 1\nvn 0 0 1\nf 1/1/1 2/1/1 3/1/1\n";
    let m = parse_obj(text).unwrap();
    assert_eq!(m.positions.len(), 3);
    assert_eq!(toks(&m.positions[1]), vec!["1", "0", "0"]);
    assert_eq!(toks(&m.tex_coords[0]), vec!["0.5", "1"]);
    assert_eq!(toks(&m.normals[0]), vec!["0", "0", "1"]);
    assert_eq!(m.vertices, vec![v(0, Some(0), Some(0)), v(1, Some(0), Some(0)), v(2, Some(0), Some(0))]);
    assert_eq!(m.indices, vec![0, 1, 2]);
}

#[test]
fn quad_becomes_fan_and_reuses_vertices() {
    let text = b"v 0 0 0\nv 1 0 0\nv 1 1 0\nv 0 1 0\nf 1 2 3 4\n";
    let m = parse_obj(text).unwrap();
    assert_eq!(m.indices, vec![0, 1, 2, 0, 2, 3]);
    assert_eq!(m.vertices.len(), 4);
    // No texture or normal records: defaults are used.
    assert_eq!(m.vertices[0], v(0, None, None));
}

#[test]
fn repeated_key_shares_vertex_across_faces() {
    let text = b"v 0 0 0\nv 1 0 0\nv 0 1 0\nv 1 1 0\nf 1 2 3\nf 2 4 3\n";
    let m = parse_obj(text).unwrap();
    assert_eq!(m.indices, vec![0, 1, 2, 1, 3, 2]);
    assert_eq!(m.vertices.len(), 4);
}

#[test]
fn comments_blank_lines_and_unknown_keywords() {
    let text = b"# a comment\n\n   \no object\nv 1 2 3\r\nv 4 5 6\r\nv 7 8 9\r\n#f 1 2 3\nf 1 2 3\r\n";
    let m = parse_obj(text).unwrap();
    assert_eq!(m.positions.len(), 3);
    assert_eq!(toks(&m.positions[2]), vec!["7", "8", "9"]);
    assert_eq!(m.indices, vec![0, 1, 2]);
}

#[test]
fn last_line_without_newline_is_kept() {
    let m = parse_obj(b"v 1 2 3").unwrap();
    assert_eq!(m.positions.len(), 1);
    let m = parse_obj(b"vt 1 2").unwrap();
    assert_eq!(m.tex_coords.len(), 1);
}

#[test]
fn last_line_with_extra_numbers_is_dropped() {
    // Only an exact count is stored at the end of the text.
    let m = parse_obj(b"v 1 2 3 4").unwrap();
    assert_eq!(m.positions.len(), 0);
    // Earlier lines keep their first three numbers.
    let m = parse_obj(b"v 1 2 3 4\nv 5 6 7").unwrap();
    assert_eq!(toks(&m.positions[0]), vec!["1", "2", "3"]);
    assert_eq!(m.positions.len(), 2);
}

#[test]
fn float_syntax_accepted() {
    let m = parse_obj(b"v -1.5e3 +.25 inf\nv NaN -Infinity 1.\nv 2E-2 0 0\n").unwrap();
    assert_eq!(m.positions.len(), 3);
}

#[test]
fn invalid_number() {
    assert_eq!(parse_obj(b"v 1 2 x\n").err(), Some(ObjError::InvalidNumber));
    assert_eq!(parse_obj(b"v 1 2 1e\n").err(), Some(ObjError::InvalidNumber));
    assert_eq!(parse_obj(b"vn . 1 2\n").err(), Some(ObjError::InvalidNumber));
}

#[test]
fn invalid_index() {
    assert_eq!(parse_obj(b"v 0 0 0\nf 1 a 1\n").err(), Some(ObjError::InvalidIndex));
    assert_eq!(parse_obj(b"v 0 0 0\nf 1 1 5000000000\n").err(), Some(ObjError::IndexTooLarge));
}

#[test]
fn face_too_small() {
    assert_eq!(parse_obj(b"v 0 0 0\nv 0 0 0\nf 1 2\n").err(), Some(ObjError::FaceTooSmall));
}

#[test]
fn missing_position() {
    assert_eq!(parse_obj(b"v 0 0 0\nvt 0 0\nf /1 /1 /1\n").err(), Some(ObjError::MissingPosition));
}

#[test]
fn short_attribute_line() {
    assert_eq!(parse_obj(b"v 1 2\nv 1 2 3\n").err(), Some(ObjError::ShortAttribute));
}

#[test]
fn zero_index() {
    assert_eq!(parse_obj(b"v 0 0 0\nf 0 1 1\n").err(), Some(ObjError::ZeroIndex));
}

#[test]
fn position_out_of_range() {
    assert_eq!(parse_obj(b"v 0 0 0\nf 1 2 3\n").err(), Some(ObjError::PositionOutOfRange));
}

#[test]
fn texture_defined_later_uses_default() {
    let m = parse_obj(b"v 0 0 0\nf 1/2 1/2 1/2\nvt 0 0\nvt 1 1\n").unwrap();
    assert_eq!(m.vertices, vec![v(0, None, None)]);
    assert_eq!(m.indices, vec![0, 0, 0]);
    assert_eq!(m.tex_coords.len(), 2);
}

#[test]
fn indices_name_vertices() {
    let text = b"v 0 0 0\nv 1 0 0\nv 1 1 0\nv 0 1 0\nv 2 2 2\nf 1 2 3 4 5\nf 5 4 1\n";
    let m = parse_obj(text).unwrap();
    assert_eq!(m.indices.len() % 3, 0);
    assert!(m.indices.iter().all(|&i| (i as usize) < m.vertices.len()));
    assert!(m.vertices.iter().all(|v| v.position < m.positions.len()));
}
