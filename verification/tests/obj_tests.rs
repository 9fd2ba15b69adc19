use celi_renderer::obj::{parse_obj, space_char, ObjData, ObjError};

fn text(v: &[char]) -> String {
    v.iter().collect()
}

fn vertices(d: &ObjData) -> Vec<[String; 3]> {
    d.vertices.iter().map(|v| [text(&v.x), text(&v.y), text(&v.z)]).collect()
}

#[test]
fn space_char_agrees_with_std() {
    for u in 0u32..=0x10ffff {
        if let Some(c) = char::from_u32(u) {
            assert_eq!(space_char(c), c.is_whitespace(), "code point {:#x}", u);
        }
    }
}

#[test]
fn parse_cube_fragment() {
    let src = "# a comment\nv 1.0 -2.5 3\nv 0 0 0\nv 4 5 6\n\nvn 0 1 0\nf 1 2 3\nf 3 2 1\n";
    let d = parse_obj(src).unwrap();
    assert_eq!(
        vertices(&d),
        vec![
            ["1.0".to_string(), "-2.5".to_string(), "3".to_string()],
            ["0".to_string(), "0".to_string(), "0".to_string()],
            ["4".to_string(), "5".to_string(), "6".to_string()],
        ]
    );
    assert_eq!(d.faces, vec![[0, 1, 2], [2, 1, 0]]);
}

#[test]
fn parse_tolerates_spacing_and_crlf() {
    let src = "  v\t1  2   3  extra\r\n\tf +1 2 3 9\r\n";
    let d = parse_obj(src).unwrap();
    assert_eq!(vertices(&d), vec![["1".to_string(), "2".to_string(), "3".to_string()]]);
    assert_eq!(d.faces, vec![[0, 1, 2]]);
}

#[test]
fn parse_ignores_other_lines() {
    let src = "vt 1 2\nvertex 1 2 3\nff 1 2 3\no name\ns off";
    let d = parse_obj(src).unwrap();
    assert!(d.vertices.is_empty());
    assert!(d.faces.is_empty());
}

#[test]
fn parse_empty_text() {
    let d = parse_obj("").unwrap();
    assert!(d.vertices.is_empty());
    assert!(d.faces.is_empty());
}

#[test]
fn parse_vertex_missing_coordinate() {
    assert_eq!(
        parse_obj("v 1 2 3\nv 1 2\n").err(),
        Some(ObjError::MissingField { line: 2 })
    );
}

#[test]
fn parse_face_missing_index() {
    assert_eq!(parse_obj("f 1 2").err(), Some(ObjError::MissingField { line: 1 }));
}

#[test]
fn parse_face_zero_index() {
    assert_eq!(parse_obj("v 0 0 0\n\nf 1 0 1\n").err(), Some(ObjError::BadIndex { line: 3 }));
}

#[test]
fn parse_face_with_texture_indices_is_refused() {
    assert_eq!(parse_obj("f 1/1 2/2 3/3").err(), Some(ObjError::BadIndex { line: 1 }));
}

#[test]
fn parse_face_negative_or_signed_only() {
    assert_eq!(parse_obj("f -1 2 3").err(), Some(ObjError::BadIndex { line: 1 }));
    assert_eq!(parse_obj("f + 2 3").err(), Some(ObjError::BadIndex { line: 1 }));
    assert_eq!(parse_obj("f 1 2 ++3").err(), Some(ObjError::BadIndex { line: 1 }));
}

#[test]
fn parse_face_index_overflow() {
    let big = format!("f 1 2 {}0", usize::MAX);
    assert_eq!(parse_obj(&big).err(), Some(ObjError::BadIndex { line: 1 }));
    let max = format!("f 1 2 {}", usize::MAX);
    assert_eq!(parse_obj(&max).unwrap().faces, vec![[0, 1, usize::MAX - 1]]);
}

#[test]
fn parse_first_error_wins() {
    assert_eq!(
        parse_obj("f 1 x 3\nv 1\n").err(),
        Some(ObjError::BadIndex { line: 1 })
    );
    assert_eq!(parse_obj("f 0\n").err(), Some(ObjError::BadIndex { line: 1 }));
}

#[test]
fn parse_unicode_spaces_separate_words() {
    let src = "v\u{3000}1\u{a0}2\u{2003}3";
    let d = parse_obj(src).unwrap();
    assert_eq!(vertices(&d), vec![["1".to_string(), "2".to_string(), "3".to_string()]]);
}

#[test]
fn parse_joined_texts_join_meshes() {
    let a = "v 1 2 3\nf 1 1 1";
    let b = "v 4 5 6\nf 2 2 2\n";
    let joined = format!("{}\n{}", a, b);
    let da = parse_obj(a).unwrap();
    let db = parse_obj(b).unwrap();
    let dj = parse_obj(&joined).unwrap();
    let mut vs = vertices(&da);
    vs.extend(vertices(&db));
    assert_eq!(vertices(&dj), vs);
    let mut fs = da.faces.clone();
    fs.extend(db.faces.clone());
    assert_eq!(dj.faces, fs);
    assert_eq!(dj.faces, vec![[0, 0, 0], [1, 1, 1]]);
}
