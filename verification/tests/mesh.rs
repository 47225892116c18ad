use softrender::scene::{fan_triangles, resolve_index, classify, Entry, Face, ObjLoader, Object};
use softrender::text::{chars_of, is_whitespace, parse_i32, split_fields, split_tokens, Separator};

fn word(s: &str) -> Vec<char> {
    s.chars().collect()
}

fn words(parts: &[&str]) -> Vec<Vec<char>> {
    parts.iter().map(|p| word(p)).collect()
}

fn number(token: &Vec<char>) -> f32 {
    token.iter().collect::<String>().parse::<f32>().unwrap_or(0.0)
}

#[test]
fn test_parse_face_indexes() {
    let valid_data = "1/2/3";
    assert_eq!(ObjLoader::parse_face_indexes(&valid_data), (1, 2, 3));

    let missing_uv = "1//3";
    assert_eq!(ObjLoader::parse_face_indexes(&missing_uv), (1, 0, 3));

    let invalid_data = "x/y/z";
    assert_eq!(ObjLoader::parse_face_indexes(&invalid_data), (0, 0, 0));

    let only_vertex_index = "1";
    assert_eq!(ObjLoader::parse_face_indexes(&only_vertex_index), (1, 0, 0));

    let no_vertex_normal = "1/2";
    assert_eq!(ObjLoader::parse_face_indexes(&no_vertex_normal), (1, 2, 0));
}

#[test]
fn test_parse_point() {
    let valid_data = words(&["0.1", "0.2"]);
    let p = ObjLoader::parse_point(&valid_data).unwrap();
    assert_eq!((number(&p.u), number(&p.v)), (0.1, 0.2));

    let invalid_data = words(&["0.1", "zzz"]);
    let p = ObjLoader::parse_point(&invalid_data).unwrap();
    assert_eq!((number(&p.u), number(&p.v)), (0.1, 0.0));
}

#[test]
fn test_parse_vertex() {
    let valid_data = words(&["0.1", "0.2", "0.3"]);
    let v = ObjLoader::parse_vertex(&valid_data).unwrap();
    assert_eq!((number(&v.x), number(&v.y), number(&v.z)), (0.1, 0.2, 0.3));

    let invalid_data = words(&["0.1", "zzz", "0.3"]);
    let v = ObjLoader::parse_vertex(&invalid_data).unwrap();
    assert_eq!((number(&v.x), number(&v.y), number(&v.z)), (0.1, 0.0, 0.3));

    let extra_data_is_ignored = words(&["0.1", "0.2", "0.3", "0.4"]);
    let v = ObjLoader::parse_vertex(&extra_data_is_ignored).unwrap();
    assert_eq!((number(&v.x), number(&v.y), number(&v.z)), (0.1, 0.2, 0.3));
}

#[test]
fn parse_point_and_vertex_need_enough_numbers() {
    assert!(ObjLoader::parse_point(&words(&["0.1"])).is_none());
    assert!(ObjLoader::parse_point(&words(&[])).is_none());
    assert!(ObjLoader::parse_vertex(&words(&["0.1", "0.2"])).is_none());
    let p = ObjLoader::parse_point(&words(&["1", "2", "3"])).unwrap();
    assert_eq!((p.u, p.v), (word("1"), word("2")));
}

#[test]
fn obj_triangle_parse() {
    let obj = ObjLoader::load_obj("v 0 0 0\nv 1 0 0\nv 0 1 0\nf 1 2 3\n".to_string());
    assert_eq!(obj.vertices.len(), 3);
    assert_eq!(obj.faces.len(), 1);
    assert_eq!(obj.vertex_normals.len(), 0);
    assert_eq!(obj.uvs.len(), 0);
    let coords: Vec<(f32, f32, f32)> =
        obj.vertices.iter().map(|v| (number(&v.x), number(&v.y), number(&v.z))).collect();
    assert_eq!(coords, vec![(0.0, 0.0, 0.0), (1.0, 0.0, 0.0), (0.0, 1.0, 0.0)]);
    // The corners are stored in the reverse of their order in the text.
    let f = obj.faces[0];
    assert_eq!((f.v0, f.v1, f.v2), (2, 1, 0));
    assert_eq!((f.vn0, f.vn1, f.vn2), (-1, -1, -1));
    assert_eq!((f.uv0, f.uv1, f.uv2), (-1, -1, -1));
    assert_eq!((obj.texture.width, obj.texture.height, obj.texture.data.len()), (0, 0, 0));
}

#[test]
fn obj_quad_split() {
    let obj = ObjLoader::load_obj("f 1 2 3 4".to_string());
    assert_eq!(obj.faces.len(), 2);
    let (a, b) = (obj.faces[0], obj.faces[1]);
    assert_eq!((a.v0, a.v1, a.v2), (3, 1, 0));
    assert_eq!((b.v0, b.v1, b.v2), (3, 2, 1));
    // The two triangles share the edge between corners 4 and 2 and cover all four.
    let mut seen = vec![a.v0, a.v1, a.v2, b.v0, b.v1, b.v2];
    seen.sort();
    seen.dedup();
    assert_eq!(seen, vec![0, 1, 2, 3]);
}

#[test]
fn obj_face_with_all_attributes() {
    let obj = ObjLoader::load_obj("f 1/4/7 2/5/8 3/6/9\n".to_string());
    assert_eq!(
        obj.faces[0],
        Face { v0: 2, v1: 1, v2: 0, vn0: 8, vn1: 7, vn2: 6, uv0: 5, uv1: 4, uv2: 3 }
    );
}

#[test]
fn obj_lines_of_every_kind() {
    let text = "# a comment\no cube\r\n\n  v 1.5 -2 3e1 9\nvn 0 0 1\nvt 0.25 0.75\nvt 1\nv 1 2\n\
                g group\ns off\nmtllib a.mtl\nusemtl m\nf 1 2\nf 1 2 3 4 5\nvx 1 2 3\nf 1/1/1 1/1/1 1/1/1";
    let obj = ObjLoader::load_obj(text.to_string());
    assert_eq!(obj.vertices.len(), 1);
    assert_eq!(obj.vertices[0].x, word("1.5"));
    assert_eq!(obj.vertices[0].y, word("-2"));
    assert_eq!(obj.vertices[0].z, word("3e1"));
    assert_eq!(number(&obj.vertices[0].z), 30.0);
    assert_eq!(obj.vertex_normals.len(), 1);
    assert_eq!(obj.vertex_normals[0].z, word("1"));
    assert_eq!(obj.uvs.len(), 1);
    assert_eq!((obj.uvs[0].u.clone(), obj.uvs[0].v.clone()), (word("0.25"), word("0.75")));
    assert_eq!(obj.faces.len(), 1);
    assert_eq!(obj.faces[0].v0, 0);
}

#[test]
fn obj_empty_text() {
    let obj = ObjLoader::load_obj(String::new());
    assert_eq!(
        (obj.vertices.len(), obj.faces.len(), obj.vertex_normals.len(), obj.uvs.len()),
        (0, 0, 0, 0)
    );
    let fresh = Object::new();
    assert_eq!((fresh.vertices.len(), fresh.faces.len()), (0, 0));
}

#[test]
fn obj_face_index_wraps_at_the_least_integer() {
    let obj = ObjLoader::load_obj("f -2147483648 0 x".to_string());
    let f = obj.faces[0];
    assert_eq!((f.v2, f.v1, f.v0), (i32::MAX, -1, -1));
}

#[test]
fn classify_words() {
    assert_eq!(classify(&word("v")), Entry::Vertex);
    assert_eq!(classify(&word("vn")), Entry::Normal);
    assert_eq!(classify(&word("vt")), Entry::TexCoord);
    assert_eq!(classify(&word("f")), Entry::Face);
    assert_eq!(classify(&word("#")), Entry::Other);
    assert_eq!(classify(&word("vv")), Entry::Other);
    assert_eq!(classify(&word("")), Entry::Other);
    assert_eq!(classify(&word("fn")), Entry::Other);
}

#[test]
fn parse_i32_follows_the_decimal_form() {
    assert_eq!(parse_i32(&word("0")), Some(0));
    assert_eq!(parse_i32(&word("42")), Some(42));
    assert_eq!(parse_i32(&word("+42")), Some(42));
    assert_eq!(parse_i32(&word("-42")), Some(-42));
    assert_eq!(parse_i32(&word("-0")), Some(0));
    assert_eq!(parse_i32(&word("007")), Some(7));
    assert_eq!(parse_i32(&word("2147483647")), Some(i32::MAX));
    assert_eq!(parse_i32(&word("-2147483648")), Some(i32::MIN));
    assert_eq!(parse_i32(&word("2147483648")), None);
    assert_eq!(parse_i32(&word("-2147483649")), None);
    assert_eq!(parse_i32(&word("00000000000000000000000000000000000000012")), Some(12));
    assert_eq!(parse_i32(&word("99999999999999999999999999")), None);
    assert_eq!(parse_i32(&word("")), None);
    assert_eq!(parse_i32(&word("+")), None);
    assert_eq!(parse_i32(&word("-")), None);
    assert_eq!(parse_i32(&word("1.5")), None);
    assert_eq!(parse_i32(&word(" 1")), None);
    assert_eq!(parse_i32(&word("1a")), None);
    assert_eq!(parse_i32(&word("+-1")), None);
}

#[test]
fn parse_i32_agrees_with_std() {
    for s in ["12", "-7", "+3", "x", "", "-", "2147483647", "2147483648", "-2147483648", "0x10", "1_0"] {
        assert_eq!(parse_i32(&word(s)), s.parse::<i32>().ok());
    }
}

#[test]
fn tokens_and_fields() {
    let line = word("  v \t1  2\u{a0}3 ");
    assert_eq!(split_tokens(&line, Separator::Whitespace), words(&["v", "1", "2", "3"]));
    assert_eq!(split_tokens(&word(""), Separator::Whitespace), words(&[]));
    assert_eq!(split_tokens(&word(" \t "), Separator::Whitespace), words(&[]));
    assert_eq!(split_tokens(&word("a\n\nb\r\nc"), Separator::Newline), words(&["a", "b\r", "c"]));
    assert_eq!(split_fields(&word("1//3"), Separator::Slash), words(&["1", "", "3"]));
    assert_eq!(split_fields(&word(""), Separator::Slash), words(&[""]));
    assert_eq!(split_fields(&word("/"), Separator::Slash), words(&["", ""]));
    assert_eq!(split_fields(&word("12"), Separator::Slash), words(&["12"]));
    assert_eq!(chars_of("añb"), vec!['a', 'ñ', 'b']);
}

#[test]
fn tokens_agree_with_std() {
    for s in ["a b", " a\tb\u{2003}c ", "", "\u{3000}", "x\u{85}y", "a\u{200b}b"] {
        let expected: Vec<Vec<char>> = s.split_whitespace().map(|t| t.chars().collect()).collect();
        assert_eq!(split_tokens(&word(s), Separator::Whitespace), expected);
    }
}

#[test]
fn whitespace_agrees_with_std() {
    for code in 0u32..0x3100 {
        if let Some(c) = char::from_u32(code) {
            assert_eq!(is_whitespace(c), c.is_whitespace());
        }
    }
    assert_eq!(Separator::Slash.matches('/'), true);
    assert_eq!(Separator::Slash.matches(' '), false);
    assert_eq!(Separator::Newline.matches('\n'), true);
    assert_eq!(Separator::Newline.matches('\r'), false);
}

#[test]
fn fan_of_a_polygon() {
    assert_eq!(fan_triangles(0), vec![]);
    assert_eq!(fan_triangles(2), vec![]);
    assert_eq!(fan_triangles(3), vec![(0, 1, 2)]);
    assert_eq!(fan_triangles(5), vec![(0, 1, 2), (0, 2, 3), (0, 3, 4)]);
}

#[test]
fn index_resolution() {
    assert_eq!(resolve_index(0, 3), Some(0));
    assert_eq!(resolve_index(2, 3), Some(2));
    assert_eq!(resolve_index(3, 3), None);
    assert_eq!(resolve_index(-1, 3), None);
    assert_eq!(resolve_index(0, 0), None);
}
