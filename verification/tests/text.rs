use mesh_codec::decimal::{push_decimal, read_u32};
use mesh_codec::obj::{
    from_obj, push_face_line, push_vertex_line, read_line, to_obj, Line, ObjError, ObjErrorKind,
    TextMesh, TextVertex,
};
use mesh_codec::split::{find_byte, split_spans};

fn vertex(x: &str, y: &str, z: &str) -> TextVertex {
    TextVertex { x: x.as_bytes().to_vec(), y: y.as_bytes().to_vec(), z: z.as_bytes().to_vec() }
}

fn decimal(n: u32) -> String {
    let mut out = Vec::new();
    push_decimal(&mut out, n);
    String::from_utf8(out).unwrap()
}

fn number(s: &str) -> Option<u32> {
    read_u32(s.as_bytes(), 0, s.len())
}

fn pieces(s: &str, sep: u8) -> Vec<String> {
    split_spans(s.as_bytes(), 0, s.len(), sep)
        .into_iter()
        .map(|(a, b)| s[a..b].to_string())
        .collect()
}

fn line(s: &str) -> Result<Line, ObjErrorKind> {
    read_line(s.as_bytes(), 0, s.len())
}

#[test]
fn decimal_digits_of_some_numbers() {
    assert_eq!(decimal(0), "0");
    assert_eq!(decimal(7), "7");
    assert_eq!(decimal(9), "9");
    assert_eq!(decimal(10), "10");
    assert_eq!(decimal(99), "99");
    assert_eq!(decimal(100), "100");
    assert_eq!(decimal(1005), "1005");
    assert_eq!(decimal(65536), "65536");
    assert_eq!(decimal(999_999_999), "999999999");
    assert_eq!(decimal(1_000_000_000), "1000000000");
    assert_eq!(decimal(4_294_967_295), "4294967295");
}

#[test]
fn decimal_is_appended() {
    let mut out = b"f ".to_vec();
    push_decimal(&mut out, 42);
    assert_eq!(out, b"f 42".to_vec());
}

#[test]
fn decimal_agrees_with_the_standard_library() {
    let mut n: u32 = 1;
    for _ in 0..2000 {
        n = n.wrapping_mul(1_664_525).wrapping_add(1_013_904_223);
        let shown = n >> (n % 32);
        assert_eq!(decimal(shown), format!("{}", shown));
        assert_eq!(number(&format!("{}", shown)), Some(shown));
    }
}

#[test]
fn numbers_are_read() {
    assert_eq!(number("0"), Some(0));
    assert_eq!(number("7"), Some(7));
    assert_eq!(number("007"), Some(7));
    assert_eq!(number("+12"), Some(12));
    assert_eq!(number("4294967295"), Some(u32::MAX));
    assert_eq!(number("0000000000000000000004294967295"), Some(u32::MAX));
    assert_eq!(number("+0"), Some(0));
}

#[test]
fn what_is_no_number_is_refused() {
    assert_eq!(number(""), None);
    assert_eq!(number("+"), None);
    assert_eq!(number("-"), None);
    assert_eq!(number("-1"), None);
    assert_eq!(number("-0"), None);
    assert_eq!(number("++1"), None);
    assert_eq!(number("1+"), None);
    assert_eq!(number("12a"), None);
    assert_eq!(number("a12"), None);
    assert_eq!(number("1 2"), None);
    assert_eq!(number(" 1"), None);
    assert_eq!(number("1."), None);
    assert_eq!(number("1/2/3"), None);
    assert_eq!(number("1_000"), None);
    assert_eq!(number("4294967296"), None);
    assert_eq!(number("42949672950"), None);
    assert_eq!(number("99999999999999999999999999999999"), None);
    assert_eq!(number("99999999999999999999999999999999x"), None);
}

#[test]
fn a_number_is_read_from_the_middle_of_a_text() {
    let text = b"f 12 345 6";
    assert_eq!(read_u32(text, 2, 4), Some(12));
    assert_eq!(read_u32(text, 5, 8), Some(345));
    assert_eq!(read_u32(text, 9, 10), Some(6));
    assert_eq!(read_u32(text, 4, 8), None);
    assert_eq!(read_u32(text, 3, 3), None);
}

#[test]
fn the_first_byte_is_found() {
    let text = b"ab cd ef";
    assert_eq!(find_byte(text, 0, 8, b' '), 2);
    assert_eq!(find_byte(text, 2, 8, b' '), 2);
    assert_eq!(find_byte(text, 3, 8, b' '), 5);
    assert_eq!(find_byte(text, 6, 8, b' '), 8);
    assert_eq!(find_byte(text, 0, 2, b' '), 2);
    assert_eq!(find_byte(text, 4, 4, b' '), 4);
    assert_eq!(find_byte(text, 0, 8, b'z'), 8);
}

#[test]
fn text_is_cut_at_each_separator() {
    assert_eq!(pieces("", b' '), vec![""]);
    assert_eq!(pieces("abc", b' '), vec!["abc"]);
    assert_eq!(pieces("a b", b' '), vec!["a", "b"]);
    assert_eq!(pieces("a  b", b' '), vec!["a", "", "b"]);
    assert_eq!(pieces(" a", b' '), vec!["", "a"]);
    assert_eq!(pieces("a ", b' '), vec!["a", ""]);
    assert_eq!(pieces(" ", b' '), vec!["", ""]);
    assert_eq!(pieces("f 1 2 3", b' '), vec!["f", "1", "2", "3"]);
    assert_eq!(pieces("x\ny\n", b'\n'), vec!["x", "y", ""]);
    for s in ["", "a b c", "  lead", "trail  ", "v 1.0 2.0 3.0", " ", "a  b   c"] {
        let expected: Vec<String> = s.split(' ').map(|p| p.to_string()).collect();
        assert_eq!(pieces(s, b' '), expected);
    }
}

#[test]
fn a_part_of_a_text_is_cut() {
    let text = b"xx a b yy";
    assert_eq!(split_spans(text, 3, 6, b' '), vec![(3, 4), (5, 6)]);
    assert_eq!(split_spans(text, 2, 3, b' '), vec![(2, 2), (3, 3)]);
    assert_eq!(split_spans(text, 4, 4, b' '), vec![(4, 4)]);
}

#[test]
fn lines_are_told_apart() {
    assert_eq!(line("f 1 2 3"), Ok(Line::Face([1, 2, 3])));
    assert_eq!(line("f +1 002 4294967295"), Ok(Line::Face([1, 2, u32::MAX])));
    assert_eq!(line("v 1.0 -2.5 3e4"), Ok(Line::Vertex(vertex("1.0", "-2.5", "3e4"))));
    assert_eq!(line("v a b c d e"), Ok(Line::Vertex(vertex("a", "b", "c"))));
    assert_eq!(line("v  1 2"), Ok(Line::Vertex(vertex("", "1", "2"))));
    assert_eq!(line("# a comment"), Ok(Line::Other));
    assert_eq!(line("#comment"), Ok(Line::Other));
    assert_eq!(line(""), Ok(Line::Other));
    assert_eq!(line("vn 0 0 1"), Ok(Line::Other));
    assert_eq!(line("vt 0 0"), Ok(Line::Other));
    assert_eq!(line(" f 1 2 3"), Ok(Line::Other));
    assert_eq!(line("g group"), Ok(Line::Other));
    assert_eq!(line("F 1 2 3"), Ok(Line::Other));
}

#[test]
fn a_face_needs_exactly_three_fields() {
    assert_eq!(line("f"), Err(ObjErrorKind::NonTriangularFace));
    assert_eq!(line("f 1"), Err(ObjErrorKind::NonTriangularFace));
    assert_eq!(line("f 1 2"), Err(ObjErrorKind::NonTriangularFace));
    assert_eq!(line("f 1 2 3 4"), Err(ObjErrorKind::NonTriangularFace));
    assert_eq!(line("f 1 2 3 "), Err(ObjErrorKind::NonTriangularFace));
    assert_eq!(line("f  1 2 3"), Err(ObjErrorKind::NonTriangularFace));
    assert_eq!(line("f x y z w"), Err(ObjErrorKind::NonTriangularFace));
}

#[test]
fn a_face_needs_three_indices() {
    assert_eq!(line("f 1 2 x"), Err(ObjErrorKind::InvalidIndex));
    assert_eq!(line("f 1 x 3"), Err(ObjErrorKind::InvalidIndex));
    assert_eq!(line("f x 2 3"), Err(ObjErrorKind::InvalidIndex));
    assert_eq!(line("f 1 2 "), Err(ObjErrorKind::InvalidIndex));
    assert_eq!(line("f 1  3"), Err(ObjErrorKind::InvalidIndex));
    assert_eq!(line("f 1/1 2/2 3/3"), Err(ObjErrorKind::InvalidIndex));
    assert_eq!(line("f 1 2 -3"), Err(ObjErrorKind::InvalidIndex));
    assert_eq!(line("f 1 2 4294967296"), Err(ObjErrorKind::InvalidIndex));
    assert_eq!(line("f 1 2 3\r"), Err(ObjErrorKind::InvalidIndex));
}

#[test]
fn a_vertex_needs_three_fields() {
    assert_eq!(line("v"), Err(ObjErrorKind::MissingCoordinate));
    assert_eq!(line("v 1"), Err(ObjErrorKind::MissingCoordinate));
    assert_eq!(line("v 1 2"), Err(ObjErrorKind::MissingCoordinate));
    assert_eq!(line("v 1 2 "), Ok(Line::Vertex(vertex("1", "2", ""))));
}

#[test]
fn a_line_is_read_from_the_middle_of_a_text() {
    let text = b"v 1 2 3\nf 4 5 6\n# end";
    assert_eq!(read_line(text, 8, 15), Ok(Line::Face([4, 5, 6])));
    assert_eq!(read_line(text, 0, 7), Ok(Line::Vertex(vertex("1", "2", "3"))));
    assert_eq!(read_line(text, 16, 21), Ok(Line::Other));
    assert_eq!(read_line(text, 8, 13), Err(ObjErrorKind::NonTriangularFace));
}

#[test]
fn a_text_is_read() {
    let text = b"# a triangle\nv 0 0 0\nv 1 0 0\nv 0 1 0\n\nf 1 2 3\n";
    let mesh = from_obj(text).unwrap();
    assert_eq!(
        mesh,
        TextMesh {
            vertices: vec![vertex("0", "0", "0"), vertex("1", "0", "0"), vertex("0", "1", "0")],
            faces: vec![[1, 2, 3]],
        }
    );
}

#[test]
fn vertices_and_faces_keep_their_order() {
    let text = b"f 3 2 1\nv a b c\nf 4 5 6\nvn 0 0 1\nv d e f\nf 7 8 9";
    let mesh = from_obj(text).unwrap();
    assert_eq!(mesh.vertices, vec![vertex("a", "b", "c"), vertex("d", "e", "f")]);
    assert_eq!(mesh.faces, vec![[3, 2, 1], [4, 5, 6], [7, 8, 9]]);
}

#[test]
fn an_empty_text_is_an_empty_mesh() {
    let empty = TextMesh { vertices: vec![], faces: vec![] };
    assert_eq!(from_obj(b""), Ok(empty.clone()));
    assert_eq!(from_obj(b"\n"), Ok(empty.clone()));
    assert_eq!(from_obj(b"\n\n\n"), Ok(empty.clone()));
    assert_eq!(from_obj(b"# nothing\n"), Ok(empty.clone()));
    assert_eq!(to_obj(&empty), Vec::<u8>::new());
}

#[test]
fn a_carriage_return_before_a_newline_is_dropped() {
    let text = b"v 1 2 3\r\nf 1 2 3\r\n";
    let mesh = from_obj(text).unwrap();
    assert_eq!(mesh.vertices, vec![vertex("1", "2", "3")]);
    assert_eq!(mesh.faces, vec![[1, 2, 3]]);
    // Only one is dropped, and only in front of a newline.
    assert_eq!(from_obj(b"v 1 2 3\r\r\n").unwrap().vertices, vec![vertex("1", "2", "3\r")]);
    assert_eq!(from_obj(b"v 1 2 3\r").unwrap().vertices, vec![vertex("1", "2", "3\r")]);
    assert_eq!(
        from_obj(b"f 1 2 3\r"),
        Err(ObjError { line: 0, kind: ObjErrorKind::InvalidIndex })
    );
    assert_eq!(from_obj(b"f 1 2 3\r\n").unwrap().faces, vec![[1, 2, 3]]);
    assert_eq!(from_obj(b"\r\nf 1 2 3").unwrap().faces, vec![[1, 2, 3]]);
}

#[test]
fn the_last_line_needs_no_newline() {
    assert_eq!(from_obj(b"f 1 2 3").unwrap().faces, vec![[1, 2, 3]]);
    assert_eq!(from_obj(b"v 1 2 3\nf 1 2 3").unwrap().faces, vec![[1, 2, 3]]);
}

#[test]
fn the_first_wrong_line_is_reported() {
    assert_eq!(
        from_obj(b"f 1 2 3 4\n"),
        Err(ObjError { line: 0, kind: ObjErrorKind::NonTriangularFace })
    );
    assert_eq!(
        from_obj(b"# head\nv 0 0 0\nf 1 2\nf a b c\n"),
        Err(ObjError { line: 2, kind: ObjErrorKind::NonTriangularFace })
    );
    assert_eq!(
        from_obj(b"v 0 0 0\n\n\nf 1 2 x\nv 1\n"),
        Err(ObjError { line: 3, kind: ObjErrorKind::InvalidIndex })
    );
    assert_eq!(
        from_obj(b"v 0 0 0\nv 1 2\nf 1 2 x"),
        Err(ObjError { line: 1, kind: ObjErrorKind::MissingCoordinate })
    );
    assert_eq!(
        from_obj(b"v 0 0 0\nf 1 2 3\nv"),
        Err(ObjError { line: 2, kind: ObjErrorKind::MissingCoordinate })
    );
}

#[test]
fn lines_are_written() {
    let mut out = Vec::new();
    push_vertex_line(&mut out, &vertex("1.5", "-2", "0"));
    assert_eq!(out, b"v 1.5 -2 0\n".to_vec());
    push_face_line(&mut out, &[0, 10, 4_294_967_295]);
    assert_eq!(out, b"v 1.5 -2 0\nf 0 10 4294967295\n".to_vec());
}

#[test]
fn a_mesh_is_written() {
    let mesh = TextMesh {
        vertices: vec![vertex("0", "0", "0"), vertex("1", "0", "0"), vertex("0", "1", "0")],
        faces: vec![[1, 2, 3], [65536, 7, 100]],
    };
    assert_eq!(
        to_obj(&mesh),
        b"v 0 0 0\nv 1 0 0\nv 0 1 0\nf 1 2 3\nf 65536 7 100\n".to_vec()
    );
}

#[test]
fn a_written_mesh_is_read_back() {
    let mesh = TextMesh {
        vertices: vec![
            vertex("0.25", "-1e-7", "inf"),
            vertex("", "", ""),
            vertex("#", "v", "f"),
            vertex("\r", "\t", "x\ry"),
        ],
        faces: vec![[0, 0, 0], [1, 2, 3], [u32::MAX, 0, 1_000_000_000], [9, 99, 999]],
    };
    assert_eq!(from_obj(&to_obj(&mesh)), Ok(mesh));
}
