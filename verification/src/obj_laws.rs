//! What holds of the text format: a mesh that was written is read back.

use vstd::prelude::*;
use crate::decimal::{decimal_digits, lemma_decimal_digits, lemma_parse_decimal_digits, parse_u32};
use crate::obj::{
    after,
    empty_mesh,
    face_line,
    face_writer,
    joined,
    lines,
    mesh_of_line,
    obj_parsing,
    obj_text,
    parse_line,
    read_lines,
    strip_cr,
    vertex_line,
    vertex_writer,
    LineView,
    ObjError,
    ObjErrorKind,
    TextMeshView,
    TextVertexView,
    CARRIAGE_RETURN,
    FACE_MARK,
    NEWLINE,
    SPACE,
    VERTEX_MARK,
};
use crate::repeat::concat_all;
use crate::split::{lemma_split_first, lemma_split_len, lemma_split_one, split};

verus! {

/// Whether a field of text holds neither a space nor a newline.
pub open spec fn is_plain(field: Seq<u8>) -> bool {
    forall|i: int| 0 <= i < field.len() ==> #[trigger] field[i] != SPACE && field[i] != NEWLINE
}

/// Whether the three fields of a vertex come back as they are when its line
/// is read: each is plain, and the last does not end in a carriage return.
pub open spec fn is_writable(v: TextVertexView) -> bool {
    &&& is_plain(v.x)
    &&& is_plain(v.y)
    &&& is_plain(v.z)
    &&& v.z.len() > 0 ==> v.z.last() != CARRIAGE_RETURN
}

/// The line of a vertex without the newline at its end.
pub open spec fn vertex_content(v: TextVertexView) -> Seq<u8> {
    seq![VERTEX_MARK, SPACE] + v.x + seq![SPACE] + v.y + seq![SPACE] + v.z
}

/// The line of a face without the newline at its end.
pub open spec fn face_content(f: [u32; 3]) -> Seq<u8> {
    seq![FACE_MARK, SPACE] + decimal_digits(f[0] as nat) + seq![SPACE] + decimal_digits(
        f[1] as nat,
    ) + seq![SPACE] + decimal_digits(f[2] as nat)
}

/// The mesh that the lines of a text hold, the first of them counted as line
/// number `index`.
pub open spec fn parsing_from(text: Seq<u8>, index: nat) -> Result<TextMeshView, ObjError> {
    read_lines(lines(text), index)
}

/// The digits of a number are plain and do not end in a carriage return.
pub proof fn lemma_decimal_digits_plain(n: nat)
    ensures
        is_plain(decimal_digits(n)),
        decimal_digits(n).len() > 0,
        decimal_digits(n).last() != CARRIAGE_RETURN,
{
    lemma_decimal_digits(n);
}

/// The line of a writable vertex, without its newline, holds that vertex. It
/// holds no newline and does not end in a carriage return.
pub proof fn lemma_parse_vertex_content(v: TextVertexView)
    requires
        is_writable(v),
    ensures
        parse_line(vertex_content(v)) == Ok::<LineView, ObjErrorKind>(LineView::Vertex(v)),
        forall|i: int| 0 <= i < vertex_content(v).len() ==> vertex_content(v)[i] != NEWLINE,
        strip_cr(vertex_content(v)) == vertex_content(v),
{
    let mark = seq![VERTEX_MARK];
    let tail2 = v.y + seq![SPACE] + v.z;
    let tail1 = v.x + seq![SPACE] + tail2;
    let content = vertex_content(v);
    assert(content =~= mark + seq![SPACE] + tail1);
    lemma_split_first(mark, SPACE, tail1);
    lemma_split_first(v.x, SPACE, tail2);
    lemma_split_first(v.y, SPACE, v.z);
    lemma_split_one(v.z, SPACE);
    let fields = split(content, SPACE);
    assert(fields =~= seq![mark, v.x, v.y, v.z]);
}

/// The line of a face, without its newline, holds that face. It holds no
/// newline and does not end in a carriage return.
pub proof fn lemma_parse_face_content(f: [u32; 3])
    ensures
        parse_line(face_content(f)) == Ok::<LineView, ObjErrorKind>(LineView::Face(f)),
        forall|i: int| 0 <= i < face_content(f).len() ==> face_content(f)[i] != NEWLINE,
        strip_cr(face_content(f)) == face_content(f),
{
    let mark = seq![FACE_MARK];
    let a = decimal_digits(f[0] as nat);
    let b = decimal_digits(f[1] as nat);
    let c = decimal_digits(f[2] as nat);
    let tail2 = b + seq![SPACE] + c;
    let tail1 = a + seq![SPACE] + tail2;
    let content = face_content(f);
    lemma_decimal_digits_plain(f[0] as nat);
    lemma_decimal_digits_plain(f[1] as nat);
    lemma_decimal_digits_plain(f[2] as nat);
    lemma_parse_decimal_digits(f[0]);
    lemma_parse_decimal_digits(f[1]);
    lemma_parse_decimal_digits(f[2]);
    assert(content =~= mark + seq![SPACE] + tail1);
    lemma_split_first(mark, SPACE, tail1);
    lemma_split_first(a, SPACE, tail2);
    lemma_split_first(b, SPACE, c);
    lemma_split_one(c, SPACE);
    let fields = split(content, SPACE);
    assert(fields =~= seq![mark, a, b, c]);
    assert(fields[0] == mark && fields[1] == a && fields[2] == b && fields[3] == c);
    assert(parse_u32(fields[1]) == Some(f[0]));
    assert(parse_u32(fields[2]) == Some(f[1]));
    assert(parse_u32(fields[3]) == Some(f[2]));
    let back = [f[0], f[1], f[2]];
    assert(back@ =~= f@);
    assert(back == f);
    assert(parse_line(content) == Ok::<LineView, ObjErrorKind>(LineView::Face(back)));
}

/// The lines of a text that starts with a line and its newline are that line,
/// without a carriage return at its end, and the lines of the rest.
pub proof fn lemma_lines_first(content: Seq<u8>, rest: Seq<u8>)
    requires
        forall|i: int| 0 <= i < content.len() ==> content[i] != NEWLINE,
    ensures
        lines(content + seq![NEWLINE] + rest) == seq![strip_cr(content)] + lines(rest),
{
    let text = content + seq![NEWLINE] + rest;
    lemma_split_first(content, NEWLINE, rest);
    lemma_split_len(rest, NEWLINE);
    let pieces = split(text, NEWLINE);
    let others = split(rest, NEWLINE);
    assert(pieces == seq![content] + others);
    assert(pieces.last() == others.last());
    assert(lines(text) =~= seq![strip_cr(content)] + lines(rest));
}

/// A text without bytes has no lines and holds the empty mesh.
pub proof fn lemma_parsing_nothing(index: nat)
    ensures
        parsing_from(Seq::<u8>::empty(), index) == Ok::<TextMeshView, ObjError>(empty_mesh()),
{
    let text = Seq::<u8>::empty();
    lemma_split_one(text, NEWLINE);
    assert(lines(text) =~= Seq::<Seq<u8>>::empty());
}

/// Reading a text that starts with a good line gives what the line holds, in
/// front of what the rest of the text gives.
pub proof fn lemma_parsing_first(content: Seq<u8>, rest: Seq<u8>, index: nat, item: LineView)
    requires
        forall|i: int| 0 <= i < content.len() ==> content[i] != NEWLINE,
        parse_line(strip_cr(content)) == Ok::<LineView, ObjErrorKind>(item),
    ensures
        parsing_from(content + seq![NEWLINE] + rest, index) == after(
            mesh_of_line(item),
            parsing_from(rest, index + 1),
        ),
{
    lemma_lines_first(content, rest);
    let all = lines(content + seq![NEWLINE] + rest);
    assert(all[0] == strip_cr(content));
    assert(all.drop_first() =~= lines(rest));
}

/// Reading the lines of writable vertices, followed by more text, gives the
/// vertices in front of what the rest of the text gives.
pub proof fn lemma_parsing_vertices(vertices: Seq<TextVertexView>, rest: Seq<u8>, index: nat)
    requires
        forall|i: int| 0 <= i < vertices.len() ==> is_writable(#[trigger] vertices[i]),
    ensures
        parsing_from(concat_all(vertices, vertex_writer()) + rest, index) == after(
            TextMeshView { vertices, faces: Seq::empty() },
            parsing_from(rest, index + vertices.len()),
        ),
    decreases vertices.len(),
{
    let done = TextMeshView { vertices, faces: Seq::empty() };
    if vertices.len() == 0 {
        assert(concat_all(vertices, vertex_writer()) + rest =~= rest);
        match parsing_from(rest, index) {
            Err(_) => {},
            Ok(found) => {
                assert(joined(done, found).vertices =~= found.vertices);
                assert(joined(done, found).faces =~= found.faces);
            },
        }
    } else {
        let v = vertices[0];
        let others = vertices.drop_first();
        let content = vertex_content(v);
        let behind = concat_all(others, vertex_writer()) + rest;
        assert(is_writable(v));
        assert forall|i: int| 0 <= i < others.len() implies is_writable(#[trigger] others[i]) by {
            assert(others[i] == vertices[i + 1]);
        }
        lemma_parse_vertex_content(v);
        assert(vertex_line(v) =~= content + seq![NEWLINE]);
        assert(concat_all(vertices, vertex_writer()) + rest =~= content + seq![NEWLINE] + behind);
        lemma_parsing_first(content, behind, index, LineView::Vertex(v));
        lemma_parsing_vertices(others, rest, index + 1);
        match parsing_from(rest, index + vertices.len()) {
            Err(_) => {},
            Ok(found) => {
                let one = mesh_of_line(LineView::Vertex(v));
                let later = TextMeshView { vertices: others, faces: Seq::empty() };
                assert(joined(one, joined(later, found)).vertices =~= joined(
                    done,
                    found,
                ).vertices);
                assert(joined(one, joined(later, found)).faces =~= joined(done, found).faces);
            },
        }
    }
}

/// Reading the lines of faces, followed by more text, gives the faces in
/// front of what the rest of the text gives.
pub proof fn lemma_parsing_faces(faces: Seq<[u32; 3]>, rest: Seq<u8>, index: nat)
    ensures
        parsing_from(concat_all(faces, face_writer()) + rest, index) == after(
            TextMeshView { vertices: Seq::empty(), faces },
            parsing_from(rest, index + faces.len()),
        ),
    decreases faces.len(),
{
    let done = TextMeshView { vertices: Seq::empty(), faces };
    if faces.len() == 0 {
        assert(concat_all(faces, face_writer()) + rest =~= rest);
        match parsing_from(rest, index) {
            Err(_) => {},
            Ok(found) => {
                assert(joined(done, found).vertices =~= found.vertices);
                assert(joined(done, found).faces =~= found.faces);
            },
        }
    } else {
        let f = faces[0];
        let others = faces.drop_first();
        let content = face_content(f);
        let behind = concat_all(others, face_writer()) + rest;
        lemma_parse_face_content(f);
        assert(face_line(f) =~= content + seq![NEWLINE]);
        assert(concat_all(faces, face_writer()) + rest =~= content + seq![NEWLINE] + behind);
        lemma_parsing_first(content, behind, index, LineView::Face(f));
        lemma_parsing_faces(others, rest, index + 1);
        match parsing_from(rest, index + faces.len()) {
            Err(_) => {},
            Ok(found) => {
                let one = mesh_of_line(LineView::Face(f));
                let later = TextMeshView { vertices: Seq::empty(), faces: others };
                assert(joined(one, joined(later, found)).vertices =~= joined(
                    done,
                    found,
                ).vertices);
                assert(joined(one, joined(later, found)).faces =~= joined(done, found).faces);
            },
        }
    }
}

/// Reading undoes writing: the text of a mesh whose vertices are writable
/// holds that mesh.
pub proof fn lemma_text_round_trip(mesh: TextMeshView)
    requires
        forall|i: int| 0 <= i < mesh.vertices.len() ==> is_writable(#[trigger] mesh.vertices[i]),
    ensures
        obj_parsing(obj_text(mesh)) == Ok::<TextMeshView, ObjError>(mesh),
{
    let vertex_text = concat_all(mesh.vertices, vertex_writer());
    let face_text = concat_all(mesh.faces, face_writer());
    let nothing = Seq::<u8>::empty();
    let count = mesh.vertices.len();
    assert(face_text =~= face_text + nothing);
    lemma_parsing_vertices(mesh.vertices, face_text + nothing, 0);
    lemma_parsing_faces(mesh.faces, nothing, count);
    lemma_parsing_nothing(count + mesh.faces.len());
    let first = TextMeshView { vertices: mesh.vertices, faces: Seq::empty() };
    let second = TextMeshView { vertices: Seq::empty(), faces: mesh.faces };
    let whole = joined(first, joined(second, empty_mesh()));
    assert(whole.vertices =~= mesh.vertices);
    assert(whole.faces =~= mesh.faces);
}

} // verus!
