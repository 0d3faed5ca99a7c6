//! The text format of a mesh: one line for each vertex, `v` and three
//! numbers, and one line for each face, `f` and three indices, the fields of
//! a line set apart by single spaces.
//!
//! The three numbers of a vertex are carried as the text has them: what
//! number a field of text stands for is left to the caller.

use vstd::prelude::*;
use vstd::slice::{slice_subrange, slice_to_vec};
use crate::decimal::{decimal_digits, parse_u32, push_decimal, read_u32};
use crate::repeat::{concat_all, lemma_concat_all_push};
use crate::split::{lemma_split_len, pieces_at, spans_within, split, split_spans};

verus! {

/// The character that sets the fields of a line apart.
pub const SPACE: u8 = 32;

/// The character that ends a line.
pub const NEWLINE: u8 = 10;

/// The character that may stand in front of the one that ends a line.
pub const CARRIAGE_RETURN: u8 = 13;

/// The first field of a line that holds a face.
pub const FACE_MARK: u8 = 102;

/// The first field of a line that holds a vertex.
pub const VERTEX_MARK: u8 = 118;

/// The three numbers of a vertex, each as the text has it.
#[derive(Clone, Debug, PartialEq, Eq)]
pub struct TextVertex {
    pub x: Vec<u8>,
    pub y: Vec<u8>,
    pub z: Vec<u8>,
}

/// What a `TextVertex` holds, as three sequences.
pub ghost struct TextVertexView {
    pub x: Seq<u8>,
    pub y: Seq<u8>,
    pub z: Seq<u8>,
}

impl View for TextVertex {
    type V = TextVertexView;

    open spec fn view(&self) -> TextVertexView {
        TextVertexView { x: self.x@, y: self.y@, z: self.z@ }
    }
}

/// A mesh as the text format holds it: the vertices with their numbers as
/// text, and the faces.
#[derive(Clone, Debug, PartialEq, Eq)]
pub struct TextMesh {
    pub vertices: Vec<TextVertex>,
    pub faces: Vec<[u32; 3]>,
}

/// What a `TextMesh` holds, as two sequences.
pub ghost struct TextMeshView {
    pub vertices: Seq<TextVertexView>,
    pub faces: Seq<[u32; 3]>,
}

/// The views of the vertices, in order.
pub open spec fn vertex_views(vertices: Seq<TextVertex>) -> Seq<TextVertexView> {
    Seq::new(vertices.len(), |i: int| vertices[i]@)
}

impl View for TextMesh {
    type V = TextMeshView;

    open spec fn view(&self) -> TextMeshView {
        TextMeshView { vertices: vertex_views(self.vertices@), faces: self.faces@ }
    }
}

/// What is wrong with a line of text.
#[derive(Clone, Copy, Debug, PartialEq, Eq, Structural)]
pub enum ObjErrorKind {
    /// A face line does not have exactly three fields behind its mark.
    NonTriangularFace,
    /// A field of a face line is not an unsigned 32-bit integer in decimal.
    InvalidIndex,
    /// A vertex line has fewer than three fields behind its mark.
    MissingCoordinate,
}

/// Why a text is not a mesh: the first line that is wrong, counted from
/// zero, and what is wrong with it.
#[derive(Clone, Copy, Debug, PartialEq, Eq, Structural)]
pub struct ObjError {
    pub line: usize,
    pub kind: ObjErrorKind,
}

/// What a line of text holds.
#[derive(Clone, Debug, PartialEq, Eq)]
pub enum Line {
    /// A vertex, with its three numbers as text.
    Vertex(TextVertex),
    /// A face.
    Face([u32; 3]),
    /// Neither: a comment, an empty line, or a line of another kind.
    Other,
}

/// What a `Line` holds.
pub ghost enum LineView {
    Vertex(TextVertexView),
    Face([u32; 3]),
    Other,
}

impl View for Line {
    type V = LineView;

    open spec fn view(&self) -> LineView {
        match self {
            Line::Vertex(v) => LineView::Vertex(v@),
            Line::Face(f) => LineView::Face(*f),
            Line::Other => LineView::Other,
        }
    }
}

/// The text `s` without the carriage return at its end, if it has one.
pub open spec fn strip_cr(s: Seq<u8>) -> Seq<u8> {
    if s.len() > 0 && s.last() == CARRIAGE_RETURN {
        s.drop_last()
    } else {
        s
    }
}

/// The lines of a text. A newline ends a line, and a carriage return in
/// front of that newline is not part of the line. What follows the last
/// newline is a line too, unless it is empty.
pub open spec fn lines(text: Seq<u8>) -> Seq<Seq<u8>> {
    let pieces = split(text, NEWLINE);
    let ended = Seq::new((pieces.len() - 1) as nat, |i: int| strip_cr(pieces[i]));
    if pieces.last().len() == 0 {
        ended
    } else {
        ended.push(pieces.last())
    }
}

/// What a line holds, or what is wrong with it. The line is cut into fields
/// at each space. A first field `f` makes it a face line, which must have
/// exactly three more fields, each an index. A first field `v` makes it a
/// vertex line, which must have three more fields at least; those behind the
/// third are not looked at. Every other line holds nothing.
pub open spec fn parse_line(line: Seq<u8>) -> Result<LineView, ObjErrorKind> {
    let fields = split(line, SPACE);
    if fields[0] == seq![FACE_MARK] {
        if fields.len() != 4 {
            Err(ObjErrorKind::NonTriangularFace)
        } else {
            match (parse_u32(fields[1]), parse_u32(fields[2]), parse_u32(fields[3])) {
                (Some(a), Some(b), Some(c)) => Ok(LineView::Face([a, b, c])),
                _ => Err(ObjErrorKind::InvalidIndex),
            }
        }
    } else if fields[0] == seq![VERTEX_MARK] {
        if fields.len() < 4 {
            Err(ObjErrorKind::MissingCoordinate)
        } else {
            Ok(LineView::Vertex(TextVertexView { x: fields[1], y: fields[2], z: fields[3] }))
        }
    } else {
        Ok(LineView::Other)
    }
}

/// The mesh without vertices or faces.
pub open spec fn empty_mesh() -> TextMeshView {
    TextMeshView { vertices: Seq::empty(), faces: Seq::empty() }
}

/// The mesh that holds what one line holds.
pub open spec fn mesh_of_line(item: LineView) -> TextMeshView {
    match item {
        LineView::Vertex(v) => TextMeshView { vertices: seq![v], faces: Seq::empty() },
        LineView::Face(f) => TextMeshView { vertices: Seq::empty(), faces: seq![f] },
        LineView::Other => empty_mesh(),
    }
}

/// The vertices and faces of `first`, followed by those of `second`.
pub open spec fn joined(first: TextMeshView, second: TextMeshView) -> TextMeshView {
    TextMeshView {
        vertices: first.vertices + second.vertices,
        faces: first.faces + second.faces,
    }
}

/// The result of reading some lines, with the mesh `done` put in front.
pub open spec fn after(done: TextMeshView, result: Result<TextMeshView, ObjError>) -> Result<
    TextMeshView,
    ObjError,
> {
    match result {
        Ok(mesh) => Ok(joined(done, mesh)),
        Err(e) => Err(e),
    }
}

/// The mesh that the given lines hold, the first of them being line number
/// `index` of its text: the vertices in the order of their lines and the
/// faces in the order of theirs, or the first line that is wrong.
pub open spec fn read_lines(lines: Seq<Seq<u8>>, index: nat) -> Result<TextMeshView, ObjError>
    decreases lines.len(),
{
    if lines.len() == 0 {
        Ok(empty_mesh())
    } else {
        match parse_line(lines[0]) {
            Err(kind) => Err(ObjError { line: index as usize, kind }),
            Ok(item) => after(mesh_of_line(item), read_lines(lines.drop_first(), index + 1)),
        }
    }
}

/// The mesh that a text holds, or the first line that is wrong.
pub open spec fn obj_parsing(text: Seq<u8>) -> Result<TextMeshView, ObjError> {
    read_lines(lines(text), 0)
}

/// The line of a vertex.
pub open spec fn vertex_line(v: TextVertexView) -> Seq<u8> {
    seq![VERTEX_MARK, SPACE] + v.x + seq![SPACE] + v.y + seq![SPACE] + v.z + seq![NEWLINE]
}

/// The line of a face.
pub open spec fn face_line(f: [u32; 3]) -> Seq<u8> {
    seq![FACE_MARK, SPACE] + decimal_digits(f[0] as nat) + seq![SPACE] + decimal_digits(
        f[1] as nat,
    ) + seq![SPACE] + decimal_digits(f[2] as nat) + seq![NEWLINE]
}

/// `vertex_line` as a function value.
pub open spec fn vertex_writer() -> spec_fn(TextVertexView) -> Seq<u8> {
    |v: TextVertexView| vertex_line(v)
}

/// `face_line` as a function value.
pub open spec fn face_writer() -> spec_fn([u32; 3]) -> Seq<u8> {
    |f: [u32; 3]| face_line(f)
}

/// The text of a mesh: the lines of its vertices, then the lines of its
/// faces.
pub open spec fn obj_text(mesh: TextMeshView) -> Seq<u8> {
    concat_all(mesh.vertices, vertex_writer()) + concat_all(mesh.faces, face_writer())
}

/// Appends the bytes of `text`.
fn push_bytes(out: &mut Vec<u8>, text: &Vec<u8>)
    ensures
        final(out)@ == old(out)@ + text@,
{
    let mut i: usize = 0;
    while i < text.len()
        invariant
            i <= text.len(),
            out@ == old(out)@ + text@.take(i as int),
        decreases text.len() - i,
    {
        out.push(text[i]);
        assert(text@.take(i + 1) =~= text@.take(i as int).push(text@[i as int]));
        i += 1;
    }
    assert(text@.take(i as int) =~= text@);
}

/// Appends the line of a vertex.
pub fn push_vertex_line(out: &mut Vec<u8>, v: &TextVertex)
    ensures
        final(out)@ == old(out)@ + vertex_line(v@),
{
    out.push(VERTEX_MARK);
    out.push(SPACE);
    push_bytes(out, &v.x);
    out.push(SPACE);
    push_bytes(out, &v.y);
    out.push(SPACE);
    push_bytes(out, &v.z);
    out.push(NEWLINE);
    assert(out@ =~= old(out)@ + vertex_line(v@));
}

/// Appends the line of a face.
pub fn push_face_line(out: &mut Vec<u8>, f: &[u32; 3])
    ensures
        final(out)@ == old(out)@ + face_line(*f),
{
    out.push(FACE_MARK);
    out.push(SPACE);
    push_decimal(out, f[0]);
    out.push(SPACE);
    push_decimal(out, f[1]);
    out.push(SPACE);
    push_decimal(out, f[2]);
    out.push(NEWLINE);
    assert(out@ =~= old(out)@ + face_line(*f));
}

/// Writes a mesh as text.
pub fn to_obj(mesh: &TextMesh) -> (text: Vec<u8>)
    ensures
        text@ == obj_text(mesh@),
{
    let mut text: Vec<u8> = Vec::new();
    let ghost vertices = mesh@.vertices;
    let mut i: usize = 0;
    assert(vertices.take(0) =~= Seq::<TextVertexView>::empty());
    assert(concat_all(vertices.take(0), vertex_writer()) =~= Seq::<u8>::empty());
    while i < mesh.vertices.len()
        invariant
            i <= mesh.vertices.len(),
            vertices == mesh@.vertices,
            text@ == concat_all(vertices.take(i as int), vertex_writer()),
        decreases mesh.vertices.len() - i,
    {
        proof {
            lemma_concat_all_push(vertices.take(i as int), vertices[i as int], vertex_writer());
            assert(vertices.take(i as int).push(vertices[i as int]) =~= vertices.take(i + 1));
        }
        push_vertex_line(&mut text, &mesh.vertices[i]);
        i += 1;
    }
    assert(vertices.take(i as int) =~= vertices);
    let ghost head = text@;
    let mut j: usize = 0;
    assert(mesh.faces@.take(0) =~= Seq::<[u32; 3]>::empty());
    assert(head + concat_all(mesh.faces@.take(0), face_writer()) =~= head);
    while j < mesh.faces.len()
        invariant
            j <= mesh.faces.len(),
            text@ == head + concat_all(mesh.faces@.take(j as int), face_writer()),
        decreases mesh.faces.len() - j,
    {
        proof {
            lemma_concat_all_push(mesh.faces@.take(j as int), mesh.faces@[j as int], face_writer());
            assert(mesh.faces@.take(j as int).push(mesh.faces@[j as int]) =~= mesh.faces@.take(
                j + 1,
            ));
        }
        push_face_line(&mut text, &mesh.faces[j]);
        j += 1;
    }
    assert(mesh.faces@.take(j as int) =~= mesh.faces@);
    text
}

/// Copies the text from `start` to `end`.
fn copy_range(bytes: &[u8], start: usize, end: usize) -> (text: Vec<u8>)
    requires
        start <= end <= bytes.len(),
    ensures
        text@ == bytes@.subrange(start as int, end as int),
{
    slice_to_vec(slice_subrange(bytes, start, end))
}

/// Whether the text from `start` to `end` is the one byte `mark`.
fn is_mark(bytes: &[u8], start: usize, end: usize, mark: u8) -> (r: bool)
    requires
        start <= end <= bytes.len(),
    ensures
        r == (bytes@.subrange(start as int, end as int) == seq![mark]),
{
    let ghost field = bytes@.subrange(start as int, end as int);
    if end - start == 1 && bytes[start] == mark {
        assert(field =~= seq![mark]);
        true
    } else {
        assert(field.len() == 1 ==> field[0] != mark);
        assert(seq![mark].len() == 1 && seq![mark][0] == mark);
        false
    }
}

/// Reads the line of text from `start` to `end`.
pub fn read_line(bytes: &[u8], start: usize, end: usize) -> (r: Result<Line, ObjErrorKind>)
    requires
        start <= end <= bytes.len(),
    ensures
        match r {
            Ok(item) => parse_line(bytes@.subrange(start as int, end as int)) == Ok::<
                LineView,
                ObjErrorKind,
            >(item@),
            Err(kind) => parse_line(bytes@.subrange(start as int, end as int)) == Err::<
                LineView,
                ObjErrorKind,
            >(kind),
        },
{
    let ghost line = bytes@.subrange(start as int, end as int);
    let spans = split_spans(bytes, start, end, SPACE);
    let ghost fields = split(line, SPACE);
    proof {
        lemma_split_len(line, SPACE);
        assert(pieces_at(bytes@, spans@).len() == spans@.len());
        assert forall|i: int| 0 <= i < spans@.len() implies #[trigger] fields[i] == bytes@.subrange(
            spans@[i].0 as int,
            spans@[i].1 as int,
        ) by {
            assert(pieces_at(bytes@, spans@)[i] == fields[i]);
        }
    }
    let (s0, e0) = spans[0];
    if is_mark(bytes, s0, e0, FACE_MARK) {
        if spans.len() != 4 {
            return Err(ObjErrorKind::NonTriangularFace);
        }
        let (s1, e1) = spans[1];
        let (s2, e2) = spans[2];
        let (s3, e3) = spans[3];
        assert(fields[1] == bytes@.subrange(s1 as int, e1 as int));
        assert(fields[2] == bytes@.subrange(s2 as int, e2 as int));
        assert(fields[3] == bytes@.subrange(s3 as int, e3 as int));
        match (read_u32(bytes, s1, e1), read_u32(bytes, s2, e2), read_u32(bytes, s3, e3)) {
            (Some(a), Some(b), Some(c)) => {
                let face = [a, b, c];
                proof {
                    let spec_face = [a, b, c];
                    assert(face@ =~= spec_face@);
                }
                Ok(Line::Face(face))
            },
            _ => Err(ObjErrorKind::InvalidIndex),
        }
    } else if is_mark(bytes, s0, e0, VERTEX_MARK) {
        if spans.len() < 4 {
            return Err(ObjErrorKind::MissingCoordinate);
        }
        let (s1, e1) = spans[1];
        let (s2, e2) = spans[2];
        let (s3, e3) = spans[3];
        assert(fields[1] == bytes@.subrange(s1 as int, e1 as int));
        assert(fields[2] == bytes@.subrange(s2 as int, e2 as int));
        assert(fields[3] == bytes@.subrange(s3 as int, e3 as int));
        let vertex = TextVertex {
            x: copy_range(bytes, s1, e1),
            y: copy_range(bytes, s2, e2),
            z: copy_range(bytes, s3, e3),
        };
        Ok(Line::Vertex(vertex))
    } else {
        Ok(Line::Other)
    }
}

/// What reading some lines gives after the first of them has been read: what
/// it holds, put behind what was there, in front of what the other lines
/// give.
pub proof fn lemma_read_lines_step(
    done: TextMeshView,
    lines: Seq<Seq<u8>>,
    index: nat,
    item: LineView,
)
    requires
        lines.len() > 0,
        parse_line(lines[0]) == Ok::<LineView, ObjErrorKind>(item),
    ensures
        after(done, read_lines(lines, index)) == after(
            joined(done, mesh_of_line(item)),
            read_lines(lines.drop_first(), index + 1),
        ),
{
    match read_lines(lines.drop_first(), index + 1) {
        Err(_) => {},
        Ok(rest) => {
            let one = mesh_of_line(item);
            assert(done.vertices + (one.vertices + rest.vertices) =~= (done.vertices
                + one.vertices) + rest.vertices);
            assert(done.faces + (one.faces + rest.faces) =~= (done.faces + one.faces)
                + rest.faces);
        },
    }
}

/// Reads a mesh from text.
///
/// Lines that are neither a vertex nor a face are passed over. The first
/// line that is wrong ends the reading; nothing of the mesh is given back
/// then.
pub fn from_obj(text: &[u8]) -> (r: Result<TextMesh, ObjError>)
    ensures
        match r {
            Ok(mesh) => obj_parsing(text@) == Ok::<TextMeshView, ObjError>(mesh@),
            Err(e) => obj_parsing(text@) == Err::<TextMeshView, ObjError>(e),
        },
{
    let spans = split_spans(text, 0, text.len(), NEWLINE);
    let ghost pieces = split(text@, NEWLINE);
    let ghost all = lines(text@);
    proof {
        assert(text@.subrange(0, text@.len() as int) =~= text@);
        lemma_split_len(text@, NEWLINE);
        assert(pieces_at(text@, spans@).len() == spans@.len());
        assert forall|i: int| 0 <= i < spans@.len() implies #[trigger] pieces[i] == text@.subrange(
            spans@[i].0 as int,
            spans@[i].1 as int,
        ) by {
            assert(pieces_at(text@, spans@)[i] == pieces[i]);
        }
    }
    let last = spans.len() - 1;
    let count = if spans[last].0 == spans[last].1 {
        last
    } else {
        last + 1
    };
    let mut mesh = TextMesh { vertices: Vec::new(), faces: Vec::new() };
    let mut i: usize = 0;
    proof {
        assert(all.skip(0) =~= all);
        let whole = read_lines(all, 0);
        assert(mesh@.vertices =~= Seq::<TextVertexView>::empty());
        match whole {
            Err(_) => {},
            Ok(found) => {
                assert(mesh@.vertices + found.vertices =~= found.vertices);
                assert(mesh@.faces + found.faces =~= found.faces);
            },
        }
    }
    while i < count
        invariant
            i <= count <= spans.len(),
            count == all.len(),
            last + 1 == spans.len(),
            spans_within(spans@, 0, text@.len() as int),
            pieces == split(text@, NEWLINE),
            all == lines(text@),
            pieces.len() == spans@.len(),
            forall|k: int|
                0 <= k < spans@.len() ==> #[trigger] pieces[k] == text@.subrange(
                    spans@[k].0 as int,
                    spans@[k].1 as int,
                ),
            obj_parsing(text@) == after(mesh@, read_lines(all.skip(i as int), i as nat)),
        decreases count - i,
    {
        let (start, end) = spans[i];
        let stop = if i < last && start < end && text[end - 1] == CARRIAGE_RETURN {
            end - 1
        } else {
            end
        };
        let ghost rest = all.skip(i as int);
        proof {
            assert(pieces[i as int] == text@.subrange(start as int, end as int));
            assert(all[i as int] =~= text@.subrange(start as int, stop as int));
            assert(rest[0] == all[i as int]);
            assert(rest.drop_first() =~= all.skip(i + 1));
        }
        let ghost before = mesh@;
        match read_line(text, start, stop) {
            Err(kind) => {
                return Err(ObjError { line: i, kind });
            },
            Ok(item) => {
                proof {
                    lemma_read_lines_step(before, rest, i as nat, item@);
                }
                match item {
                    Line::Vertex(v) => {
                        mesh.vertices.push(v);
                        assert(mesh@.vertices =~= before.vertices + seq![v@]);
                        assert(mesh@.faces =~= before.faces + Seq::<[u32; 3]>::empty());
                    },
                    Line::Face(f) => {
                        mesh.faces.push(f);
                        assert(mesh@.vertices =~= before.vertices + Seq::<
                            TextVertexView,
                        >::empty());
                        assert(mesh@.faces =~= before.faces + seq![f]);
                    },
                    Line::Other => {
                        assert(mesh@.vertices =~= before.vertices + Seq::<
                            TextVertexView,
                        >::empty());
                        assert(mesh@.faces =~= before.faces + Seq::<[u32; 3]>::empty());
                    },
                }
            },
        }
        i += 1;
    }
    proof {
        assert(all.skip(i as int) =~= Seq::<Seq<u8>>::empty());
        assert(mesh@.vertices + Seq::<TextVertexView>::empty() =~= mesh@.vertices);
        assert(mesh@.faces + Seq::<[u32; 3]>::empty() =~= mesh@.faces);
    }
    Ok(mesh)
}

} // verus!
