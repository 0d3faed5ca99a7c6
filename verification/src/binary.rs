//! The two binary formats of a mesh.
//!
//! Both start with the number of positions on eight bytes, then the
//! positions, twelve bytes each, then the number of faces on eight bytes. The
//! compact format then holds each face in its compact form; the fixed-width
//! format holds each face on twelve bytes. All integers are little-endian.

use vstd::prelude::*;
use crate::face::{
    face_encoder,
    face_parser,
    lemma_face_bytes_len,
    lemma_parse_face_bytes,
    lemma_parse_face_cut,
    push_face,
    read_face,
};
use crate::little_endian::{
    le_bytes,
    le_value,
    lemma_le_bytes_len,
    lemma_le_value_of_bytes,
    lemma_pow256_values,
    push_le,
    read_le,
};
use crate::mesh::{Mesh, MeshView};
use crate::repeat::{
    concat_all,
    inverts,
    lemma_concat_all_len,
    lemma_concat_all_push,
    lemma_parse_all_concat,
    lemma_parse_all_cut,
    lemma_parse_all_step,
    parse_all,
    prepend,
    rejects_cut,
};
use crate::triple::{
    lemma_parse_triple_bytes,
    lemma_triple_bytes_len,
    push_triple,
    read_triple,
    triple_encoder,
    triple_parser,
};

verus! {

/// Why a byte sequence is not a mesh in the compact format.
#[derive(Clone, Copy, Debug, PartialEq, Eq, Structural)]
pub enum DecodeError {
    /// The bytes end before the field that is due.
    Truncated,
}

/// A number of items, on eight bytes.
pub open spec fn count_bytes(n: nat) -> Seq<u8> {
    le_bytes(n, 8)
}

/// Takes a number of items from the front of `s`.
pub open spec fn parse_count(s: Seq<u8>) -> Option<(nat, Seq<u8>)> {
    if s.len() < 8 {
        None
    } else {
        Some((le_value(s.take(8)), s.skip(8)))
    }
}

/// A mesh in the compact format.
pub open spec fn encoding(mesh: MeshView) -> Seq<u8> {
    count_bytes(mesh.positions.len()) + concat_all(mesh.positions, triple_encoder()) + count_bytes(
        mesh.faces.len(),
    ) + concat_all(mesh.faces, face_encoder())
}

/// A mesh in the fixed-width format.
pub open spec fn raw_encoding(mesh: MeshView) -> Seq<u8> {
    count_bytes(mesh.positions.len()) + concat_all(mesh.positions, triple_encoder()) + count_bytes(
        mesh.faces.len(),
    ) + concat_all(mesh.faces, triple_encoder())
}

/// The mesh that bytes in the compact format hold. The bytes are read from
/// the front, field by field, and the first field that the bytes end before
/// makes them truncated. Bytes behind the last face are not looked at.
pub open spec fn decoding(s: Seq<u8>) -> Result<MeshView, DecodeError> {
    match parse_count(s) {
        None => Err(DecodeError::Truncated),
        Some((n, s1)) => match parse_all(s1, n, triple_parser()) {
            None => Err(DecodeError::Truncated),
            Some((positions, s2)) => match parse_count(s2) {
                None => Err(DecodeError::Truncated),
                Some((m, s3)) => match parse_all(s3, m, face_parser()) {
                    None => Err(DecodeError::Truncated),
                    Some((faces, _)) => Ok(MeshView { positions, faces }),
                },
            },
        },
    }
}

/// Whether the numbers of positions and of faces fit the eight bytes that
/// hold them.
pub open spec fn counts_fit(mesh: MeshView) -> bool {
    mesh.positions.len() <= u64::MAX && mesh.faces.len() <= u64::MAX
}

/// Reading three words undoes writing them, and gives nothing on fewer than
/// twelve bytes.
pub proof fn lemma_triple_parser_inverts()
    ensures
        inverts(triple_parser(), triple_encoder()),
        rejects_cut(triple_parser(), triple_encoder()),
{
    assert forall|item: [u32; 3], rest: Seq<u8>| #[trigger]
        triple_parser()(triple_encoder()(item) + rest) == Some((item, rest)) by {
        lemma_parse_triple_bytes(item, rest);
    }
    assert forall|item: [u32; 3], k: int| 0 <= k < triple_encoder()(item).len() implies (
    #[trigger] triple_parser()(triple_encoder()(item).take(k))) is None by {
        lemma_triple_bytes_len(item);
    }
}

/// Reading a face undoes writing it, and gives nothing on a face cut short.
pub proof fn lemma_face_parser_inverts()
    ensures
        inverts(face_parser(), face_encoder()),
        rejects_cut(face_parser(), face_encoder()),
{
    assert forall|item: [u32; 3], rest: Seq<u8>| #[trigger]
        face_parser()(face_encoder()(item) + rest) == Some((item, rest)) by {
        lemma_parse_face_bytes(item, rest);
    }
    assert forall|item: [u32; 3], k: int| 0 <= k < face_encoder()(item).len() implies (
    #[trigger] face_parser()(face_encoder()(item).take(k))) is None by {
        lemma_parse_face_cut(item, k);
    }
}

/// From the eight bytes of a number, followed by anything, the number is read
/// back and what follows is left.
pub proof fn lemma_parse_count_bytes(n: nat, rest: Seq<u8>)
    requires
        n <= u64::MAX,
    ensures
        parse_count(count_bytes(n) + rest) == Some((n, rest)),
{
    let s = count_bytes(n) + rest;
    lemma_pow256_values();
    lemma_le_bytes_len(n, 8);
    lemma_le_value_of_bytes(n, 8);
    assert(s.take(8) =~= count_bytes(n));
    assert(s.skip(8) =~= rest);
}

/// Decoding undoes encoding: the compact form of a mesh holds that mesh, bit
/// for bit.
pub proof fn lemma_round_trip(mesh: MeshView)
    requires
        counts_fit(mesh),
    ensures
        decoding(encoding(mesh)) == Ok::<MeshView, DecodeError>(mesh),
{
    let head_p = count_bytes(mesh.positions.len());
    let body_p = concat_all(mesh.positions, triple_encoder());
    let head_f = count_bytes(mesh.faces.len());
    let body_f = concat_all(mesh.faces, face_encoder());
    let s1 = body_p + (head_f + body_f);
    let s2 = head_f + body_f;
    assert(encoding(mesh) =~= head_p + s1);
    lemma_parse_count_bytes(mesh.positions.len(), s1);
    lemma_triple_parser_inverts();
    lemma_parse_all_concat(mesh.positions, s2, triple_parser(), triple_encoder());
    lemma_parse_count_bytes(mesh.faces.len(), body_f);
    lemma_face_parser_inverts();
    assert(body_f =~= body_f + Seq::<u8>::empty());
    lemma_parse_all_concat(mesh.faces, Seq::<u8>::empty(), face_parser(), face_encoder());
}

/// The compact form of a mesh, cut short anywhere, is truncated: no proper
/// prefix of it decodes to a mesh.
pub proof fn lemma_cut_is_truncated(mesh: MeshView, k: int)
    requires
        counts_fit(mesh),
        0 <= k < encoding(mesh).len(),
    ensures
        decoding(encoding(mesh).take(k)) == Err::<MeshView, DecodeError>(DecodeError::Truncated),
{
    let head_p = count_bytes(mesh.positions.len());
    let body_p = concat_all(mesh.positions, triple_encoder());
    let head_f = count_bytes(mesh.faces.len());
    let body_f = concat_all(mesh.faces, face_encoder());
    let full = encoding(mesh);
    let cut = full.take(k);
    lemma_le_bytes_len(mesh.positions.len(), 8);
    lemma_le_bytes_len(mesh.faces.len(), 8);
    lemma_triple_parser_inverts();
    lemma_face_parser_inverts();
    assert(full =~= head_p + (body_p + (head_f + body_f)));
    if k >= 8 {
        let k1 = k - 8;
        let cut1 = (body_p + (head_f + body_f)).take(k1);
        assert(cut =~= head_p + cut1);
        lemma_parse_count_bytes(mesh.positions.len(), cut1);
        if k1 < body_p.len() {
            assert(cut1 =~= body_p.take(k1));
            lemma_parse_all_cut(mesh.positions, k1, triple_parser(), triple_encoder());
        } else {
            let k2 = k1 - body_p.len();
            let cut2 = (head_f + body_f).take(k2);
            assert(cut1 =~= body_p + cut2);
            lemma_parse_all_concat(mesh.positions, cut2, triple_parser(), triple_encoder());
            if k2 >= 8 {
                let k3 = k2 - 8;
                let cut3 = body_f.take(k3);
                assert(cut2 =~= head_f + cut3);
                lemma_parse_count_bytes(mesh.faces.len(), cut3);
                lemma_parse_all_cut(mesh.faces, k3, face_parser(), face_encoder());
            }
        }
    }
}

/// The numbers of positions and of faces of a mesh in memory fit.
pub proof fn lemma_mesh_counts_fit(mesh: Mesh)
    ensures
        counts_fit(mesh@),
{
    assert(mesh.positions@.len() == mesh.positions.len());
    assert(mesh.faces@.len() == mesh.faces.len());
}

/// Decoding undoes encoding, for every mesh in memory: the bytes that
/// `to_binary` gives are bytes from which `from_binary` gives the mesh back,
/// every position bit for bit and every index as it was.
pub proof fn lemma_mesh_round_trip(mesh: Mesh)
    ensures
        decoding(encoding(mesh@)) == Ok::<MeshView, DecodeError>(mesh@),
{
    lemma_mesh_counts_fit(mesh);
    lemma_round_trip(mesh@);
}

/// The compact form of a mesh in memory without its last byte is truncated.
pub proof fn lemma_missing_last_byte(mesh: Mesh)
    ensures
        encoding(mesh@).len() >= 16,
        decoding(encoding(mesh@).drop_last()) == Err::<MeshView, DecodeError>(
            DecodeError::Truncated,
        ),
{
    lemma_mesh_counts_fit(mesh);
    lemma_encoding_len(mesh@);
    lemma_cut_is_truncated(mesh@, encoding(mesh@).len() - 1);
}

/// Two meshes that hold the same positions and faces have the same compact
/// form, byte for byte: nothing but what the mesh holds decides a class or a
/// byte.
pub proof fn lemma_encoding_determined(first: Mesh, second: Mesh)
    requires
        first@ == second@,
    ensures
        encoding(first@) == encoding(second@),
{
}

/// Two meshes with the same compact form hold the same positions and faces.
pub proof fn lemma_encoding_injective(first: MeshView, second: MeshView)
    requires
        counts_fit(first),
        counts_fit(second),
        encoding(first) == encoding(second),
    ensures
        first == second,
{
    lemma_round_trip(first);
    lemma_round_trip(second);
}

/// The compact form takes 16 bytes, 12 for each position and between 4 and 13
/// for each face; the fixed-width form takes 16 bytes and 12 for each position
/// and each face.
pub proof fn lemma_encoding_len(mesh: MeshView)
    ensures
        16 + 12 * mesh.positions.len() + 4 * mesh.faces.len() <= encoding(mesh).len() <= 16 + 12
            * mesh.positions.len() + 13 * mesh.faces.len(),
        raw_encoding(mesh).len() == 16 + 12 * mesh.positions.len() + 12 * mesh.faces.len(),
{
    lemma_le_bytes_len(mesh.positions.len(), 8);
    lemma_le_bytes_len(mesh.faces.len(), 8);
    assert forall|item: [u32; 3]| 12 <= (#[trigger] triple_encoder()(item)).len() <= 12 by {
        lemma_triple_bytes_len(item);
    }
    assert forall|item: [u32; 3]| 4 <= (#[trigger] face_encoder()(item)).len() <= 13 by {
        lemma_face_bytes_len(item);
    }
    lemma_concat_all_len(mesh.positions, triple_encoder(), 12, 12);
    lemma_concat_all_len(mesh.faces, triple_encoder(), 12, 12);
    lemma_concat_all_len(mesh.faces, face_encoder(), 4, 13);
}

/// Appends the twelve bytes of each triple, in order.
fn push_triples(out: &mut Vec<u8>, triples: &Vec<[u32; 3]>)
    ensures
        final(out)@ == old(out)@ + concat_all(triples@, triple_encoder()),
{
    let mut i: usize = 0;
    assert(triples@.take(0) =~= Seq::<[u32; 3]>::empty());
    assert(old(out)@ + concat_all(triples@.take(0), triple_encoder()) =~= old(out)@);
    while i < triples.len()
        invariant
            i <= triples.len(),
            out@ == old(out)@ + concat_all(triples@.take(i as int), triple_encoder()),
        decreases triples.len() - i,
    {
        proof {
            lemma_concat_all_push(triples@.take(i as int), triples@[i as int], triple_encoder());
            assert(triples@.take(i as int).push(triples@[i as int]) =~= triples@.take(i + 1));
        }
        push_triple(out, &triples[i]);
        i += 1;
    }
    assert(triples@.take(i as int) =~= triples@);
}

/// Appends the compact form of each face, in order.
fn push_faces(out: &mut Vec<u8>, faces: &Vec<[u32; 3]>)
    ensures
        final(out)@ == old(out)@ + concat_all(faces@, face_encoder()),
{
    let mut i: usize = 0;
    assert(faces@.take(0) =~= Seq::<[u32; 3]>::empty());
    assert(old(out)@ + concat_all(faces@.take(0), face_encoder()) =~= old(out)@);
    while i < faces.len()
        invariant
            i <= faces.len(),
            out@ == old(out)@ + concat_all(faces@.take(i as int), face_encoder()),
        decreases faces.len() - i,
    {
        proof {
            lemma_concat_all_push(faces@.take(i as int), faces@[i as int], face_encoder());
            assert(faces@.take(i as int).push(faces@[i as int]) =~= faces@.take(i + 1));
        }
        push_face(out, &faces[i]);
        i += 1;
    }
    assert(faces@.take(i as int) =~= faces@);
}

/// Encodes a mesh in the compact format.
pub fn to_binary(mesh: &Mesh) -> (bytes: Vec<u8>)
    ensures
        bytes@ == encoding(mesh@),
{
    let mut bytes: Vec<u8> = Vec::new();
    push_le(&mut bytes, mesh.positions.len() as u64, 8);
    push_triples(&mut bytes, &mesh.positions);
    push_le(&mut bytes, mesh.faces.len() as u64, 8);
    push_faces(&mut bytes, &mesh.faces);
    assert(bytes@ =~= encoding(mesh@));
    bytes
}

/// Encodes a mesh in the fixed-width format.
pub fn to_raw_binary(mesh: &Mesh) -> (bytes: Vec<u8>)
    ensures
        bytes@ == raw_encoding(mesh@),
{
    let mut bytes: Vec<u8> = Vec::new();
    push_le(&mut bytes, mesh.positions.len() as u64, 8);
    push_triples(&mut bytes, &mesh.positions);
    push_le(&mut bytes, mesh.faces.len() as u64, 8);
    push_triples(&mut bytes, &mesh.faces);
    assert(bytes@ =~= raw_encoding(mesh@));
    bytes
}

/// Reads a number of items at `pos`.
fn read_count(bytes: &[u8], pos: usize) -> (r: Option<(u64, usize)>)
    requires
        pos <= bytes.len(),
    ensures
        match r {
            Some((n, next)) => next <= bytes.len() && parse_count(bytes@.skip(pos as int)) == Some(
                (n as nat, bytes@.skip(next as int)),
            ),
            None => parse_count(bytes@.skip(pos as int)) is None,
        },
{
    if bytes.len() - pos < 8 {
        return None;
    }
    proof {
        let s = bytes@.skip(pos as int);
        assert(s.take(8) =~= bytes@.subrange(pos as int, pos + 8));
        assert(s.skip(8) =~= bytes@.skip(pos + 8));
    }
    Some((read_le(bytes, pos, 8), pos + 8))
}

/// Reads `n` triples at `pos`.
fn read_triples(bytes: &[u8], pos: usize, n: u64) -> (r: Option<(Vec<[u32; 3]>, usize)>)
    requires
        pos <= bytes.len(),
    ensures
        match r {
            Some((triples, next)) => next <= bytes.len() && parse_all(
                bytes@.skip(pos as int),
                n as nat,
                triple_parser(),
            ) == Some((triples@, bytes@.skip(next as int))),
            None => parse_all(bytes@.skip(pos as int), n as nat, triple_parser()) is None,
        },
{
    let ghost whole = parse_all(bytes@.skip(pos as int), n as nat, triple_parser());
    let mut triples: Vec<[u32; 3]> = Vec::new();
    let mut at: usize = pos;
    let mut i: u64 = 0;
    proof {
        match whole {
            None => {},
            Some((items, _)) => {
                assert(triples@ + items =~= items);
            },
        }
    }
    while i < n
        invariant
            i <= n,
            at <= bytes.len(),
            whole == parse_all(bytes@.skip(pos as int), n as nat, triple_parser()),
            whole == prepend(
                triples@,
                parse_all(bytes@.skip(at as int), (n - i) as nat, triple_parser()),
            ),
        decreases n - i,
    {
        match read_triple(bytes, at) {
            None => {
                assert(triple_parser()(bytes@.skip(at as int)) is None);
                return None;
            },
            Some((triple, next)) => {
                proof {
                    lemma_parse_all_step(
                        bytes@.skip(at as int),
                        (n - i) as nat,
                        triple_parser(),
                        triples@,
                        triple,
                        bytes@.skip(next as int),
                    );
                }
                triples.push(triple);
                at = next;
                i += 1;
            },
        }
    }
    assert(triples@ + Seq::<[u32; 3]>::empty() =~= triples@);
    Some((triples, at))
}

/// Reads `n` faces in their compact form at `pos`.
fn read_faces(bytes: &[u8], pos: usize, n: u64) -> (r: Option<(Vec<[u32; 3]>, usize)>)
    requires
        pos <= bytes.len(),
    ensures
        match r {
            Some((faces, next)) => next <= bytes.len() && parse_all(
                bytes@.skip(pos as int),
                n as nat,
                face_parser(),
            ) == Some((faces@, bytes@.skip(next as int))),
            None => parse_all(bytes@.skip(pos as int), n as nat, face_parser()) is None,
        },
{
    let ghost whole = parse_all(bytes@.skip(pos as int), n as nat, face_parser());
    let mut faces: Vec<[u32; 3]> = Vec::new();
    let mut at: usize = pos;
    let mut i: u64 = 0;
    proof {
        match whole {
            None => {},
            Some((items, _)) => {
                assert(faces@ + items =~= items);
            },
        }
    }
    while i < n
        invariant
            i <= n,
            at <= bytes.len(),
            whole == parse_all(bytes@.skip(pos as int), n as nat, face_parser()),
            whole == prepend(
                faces@,
                parse_all(bytes@.skip(at as int), (n - i) as nat, face_parser()),
            ),
        decreases n - i,
    {
        match read_face(bytes, at) {
            None => {
                assert(face_parser()(bytes@.skip(at as int)) is None);
                return None;
            },
            Some((face, next)) => {
                proof {
                    lemma_parse_all_step(
                        bytes@.skip(at as int),
                        (n - i) as nat,
                        face_parser(),
                        faces@,
                        face,
                        bytes@.skip(next as int),
                    );
                }
                faces.push(face);
                at = next;
                i += 1;
            },
        }
    }
    assert(faces@ + Seq::<[u32; 3]>::empty() =~= faces@);
    Some((faces, at))
}

/// Decodes a mesh from bytes in the compact format.
///
/// The bytes are taken as they are: neither the two low bits of a header
/// byte nor the bytes behind the last face are looked at, and no index is
/// held against the number of positions.
pub fn from_binary(bytes: &[u8]) -> (r: Result<Mesh, DecodeError>)
    ensures
        match r {
            Ok(mesh) => decoding(bytes@) == Ok::<MeshView, DecodeError>(mesh@),
            Err(e) => decoding(bytes@) == Err::<MeshView, DecodeError>(e),
        },
{
    assert(bytes@.skip(0) =~= bytes@);
    let (n, at) = match read_count(bytes, 0) {
        Some(found) => found,
        None => { return Err(DecodeError::Truncated); },
    };
    let (positions, at) = match read_triples(bytes, at, n) {
        Some(found) => found,
        None => { return Err(DecodeError::Truncated); },
    };
    let (m, at) = match read_count(bytes, at) {
        Some(found) => found,
        None => { return Err(DecodeError::Truncated); },
    };
    let (faces, _) = match read_faces(bytes, at, m) {
        Some(found) => found,
        None => { return Err(DecodeError::Truncated); },
    };
    Ok(Mesh { positions, faces })
}

} // verus!
