//! The compact form of a face: one header byte, then the first index on the
//! fewest bytes that hold it, then each of the other two as a signed
//! difference from the first, or as it is where the difference is too large.

use vstd::prelude::*;
use crate::class::{
    header_byte,
    header_first,
    header_second,
    header_third,
    lemma_delta_class_fits,
    lemma_header_unpacks,
    lemma_index_class_fits,
    DeltaClass,
    IndexClass,
};
use crate::little_endian::{
    le_bytes,
    le_value,
    lemma_le_bytes_len,
    lemma_le_value_bound,
    lemma_le_value_of_bytes,
    lemma_pow256_values,
    lemma_signed_value_of_bytes,
    push_le,
    read_le,
    signed_value,
    twos_complement,
};

verus! {

/// The first index `a` of a face, on the bytes of its class.
pub open spec fn index_bytes(a: u32) -> Seq<u8> {
    le_bytes(a as nat, IndexClass::of(a).spec_width())
}

/// The index `x` of a face whose first index is `a`, on the bytes of its
/// class: the difference `a - x` in two's complement, or `x` itself where the
/// class is the fallback.
pub open spec fn relative_bytes(a: u32, x: u32) -> Seq<u8> {
    let class = DeltaClass::of(a, x);
    match class {
        DeltaClass::U32 => le_bytes(x as nat, 4),
        _ => le_bytes(twos_complement(a - x, class.spec_width()), class.spec_width()),
    }
}

/// The header byte of a face: the classes chosen for its three indices.
pub open spec fn face_header(face: [u32; 3]) -> u8 {
    header_byte(
        IndexClass::of(face[0]),
        DeltaClass::of(face[0], face[1]),
        DeltaClass::of(face[0], face[2]),
    )
}

/// The compact form of a face.
pub open spec fn face_bytes(face: [u32; 3]) -> Seq<u8> {
    seq![face_header(face)] + index_bytes(face[0]) + relative_bytes(face[0], face[1])
        + relative_bytes(face[0], face[2])
}

/// The integer `v` brought into the range of 32 bits by dropping what lies
/// above them.
pub open spec fn wrap_u32(v: int) -> u32 {
    (v % 0x1_0000_0000) as u32
}

/// Takes a first index of the given class from the front of `s`.
pub open spec fn parse_index(class: IndexClass, s: Seq<u8>) -> Option<(u32, Seq<u8>)> {
    let width = class.spec_width();
    if s.len() < width {
        None
    } else {
        Some((le_value(s.take(width as int)) as u32, s.skip(width as int)))
    }
}

/// Takes a second or third index of the given class from the front of `s`,
/// for a face whose first index is `a`. A difference `d` gives the index
/// `a - d`, brought into the range of 32 bits.
pub open spec fn parse_relative(class: DeltaClass, a: u32, s: Seq<u8>) -> Option<(u32, Seq<u8>)> {
    let width = class.spec_width();
    if s.len() < width {
        None
    } else {
        let field = s.take(width as int);
        let x = match class {
            DeltaClass::U32 => le_value(field) as u32,
            _ => wrap_u32(a - signed_value(field)),
        };
        Some((x, s.skip(width as int)))
    }
}

/// Takes a face from the front of `s`: the face and the bytes that follow it,
/// or nothing if `s` ends before the last field that the header byte
/// announces. The two low bits of the header byte are not looked at.
pub open spec fn parse_face(s: Seq<u8>) -> Option<([u32; 3], Seq<u8>)> {
    if s.len() < 1 {
        None
    } else {
        let header = s[0];
        match parse_index(header_first(header), s.skip(1)) {
            None => None,
            Some((a, s1)) => match parse_relative(header_second(header), a, s1) {
                None => None,
                Some((b, s2)) => match parse_relative(header_third(header), a, s2) {
                    None => None,
                    Some((c, s3)) => Some(([a, b, c], s3)),
                },
            },
        }
    }
}

/// `face_bytes` as a function value.
pub open spec fn face_encoder() -> spec_fn([u32; 3]) -> Seq<u8> {
    |face: [u32; 3]| face_bytes(face)
}

/// `parse_face` as a function value.
pub open spec fn face_parser() -> spec_fn(Seq<u8>) -> Option<([u32; 3], Seq<u8>)> {
    |s: Seq<u8>| parse_face(s)
}

/// The first index takes as many bytes as its class says.
pub proof fn lemma_index_bytes_len(a: u32)
    ensures
        index_bytes(a).len() == IndexClass::of(a).spec_width(),
{
    lemma_le_bytes_len(a as nat, IndexClass::of(a).spec_width());
}

/// A second or third index takes as many bytes as its class says.
pub proof fn lemma_relative_bytes_len(a: u32, x: u32)
    ensures
        relative_bytes(a, x).len() == DeltaClass::of(a, x).spec_width(),
{
    let class = DeltaClass::of(a, x);
    lemma_le_bytes_len(x as nat, 4);
    lemma_le_bytes_len(twos_complement(a - x, class.spec_width()), class.spec_width());
}

/// A face takes one byte and the bytes of its three fields: between 4 and 13.
pub proof fn lemma_face_bytes_len(face: [u32; 3])
    ensures
        face_bytes(face).len() == 1 + IndexClass::of(face[0]).spec_width() + DeltaClass::of(
            face[0],
            face[1],
        ).spec_width() + DeltaClass::of(face[0], face[2]).spec_width(),
        4 <= face_bytes(face).len() <= 13,
{
    lemma_index_bytes_len(face[0]);
    lemma_relative_bytes_len(face[0], face[1]);
    lemma_relative_bytes_len(face[0], face[2]);
}

/// From the bytes of a first index, followed by anything, the index is read
/// back and what follows is left.
pub proof fn lemma_parse_index_bytes(a: u32, rest: Seq<u8>)
    ensures
        parse_index(IndexClass::of(a), index_bytes(a) + rest) == Some((a, rest)),
{
    let width = IndexClass::of(a).spec_width();
    let s = index_bytes(a) + rest;
    lemma_index_bytes_len(a);
    lemma_index_class_fits(a);
    lemma_le_value_of_bytes(a as nat, width);
    assert(s.take(width as int) =~= index_bytes(a));
    assert(s.skip(width as int) =~= rest);
}

/// From the bytes of a second or third index, followed by anything, the index
/// is read back and what follows is left.
pub proof fn lemma_parse_relative_bytes(a: u32, x: u32, rest: Seq<u8>)
    ensures
        parse_relative(DeltaClass::of(a, x), a, relative_bytes(a, x) + rest) == Some((x, rest)),
{
    let class = DeltaClass::of(a, x);
    let width = class.spec_width();
    let s = relative_bytes(a, x) + rest;
    lemma_relative_bytes_len(a, x);
    lemma_delta_class_fits(a, x);
    lemma_pow256_values();
    assert(s.take(width as int) =~= relative_bytes(a, x));
    assert(s.skip(width as int) =~= rest);
    if class == DeltaClass::U32 {
        lemma_le_value_of_bytes(x as nat, 4);
    } else {
        lemma_signed_value_of_bytes(a - x, width);
    }
}

/// From the compact form of a face, followed by anything, the face is read
/// back and what follows is left.
pub proof fn lemma_parse_face_bytes(face: [u32; 3], rest: Seq<u8>)
    ensures
        parse_face(face_bytes(face) + rest) == Some((face, rest)),
{
    let a = face[0];
    let b = face[1];
    let c = face[2];
    let header = face_header(face);
    let ia = index_bytes(a);
    let rb = relative_bytes(a, b);
    let rc = relative_bytes(a, c);
    let s = face_bytes(face) + rest;
    let s1 = ia + (rb + (rc + rest));
    let s2 = rb + (rc + rest);
    let s3 = rc + rest;
    assert(s =~= seq![header] + s1);
    assert(s[0] == header);
    assert(s.skip(1) =~= s1);
    lemma_header_unpacks(IndexClass::of(a), DeltaClass::of(a, b), DeltaClass::of(a, c));
    lemma_parse_index_bytes(a, s2);
    lemma_parse_relative_bytes(a, b, s3);
    lemma_parse_relative_bytes(a, c, rest);
    assert(parse_face(s) == Some(([a, b, c], rest)));
    assert([a, b, c]@ =~= face@);
}

/// The compact form of a face, cut short, gives no face.
pub proof fn lemma_parse_face_cut(face: [u32; 3], k: int)
    requires
        0 <= k < face_bytes(face).len(),
    ensures
        parse_face(face_bytes(face).take(k)) is None,
{
    let a = face[0];
    let b = face[1];
    let c = face[2];
    let header = face_header(face);
    let full = face_bytes(face);
    let cut = full.take(k);
    let ia = index_bytes(a);
    let rb = relative_bytes(a, b);
    let rc = relative_bytes(a, c);
    lemma_header_unpacks(IndexClass::of(a), DeltaClass::of(a, b), DeltaClass::of(a, c));
    lemma_index_bytes_len(a);
    lemma_relative_bytes_len(a, b);
    lemma_relative_bytes_len(a, c);
    if k >= 1 {
        assert(cut[0] == header);
        let k1 = k - 1;
        assert(cut.skip(1) =~= (ia + (rb + rc)).take(k1));
        if k1 >= ia.len() {
            let k2 = k1 - ia.len();
            let after_a = (rb + rc).take(k2);
            assert((ia + (rb + rc)).take(k1) =~= ia + after_a);
            lemma_parse_index_bytes(a, after_a);
            if k2 >= rb.len() {
                let k3 = k2 - rb.len();
                let after_b = rc.take(k3);
                assert(after_a =~= rb + after_b);
                lemma_parse_relative_bytes(a, b, after_b);
            }
        }
    }
}

/// Appends the compact form of a face.
pub fn push_face(out: &mut Vec<u8>, face: &[u32; 3])
    ensures
        final(out)@ == old(out)@ + face_bytes(*face),
{
    let a = face[0];
    let first = IndexClass::of(a);
    let second = DeltaClass::of(a, face[1]);
    let third = DeltaClass::of(a, face[2]);
    out.push(header_byte(first, second, third));
    push_le(out, a as u64, first.width());
    push_relative(out, second, a, face[1]);
    push_relative(out, third, a, face[2]);
    assert(out@ =~= old(out)@ + face_bytes(*face));
}

/// Appends the index `x` of a face whose first index is `a`, in its class.
fn push_relative(out: &mut Vec<u8>, class: DeltaClass, a: u32, x: u32)
    requires
        class == DeltaClass::of(a, x),
    ensures
        final(out)@ == old(out)@ + relative_bytes(a, x),
{
    let d: i64 = a as i64 - x as i64;
    proof {
        lemma_pow256_values();
    }
    match class {
        DeltaClass::U32 => push_le(out, x as u64, 4),
        DeltaClass::I8 => push_le(out, if d >= 0 { d as u64 } else { (d + 0x100) as u64 }, 1),
        DeltaClass::I16 => push_le(out, if d >= 0 { d as u64 } else { (d + 0x1_0000) as u64 }, 2),
        DeltaClass::I32 => push_le(
            out,
            if d >= 0 { d as u64 } else { (d + 0x1_0000_0000) as u64 },
            4,
        ),
    }
}

/// Reads a second or third index of the given class at `pos`, for a face
/// whose first index is `a`.
fn read_relative(bytes: &[u8], pos: usize, class: DeltaClass, a: u32) -> (r: Option<(u32, usize)>)
    requires
        pos <= bytes.len(),
    ensures
        match r {
            Some((x, next)) => pos < next <= bytes.len() && parse_relative(
                class,
                a,
                bytes@.skip(pos as int),
            ) == Some((x, bytes@.skip(next as int))),
            None => parse_relative(class, a, bytes@.skip(pos as int)) is None,
        },
{
    let width = class.width();
    if bytes.len() - pos < width {
        return None;
    }
    let ghost s = bytes@.skip(pos as int);
    let ghost field = s.take(width as int);
    proof {
        lemma_pow256_values();
        assert(field =~= bytes@.subrange(pos as int, pos + width));
        assert(s.skip(width as int) =~= bytes@.skip(pos + width));
        lemma_le_value_bound(field);
    }
    let v: u64 = read_le(bytes, pos, width);
    let x: u32 = match class {
        DeltaClass::U32 => v as u32,
        DeltaClass::I8 => unwrap_delta(a, v, 0x100),
        DeltaClass::I16 => unwrap_delta(a, v, 0x1_0000),
        DeltaClass::I32 => unwrap_delta(a, v, 0x1_0000_0000),
    };
    Some((x, pos + width))
}

/// The index that lies the difference `d` below `a`, brought into the range
/// of 32 bits, where `d` is the number that has in two's complement, among
/// `modulus` values, the unsigned form `v`.
fn unwrap_delta(a: u32, v: u64, modulus: u64) -> (x: u32)
    requires
        v < modulus <= 0x1_0000_0000,
    ensures
        x == wrap_u32(a - (if 2 * v >= modulus { v - modulus } else { v as int })),
{
    let d: i64 = if 2 * v >= modulus {
        v as i64 - modulus as i64
    } else {
        v as i64
    };
    let t: i64 = a as i64 - d;
    if t < 0 {
        (t + 0x1_0000_0000) as u32
    } else if t > 0xffff_ffff {
        (t - 0x1_0000_0000) as u32
    } else {
        t as u32
    }
}

/// Reads a face at `pos`: the face and the position behind it, or nothing if
/// the bytes end before the last field that the header byte announces.
pub fn read_face(bytes: &[u8], pos: usize) -> (r: Option<([u32; 3], usize)>)
    requires
        pos <= bytes.len(),
    ensures
        match r {
            Some((face, next)) => pos < next <= bytes.len() && parse_face(
                bytes@.skip(pos as int),
            ) == Some((face, bytes@.skip(next as int))),
            None => parse_face(bytes@.skip(pos as int)) is None,
        },
{
    if bytes.len() - pos < 1 {
        return None;
    }
    let ghost s = bytes@.skip(pos as int);
    let header = bytes[pos];
    assert(s[0] == header);
    assert(s.skip(1) =~= bytes@.skip(pos + 1));
    let first = header_first(header);
    let width = first.width();
    let pos_a = pos + 1;
    if bytes.len() - pos_a < width {
        return None;
    }
    proof {
        let s1 = bytes@.skip(pos_a as int);
        lemma_pow256_values();
        assert(s1.take(width as int) =~= bytes@.subrange(pos_a as int, pos_a + width));
        assert(s1.skip(width as int) =~= bytes@.skip(pos_a + width));
        lemma_le_value_bound(s1.take(width as int));
    }
    let a = read_le(bytes, pos_a, width) as u32;
    let pos_b = pos_a + width;
    let (b, pos_c) = match read_relative(bytes, pos_b, header_second(header), a) {
        Some(found) => found,
        None => { return None; },
    };
    let (c, next) = match read_relative(bytes, pos_c, header_third(header), a) {
        Some(found) => found,
        None => { return None; },
    };
    let face = [a, b, c];
    proof {
        let spec_face = parse_face(s).unwrap().0;
        assert(face@ =~= spec_face@);
    }
    Some((face, next))
}

} // verus!
