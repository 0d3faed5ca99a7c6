use mesh_codec::class::{
    header_byte, header_first, header_second, header_third, DeltaClass, IndexClass,
};
use mesh_codec::face::{push_face, read_face};
use mesh_codec::little_endian::{push_le, read_le};
use mesh_codec::triple::{push_triple, read_triple};

fn le(value: u64, width: usize) -> Vec<u8> {
    let mut out = Vec::new();
    push_le(&mut out, value, width);
    out
}

fn face(f: [u32; 3]) -> Vec<u8> {
    let mut out = Vec::new();
    push_face(&mut out, &f);
    out
}

#[test]
fn little_endian_bytes_of_some_numbers() {
    assert_eq!(le(0, 0), Vec::<u8>::new());
    assert_eq!(le(0x12, 1), vec![0x12]);
    assert_eq!(le(0x1234, 2), vec![0x34, 0x12]);
    assert_eq!(le(0x1234_5678, 4), vec![0x78, 0x56, 0x34, 0x12]);
    assert_eq!(le(3, 8), vec![3, 0, 0, 0, 0, 0, 0, 0]);
    assert_eq!(le(u64::MAX, 8), vec![0xff; 8]);
    assert_eq!(le(0x0102_0304_0506_0708, 8), vec![8, 7, 6, 5, 4, 3, 2, 1]);
    // Only the low bytes are written, and the high ones of a wide field are zero.
    assert_eq!(le(0x1234_5678, 2), vec![0x78, 0x56]);
    assert_eq!(le(0x1234, 10), vec![0x34, 0x12, 0, 0, 0, 0, 0, 0, 0, 0]);
}

#[test]
fn little_endian_bytes_are_appended() {
    let mut out = vec![9u8, 9];
    push_le(&mut out, 0x0102, 2);
    assert_eq!(out, vec![9, 9, 2, 1]);
}

#[test]
fn little_endian_agrees_with_the_standard_library() {
    let mut x: u64 = 0x9e37_79b9_7f4a_7c15;
    for _ in 0..500 {
        x ^= x << 13;
        x ^= x >> 7;
        x ^= x << 17;
        assert_eq!(le(x, 8), x.to_le_bytes().to_vec());
        assert_eq!(le(x & 0xffff_ffff, 4), (x as u32).to_le_bytes().to_vec());
        assert_eq!(le(x & 0xffff, 2), (x as u16).to_le_bytes().to_vec());
        assert_eq!(read_le(&x.to_le_bytes(), 0, 8), x);
        assert_eq!(read_le(&x.to_le_bytes(), 4, 4), x >> 32);
        assert_eq!(read_le(&x.to_le_bytes(), 1, 2), (x >> 8) & 0xffff);
    }
}

#[test]
fn little_endian_numbers_are_read() {
    let bytes = [0x01u8, 0x02, 0x03, 0x04, 0x05, 0x06, 0x07, 0x08, 0x09];
    assert_eq!(read_le(&bytes, 0, 0), 0);
    assert_eq!(read_le(&bytes, 9, 0), 0);
    assert_eq!(read_le(&bytes, 0, 1), 0x01);
    assert_eq!(read_le(&bytes, 8, 1), 0x09);
    assert_eq!(read_le(&bytes, 1, 2), 0x0302);
    assert_eq!(read_le(&bytes, 2, 4), 0x0605_0403);
    assert_eq!(read_le(&bytes, 1, 8), 0x0908_0706_0504_0302);
    assert_eq!(read_le(&[0xff; 8], 0, 8), u64::MAX);
}

#[test]
fn classes_have_their_codes_and_widths() {
    assert_eq!(IndexClass::U8.code(), 0);
    assert_eq!(IndexClass::U16.code(), 1);
    assert_eq!(IndexClass::U32.code(), 2);
    assert_eq!(IndexClass::U8.width(), 1);
    assert_eq!(IndexClass::U16.width(), 2);
    assert_eq!(IndexClass::U32.width(), 4);
    assert_eq!(DeltaClass::I8.code(), 0);
    assert_eq!(DeltaClass::I16.code(), 1);
    assert_eq!(DeltaClass::I32.code(), 2);
    assert_eq!(DeltaClass::U32.code(), 3);
    assert_eq!(DeltaClass::I8.width(), 1);
    assert_eq!(DeltaClass::I16.width(), 2);
    assert_eq!(DeltaClass::I32.width(), 4);
    assert_eq!(DeltaClass::U32.width(), 4);
}

#[test]
fn codes_name_their_classes() {
    assert_eq!(IndexClass::from_code(0), IndexClass::U8);
    assert_eq!(IndexClass::from_code(1), IndexClass::U16);
    assert_eq!(IndexClass::from_code(2), IndexClass::U32);
    assert_eq!(IndexClass::from_code(3), IndexClass::U32);
    assert_eq!(DeltaClass::from_code(0), DeltaClass::I8);
    assert_eq!(DeltaClass::from_code(1), DeltaClass::I16);
    assert_eq!(DeltaClass::from_code(2), DeltaClass::I32);
    assert_eq!(DeltaClass::from_code(3), DeltaClass::U32);
    for class in [IndexClass::U8, IndexClass::U16, IndexClass::U32] {
        assert_eq!(IndexClass::from_code(class.code()), class);
    }
    for class in [DeltaClass::I8, DeltaClass::I16, DeltaClass::I32, DeltaClass::U32] {
        assert_eq!(DeltaClass::from_code(class.code()), class);
    }
}

#[test]
fn index_classes_at_their_ends() {
    assert_eq!(IndexClass::of(0), IndexClass::U8);
    assert_eq!(IndexClass::of(255), IndexClass::U8);
    assert_eq!(IndexClass::of(256), IndexClass::U16);
    assert_eq!(IndexClass::of(65535), IndexClass::U16);
    assert_eq!(IndexClass::of(65536), IndexClass::U32);
    assert_eq!(IndexClass::of(u32::MAX), IndexClass::U32);
}

#[test]
fn delta_classes_at_their_ends() {
    assert_eq!(DeltaClass::of(5, 5), DeltaClass::I8);
    assert_eq!(DeltaClass::of(1000, 873), DeltaClass::I8);
    assert_eq!(DeltaClass::of(1000, 872), DeltaClass::I16);
    assert_eq!(DeltaClass::of(1000, 1128), DeltaClass::I8);
    assert_eq!(DeltaClass::of(1000, 1129), DeltaClass::I16);
    assert_eq!(DeltaClass::of(100_000, 100_000 - 32767), DeltaClass::I16);
    assert_eq!(DeltaClass::of(100_000, 100_000 - 32768), DeltaClass::I32);
    assert_eq!(DeltaClass::of(100_000, 100_000 + 32768), DeltaClass::I16);
    assert_eq!(DeltaClass::of(100_000, 100_000 + 32769), DeltaClass::I32);
    assert_eq!(DeltaClass::of(0x7fff_ffff, 0), DeltaClass::I32);
    assert_eq!(DeltaClass::of(0x8000_0000, 0), DeltaClass::U32);
    assert_eq!(DeltaClass::of(0, 0x8000_0000), DeltaClass::I32);
    assert_eq!(DeltaClass::of(0, 0x8000_0001), DeltaClass::U32);
    assert_eq!(DeltaClass::of(u32::MAX, 0), DeltaClass::U32);
    assert_eq!(DeltaClass::of(0, u32::MAX), DeltaClass::U32);
}

#[test]
fn header_bytes_pack_three_classes() {
    assert_eq!(header_byte(IndexClass::U8, DeltaClass::I8, DeltaClass::I8), 0b0000_0000);
    assert_eq!(header_byte(IndexClass::U16, DeltaClass::I8, DeltaClass::I8), 0b0100_0000);
    assert_eq!(header_byte(IndexClass::U32, DeltaClass::I8, DeltaClass::I8), 0b1000_0000);
    assert_eq!(header_byte(IndexClass::U8, DeltaClass::I16, DeltaClass::I8), 0b0001_0000);
    assert_eq!(header_byte(IndexClass::U8, DeltaClass::I32, DeltaClass::I8), 0b0010_0000);
    assert_eq!(header_byte(IndexClass::U8, DeltaClass::U32, DeltaClass::I8), 0b0011_0000);
    assert_eq!(header_byte(IndexClass::U8, DeltaClass::I8, DeltaClass::I16), 0b0000_0100);
    assert_eq!(header_byte(IndexClass::U8, DeltaClass::I8, DeltaClass::I32), 0b0000_1000);
    assert_eq!(header_byte(IndexClass::U8, DeltaClass::I8, DeltaClass::U32), 0b0000_1100);
    assert_eq!(header_byte(IndexClass::U32, DeltaClass::U32, DeltaClass::U32), 0b1011_1100);
    assert_eq!(header_byte(IndexClass::U16, DeltaClass::I32, DeltaClass::I16), 0b0110_0100);
}

#[test]
fn header_bytes_unpack() {
    for first in [IndexClass::U8, IndexClass::U16, IndexClass::U32] {
        for second in [DeltaClass::I8, DeltaClass::I16, DeltaClass::I32, DeltaClass::U32] {
            for third in [DeltaClass::I8, DeltaClass::I16, DeltaClass::I32, DeltaClass::U32] {
                let header = header_byte(first, second, third);
                assert_eq!(header & 0b11, 0);
                assert_eq!(header_first(header), first);
                assert_eq!(header_second(header), second);
                assert_eq!(header_third(header), third);
                for low in 1..4u8 {
                    assert_eq!(header_first(header | low), first);
                    assert_eq!(header_second(header | low), second);
                    assert_eq!(header_third(header | low), third);
                }
            }
        }
    }
    assert_eq!(header_first(0b1100_0000), IndexClass::U32);
    assert_eq!(header_first(0xff), IndexClass::U32);
    assert_eq!(header_second(0xff), DeltaClass::U32);
    assert_eq!(header_third(0xff), DeltaClass::U32);
}

#[test]
fn triples_are_written_and_read() {
    let mut out = vec![0xaau8];
    push_triple(&mut out, &[1, 0x0203_0405, u32::MAX]);
    assert_eq!(out, vec![0xaa, 1, 0, 0, 0, 5, 4, 3, 2, 0xff, 0xff, 0xff, 0xff]);
    assert_eq!(read_triple(&out, 1), Some(([1, 0x0203_0405, u32::MAX], 13)));
    assert_eq!(read_triple(&out, 0), Some(([0x0000_01aa, 0x0304_0500, 0xffff_ff02], 12)));
    assert_eq!(read_triple(&out, 2), None);
    assert_eq!(read_triple(&out, 13), None);
    assert_eq!(read_triple(&[], 0), None);
}

#[test]
fn faces_are_written_in_their_compact_form() {
    assert_eq!(face([0, 1, 2]), vec![0x00, 0x00, 0xff, 0xfe]);
    assert_eq!(face([2, 1, 0]), vec![0x00, 0x02, 0x01, 0x02]);
    assert_eq!(face([300, 0, 600]), vec![0b0101_0100, 0x2c, 0x01, 0x2c, 0x01, 0xd4, 0xfe]);
    assert_eq!(
        face([100_000, 0, 200_000]),
        vec![0b1010_1000, 0xa0, 0x86, 0x01, 0x00, 0xa0, 0x86, 0x01, 0x00, 0x60, 0x79, 0xfe, 0xff]
    );
    assert_eq!(
        face([u32::MAX, 0, 1]),
        vec![0b1011_1100, 0xff, 0xff, 0xff, 0xff, 0, 0, 0, 0, 1, 0, 0, 0]
    );
}

#[test]
fn faces_are_appended() {
    let mut out = vec![7u8];
    push_face(&mut out, &[0, 1, 2]);
    push_face(&mut out, &[256, 256, 256]);
    assert_eq!(out, vec![7, 0x00, 0x00, 0xff, 0xfe, 0x40, 0x00, 0x01, 0x00, 0x00]);
}

#[test]
fn faces_are_read_at_a_position() {
    let mut out = vec![7u8];
    push_face(&mut out, &[0, 1, 2]);
    push_face(&mut out, &[70_000, 3, 4_000_000_000]);
    let end = out.len();
    assert_eq!(read_face(&out, 1), Some(([0, 1, 2], 5)));
    assert_eq!(read_face(&out, 5), Some(([70_000, 3, 4_000_000_000], end)));
    assert_eq!(read_face(&out, end), None);
    assert_eq!(read_face(&out[..end - 1], 5), None);
    assert_eq!(read_face(&out[..6], 5), None);
}

#[test]
fn every_face_length_is_between_four_and_thirteen() {
    let values = [0u32, 1, 127, 128, 255, 256, 32767, 32768, 65535, 65536, 0x7fff_ffff,
        0x8000_0000, 0x8000_0001, u32::MAX];
    for &a in &values {
        for &b in &values {
            for &c in &values {
                let bytes = face([a, b, c]);
                assert!(4 <= bytes.len() && bytes.len() <= 13);
                let expected = 1 + IndexClass::of(a).width() + DeltaClass::of(a, b).width()
                    + DeltaClass::of(a, c).width();
                assert_eq!(bytes.len(), expected);
                assert_eq!(read_face(&bytes, 0), Some(([a, b, c], bytes.len())));
                for k in 0..bytes.len() {
                    assert_eq!(read_face(&bytes[..k], 0), None);
                }
            }
        }
    }
}
