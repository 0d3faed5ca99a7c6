//! The storage classes of a face's three indices and the header byte that
//! names them.
//!
//! The first index is stored as it is, on the fewest bytes that hold it. Each
//! of the other two is stored as the signed difference from the first, on the
//! fewest bytes that hold the difference, or as it is where the difference
//! does not fit 32 bits.

use vstd::prelude::*;
use crate::little_endian::{fits_signed, lemma_pow256_values, pow256};

verus! {

/// How the first index of a face is stored: unsigned, on 1, 2 or 4 bytes.
#[derive(Clone, Copy, Debug, PartialEq, Eq, Structural)]
pub enum IndexClass {
    U8,
    U16,
    U32,
}

/// How the second or third index of a face is stored: as the difference
/// `first - index` in two's complement on 1, 2 or 4 bytes, or as the index
/// itself, unsigned on 4 bytes.
#[derive(Clone, Copy, Debug, PartialEq, Eq, Structural)]
pub enum DeltaClass {
    I8,
    I16,
    I32,
    U32,
}

impl IndexClass {
    /// The narrowest class that holds `a`.
    pub open spec fn spec_of(a: u32) -> IndexClass {
        if a <= 0xff {
            IndexClass::U8
        } else if a <= 0xffff {
            IndexClass::U16
        } else {
            IndexClass::U32
        }
    }

    /// The narrowest class that holds `a`.
    #[verifier::when_used_as_spec(spec_of)]
    pub fn of(a: u32) -> (class: IndexClass)
        ensures
            class == Self::spec_of(a),
    {
        if a <= 0xff {
            IndexClass::U8
        } else if a <= 0xffff {
            IndexClass::U16
        } else {
            IndexClass::U32
        }
    }

    /// The two bits that name the class in a header byte.
    pub open spec fn spec_code(self) -> u8 {
        match self {
            IndexClass::U8 => 0,
            IndexClass::U16 => 1,
            IndexClass::U32 => 2,
        }
    }

    /// The two bits that name the class in a header byte.
    #[verifier::when_used_as_spec(spec_code)]
    pub fn code(self) -> (code: u8)
        ensures
            code == self.spec_code(),
    {
        match self {
            IndexClass::U8 => 0,
            IndexClass::U16 => 1,
            IndexClass::U32 => 2,
        }
    }

    /// The class that a two-bit code names. The code 3 names no class of its
    /// own and is read as `U32`, as every code above 1 is.
    pub open spec fn spec_from_code(code: u8) -> IndexClass {
        if code == 0 {
            IndexClass::U8
        } else if code == 1 {
            IndexClass::U16
        } else {
            IndexClass::U32
        }
    }

    /// The class that a two-bit code names. The code 3 names no class of its
    /// own and is read as `U32`, as every code above 1 is.
    #[verifier::when_used_as_spec(spec_from_code)]
    pub fn from_code(code: u8) -> (class: IndexClass)
        ensures
            class == Self::spec_from_code(code),
    {
        if code == 0 {
            IndexClass::U8
        } else if code == 1 {
            IndexClass::U16
        } else {
            IndexClass::U32
        }
    }

    /// The number of bytes of a field of this class.
    pub open spec fn spec_width(self) -> nat {
        match self {
            IndexClass::U8 => 1,
            IndexClass::U16 => 2,
            IndexClass::U32 => 4,
        }
    }

    /// The number of bytes of a field of this class.
    pub fn width(self) -> (width: usize)
        ensures
            width == self.spec_width(),
    {
        match self {
            IndexClass::U8 => 1,
            IndexClass::U16 => 2,
            IndexClass::U32 => 4,
        }
    }
}

impl DeltaClass {
    /// The narrowest class that holds the difference `a - x`, or `U32` where
    /// the difference does not fit 32 bits.
    pub open spec fn spec_of(a: u32, x: u32) -> DeltaClass {
        let d = a - x;
        if -0x80 <= d <= 0x7f {
            DeltaClass::I8
        } else if -0x8000 <= d <= 0x7fff {
            DeltaClass::I16
        } else if -0x8000_0000 <= d <= 0x7fff_ffff {
            DeltaClass::I32
        } else {
            DeltaClass::U32
        }
    }

    /// The narrowest class that holds the difference `a - x`, or `U32` where
    /// the difference does not fit 32 bits.
    #[verifier::when_used_as_spec(spec_of)]
    pub fn of(a: u32, x: u32) -> (class: DeltaClass)
        ensures
            class == Self::spec_of(a, x),
    {
        let d: i64 = a as i64 - x as i64;
        if -0x80 <= d && d <= 0x7f {
            DeltaClass::I8
        } else if -0x8000 <= d && d <= 0x7fff {
            DeltaClass::I16
        } else if -0x8000_0000 <= d && d <= 0x7fff_ffff {
            DeltaClass::I32
        } else {
            DeltaClass::U32
        }
    }

    /// The two bits that name the class in a header byte.
    pub open spec fn spec_code(self) -> u8 {
        match self {
            DeltaClass::I8 => 0,
            DeltaClass::I16 => 1,
            DeltaClass::I32 => 2,
            DeltaClass::U32 => 3,
        }
    }

    /// The two bits that name the class in a header byte.
    #[verifier::when_used_as_spec(spec_code)]
    pub fn code(self) -> (code: u8)
        ensures
            code == self.spec_code(),
    {
        match self {
            DeltaClass::I8 => 0,
            DeltaClass::I16 => 1,
            DeltaClass::I32 => 2,
            DeltaClass::U32 => 3,
        }
    }

    /// The class that a two-bit code names.
    pub open spec fn spec_from_code(code: u8) -> DeltaClass {
        if code == 0 {
            DeltaClass::I8
        } else if code == 1 {
            DeltaClass::I16
        } else if code == 2 {
            DeltaClass::I32
        } else {
            DeltaClass::U32
        }
    }

    /// The class that a two-bit code names.
    #[verifier::when_used_as_spec(spec_from_code)]
    pub fn from_code(code: u8) -> (class: DeltaClass)
        ensures
            class == Self::spec_from_code(code),
    {
        if code == 0 {
            DeltaClass::I8
        } else if code == 1 {
            DeltaClass::I16
        } else if code == 2 {
            DeltaClass::I32
        } else {
            DeltaClass::U32
        }
    }

    /// The number of bytes of a field of this class.
    pub open spec fn spec_width(self) -> nat {
        match self {
            DeltaClass::I8 => 1,
            DeltaClass::I16 => 2,
            DeltaClass::I32 => 4,
            DeltaClass::U32 => 4,
        }
    }

    /// The number of bytes of a field of this class.
    pub fn width(self) -> (width: usize)
        ensures
            width == self.spec_width(),
    {
        match self {
            DeltaClass::I8 => 1,
            DeltaClass::I16 => 2,
            DeltaClass::I32 => 4,
            DeltaClass::U32 => 4,
        }
    }
}

/// The header byte of a face: the class of the first index in bits 7 and 6,
/// that of the second in bits 5 and 4, that of the third in bits 3 and 2, and
/// zero in bits 1 and 0.
pub open spec fn spec_header_byte(first: IndexClass, second: DeltaClass, third: DeltaClass) -> u8 {
    (first.code() * 64 + second.code() * 16 + third.code() * 4) as u8
}

/// The class of the first index that a header byte names, in bits 7 and 6.
pub open spec fn spec_header_first(header: u8) -> IndexClass {
    IndexClass::from_code(header / 64)
}

/// The class of the second index that a header byte names, in bits 5 and 4.
pub open spec fn spec_header_second(header: u8) -> DeltaClass {
    DeltaClass::from_code(header / 16 % 4)
}

/// The class of the third index that a header byte names, in bits 3 and 2.
pub open spec fn spec_header_third(header: u8) -> DeltaClass {
    DeltaClass::from_code(header / 4 % 4)
}

/// Packs three classes into a header byte.
#[verifier::when_used_as_spec(spec_header_byte)]
pub fn header_byte(first: IndexClass, second: DeltaClass, third: DeltaClass) -> (header: u8)
    ensures
        header == spec_header_byte(first, second, third),
{
    let a: u8 = first.code();
    let b: u8 = second.code();
    let c: u8 = third.code();
    assert((a << 6) | (b << 4) | (c << 2) == a * 64 + b * 16 + c * 4) by (bit_vector)
        requires
            a <= 2,
            b <= 3,
            c <= 3,
    ;
    (a << 6) | (b << 4) | (c << 2)
}

/// The class of the first index that a header byte names.
#[verifier::when_used_as_spec(spec_header_first)]
pub fn header_first(header: u8) -> (class: IndexClass)
    ensures
        class == spec_header_first(header),
{
    assert(header >> 6 == header / 64) by (bit_vector);
    IndexClass::from_code(header >> 6)
}

/// The class of the second index that a header byte names.
#[verifier::when_used_as_spec(spec_header_second)]
pub fn header_second(header: u8) -> (class: DeltaClass)
    ensures
        class == spec_header_second(header),
{
    assert((header >> 4) & 3 == header / 16 % 4) by (bit_vector);
    DeltaClass::from_code((header >> 4) & 3)
}

/// The class of the third index that a header byte names.
#[verifier::when_used_as_spec(spec_header_third)]
pub fn header_third(header: u8) -> (class: DeltaClass)
    ensures
        class == spec_header_third(header),
{
    assert((header >> 2) & 3 == header / 4 % 4) by (bit_vector);
    DeltaClass::from_code((header >> 2) & 3)
}

/// A header byte gives back the three classes it was packed from, and its
/// two low bits are zero.
pub proof fn lemma_header_unpacks(first: IndexClass, second: DeltaClass, third: DeltaClass)
    ensures
        header_first(header_byte(first, second, third)) == first,
        header_second(header_byte(first, second, third)) == second,
        header_third(header_byte(first, second, third)) == third,
        header_byte(first, second, third) % 4 == 0,
{
}

/// The class chosen for a first index holds it: the index is below 256 to the
/// power of the class's width, and no narrower class holds it.
pub proof fn lemma_index_class_fits(a: u32)
    ensures
        a < pow256(IndexClass::of(a).spec_width()),
        IndexClass::of(a) == IndexClass::U16 ==> a >= pow256(1),
        IndexClass::of(a) == IndexClass::U32 ==> a >= pow256(2),
{
    lemma_pow256_values();
}

/// The class chosen for a difference holds it in two's complement, unless it
/// is the fallback `U32`; and no narrower class holds it.
pub proof fn lemma_delta_class_fits(a: u32, x: u32)
    ensures
        DeltaClass::of(a, x) != DeltaClass::U32 ==> fits_signed(
            a - x,
            DeltaClass::of(a, x).spec_width(),
        ),
        DeltaClass::of(a, x) == DeltaClass::I16 ==> !fits_signed(a - x, 1),
        DeltaClass::of(a, x) == DeltaClass::I32 ==> !fits_signed(a - x, 2),
        DeltaClass::of(a, x) == DeltaClass::U32 ==> !fits_signed(a - x, 4),
{
    lemma_pow256_values();
}

} // verus!
