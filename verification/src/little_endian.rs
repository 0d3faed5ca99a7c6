//! Little-endian integers of a fixed number of bytes, unsigned and in two's
//! complement: what they are as byte sequences, and how to write and read them.

use vstd::prelude::*;

verus! {

/// 256 to the power `n`: the number of values that `n` bytes can hold.
pub open spec fn pow256(n: nat) -> nat
    decreases n,
{
    if n == 0 {
        1
    } else {
        256 * pow256((n - 1) as nat)
    }
}

/// The `width` low-order base-256 digits of `v`, least significant first.
pub open spec fn le_bytes(v: nat, width: nat) -> Seq<u8>
    decreases width,
{
    if width == 0 {
        Seq::empty()
    } else {
        seq![(v % 256) as u8] + le_bytes(v / 256, (width - 1) as nat)
    }
}

/// The natural number whose base-256 digits, least significant first, are `s`.
pub open spec fn le_value(s: Seq<u8>) -> nat
    decreases s.len(),
{
    if s.len() == 0 {
        0
    } else {
        s[0] as nat + 256 * le_value(s.drop_first())
    }
}

/// Whether `d` can be written in two's complement on `width` bytes.
pub open spec fn fits_signed(d: int, width: nat) -> bool {
    -(pow256(width) as int) <= 2 * d < pow256(width) as int
}

/// The unsigned number with the same `width` bytes as `d` has in two's complement.
pub open spec fn twos_complement(d: int, width: nat) -> nat {
    if d >= 0 {
        d as nat
    } else {
        (pow256(width) + d) as nat
    }
}

/// The bytes `s` read as a little-endian integer in two's complement.
pub open spec fn signed_value(s: Seq<u8>) -> int {
    let v = le_value(s);
    if 2 * v >= pow256(s.len()) {
        v - pow256(s.len())
    } else {
        v as int
    }
}

/// The powers of 256 for the widths that occur in practice.
pub proof fn lemma_pow256_values()
    ensures
        pow256(0) == 1,
        pow256(1) == 0x100,
        pow256(2) == 0x1_0000,
        pow256(4) == 0x1_0000_0000,
        pow256(8) == 0x1_0000_0000_0000_0000,
{
    reveal_with_fuel(pow256, 9);
}

/// Powers of 256 grow with the exponent.
pub proof fn lemma_pow256_monotonic(m: nat, n: nat)
    requires
        m <= n,
    ensures
        pow256(m) <= pow256(n),
    decreases n,
{
    if m < n {
        lemma_pow256_monotonic(m, (n - 1) as nat);
    }
}

/// Writing on `width` bytes gives `width` bytes.
pub proof fn lemma_le_bytes_len(v: nat, width: nat)
    ensures
        le_bytes(v, width).len() == width,
    decreases width,
{
    if width > 0 {
        lemma_le_bytes_len(v / 256, (width - 1) as nat);
    }
}

/// A sequence of bytes reads as a number below 256 to the power of its length.
pub proof fn lemma_le_value_bound(s: Seq<u8>)
    ensures
        le_value(s) < pow256(s.len()),
    decreases s.len(),
{
    if s.len() > 0 {
        lemma_le_value_bound(s.drop_first());
    }
}

/// Reading back what was written gives the number, if it fits the width.
pub proof fn lemma_le_value_of_bytes(v: nat, width: nat)
    requires
        v < pow256(width),
    ensures
        le_value(le_bytes(v, width)) == v,
    decreases width,
{
    if width > 0 {
        let rest = le_bytes(v / 256, (width - 1) as nat);
        lemma_le_value_of_bytes(v / 256, (width - 1) as nat);
        assert(le_bytes(v, width).drop_first() =~= rest);
    }
}

/// A number that fits in two's complement is read back from its bytes.
pub proof fn lemma_signed_value_of_bytes(d: int, width: nat)
    requires
        width > 0,
        fits_signed(d, width),
    ensures
        twos_complement(d, width) < pow256(width),
        signed_value(le_bytes(twos_complement(d, width), width)) == d,
{
    let u = twos_complement(d, width);
    lemma_le_bytes_len(u, width);
    lemma_le_value_of_bytes(u, width);
}

/// Appends the `width` low-order bytes of `value`, least significant first.
pub fn push_le(out: &mut Vec<u8>, value: u64, width: usize)
    ensures
        final(out)@ == old(out)@ + le_bytes(value as nat, width as nat),
{
    let mut v: u64 = value;
    let mut i: usize = 0;
    while i < width
        invariant
            i <= width,
            out@ + le_bytes(v as nat, (width - i) as nat) == old(out)@ + le_bytes(
                value as nat,
                width as nat,
            ),
        decreases width - i,
    {
        let ghost before = out@;
        out.push((v % 256) as u8);
        proof {
            let rest = le_bytes((v / 256) as nat, (width - i - 1) as nat);
            assert(le_bytes(v as nat, (width - i) as nat) == seq![(v % 256) as u8] + rest);
            assert(out@ + rest =~= before + (seq![(v % 256) as u8] + rest));
        }
        v = v / 256;
        i += 1;
    }
    assert(out@ + le_bytes(v as nat, 0) =~= out@);
}

/// Reads `width` bytes at `pos` as an unsigned little-endian integer.
pub fn read_le(bytes: &[u8], pos: usize, width: usize) -> (value: u64)
    requires
        width <= 8,
        pos + width <= bytes.len(),
    ensures
        value == le_value(bytes@.subrange(pos as int, pos + width)),
{
    let ghost field = bytes@.subrange(pos as int, pos + width);
    let mut value: u64 = 0;
    let mut i: usize = width;
    proof {
        assert(field.skip(width as int) =~= Seq::<u8>::empty());
    }
    while i > 0
        invariant
            i <= width <= 8,
            pos + width <= bytes.len(),
            field == bytes@.subrange(pos as int, pos + width),
            value == le_value(field.skip(i as int)),
        decreases i,
    {
        i -= 1;
        let byte = bytes[pos + i];
        proof {
            let tail = field.skip(i as int);
            assert(tail.drop_first() =~= field.skip(i + 1));
            assert(tail[0] == byte);
            lemma_le_value_bound(field.skip(i + 1));
            assert(pow256((width - i - 1) as nat) <= pow256(7)) by {
                lemma_pow256_monotonic((width - i - 1) as nat, 7);
            }
            reveal_with_fuel(pow256, 8);
        }
        value = value * 256 + byte as u64;
    }
    proof {
        assert(field.skip(0) =~= field);
    }
    value
}

} // verus!
