//! Three 32-bit words as twelve bytes: the fixed-width form of a position,
//! and of a face where its indices are not compressed.

use vstd::prelude::*;
use crate::little_endian::{
    le_bytes,
    le_value,
    lemma_le_bytes_len,
    lemma_le_value_bound,
    lemma_le_value_of_bytes,
    lemma_pow256_values,
    push_le,
    read_le,
};

verus! {

/// The number of bytes of three 32-bit words.
pub const TRIPLE_LEN: usize = 12;

/// The three words, each little-endian on four bytes, in order.
pub open spec fn triple_bytes(t: [u32; 3]) -> Seq<u8> {
    le_bytes(t[0] as nat, 4) + le_bytes(t[1] as nat, 4) + le_bytes(t[2] as nat, 4)
}

/// Takes three words from the front of `s`: the words and the bytes that
/// follow them, or nothing if `s` has fewer than twelve bytes.
pub open spec fn parse_triple(s: Seq<u8>) -> Option<([u32; 3], Seq<u8>)> {
    if s.len() < 12 {
        None
    } else {
        Some(
            (
                [
                    le_value(s.subrange(0, 4)) as u32,
                    le_value(s.subrange(4, 8)) as u32,
                    le_value(s.subrange(8, 12)) as u32,
                ],
                s.skip(12),
            ),
        )
    }
}

/// `triple_bytes` as a function value.
pub open spec fn triple_encoder() -> spec_fn([u32; 3]) -> Seq<u8> {
    |t: [u32; 3]| triple_bytes(t)
}

/// `parse_triple` as a function value.
pub open spec fn triple_parser() -> spec_fn(Seq<u8>) -> Option<([u32; 3], Seq<u8>)> {
    |s: Seq<u8>| parse_triple(s)
}

/// Three words take twelve bytes.
pub proof fn lemma_triple_bytes_len(t: [u32; 3])
    ensures
        triple_bytes(t).len() == 12,
{
    lemma_le_bytes_len(t[0] as nat, 4);
    lemma_le_bytes_len(t[1] as nat, 4);
    lemma_le_bytes_len(t[2] as nat, 4);
}

/// From the bytes of three words, followed by anything, the three words are
/// read back and what follows is left.
pub proof fn lemma_parse_triple_bytes(t: [u32; 3], rest: Seq<u8>)
    ensures
        parse_triple(triple_bytes(t) + rest) == Some((t, rest)),
{
    let s = triple_bytes(t) + rest;
    lemma_triple_bytes_len(t);
    lemma_pow256_values();
    lemma_le_bytes_len(t[0] as nat, 4);
    lemma_le_bytes_len(t[1] as nat, 4);
    lemma_le_bytes_len(t[2] as nat, 4);
    lemma_le_value_of_bytes(t[0] as nat, 4);
    lemma_le_value_of_bytes(t[1] as nat, 4);
    lemma_le_value_of_bytes(t[2] as nat, 4);
    assert(s.subrange(0, 4) =~= le_bytes(t[0] as nat, 4));
    assert(s.subrange(4, 8) =~= le_bytes(t[1] as nat, 4));
    assert(s.subrange(8, 12) =~= le_bytes(t[2] as nat, 4));
    assert(s.skip(12) =~= rest);
    let back = parse_triple(s).unwrap().0;
    assert(back@ =~= t@);
}

/// Appends the twelve bytes of three words.
pub fn push_triple(out: &mut Vec<u8>, t: &[u32; 3])
    ensures
        final(out)@ == old(out)@ + triple_bytes(*t),
{
    push_le(out, t[0] as u64, 4);
    push_le(out, t[1] as u64, 4);
    push_le(out, t[2] as u64, 4);
    assert(out@ =~= old(out)@ + triple_bytes(*t));
}

/// Reads three words at `pos`: the words and the position behind them, or
/// nothing if fewer than twelve bytes are left.
pub fn read_triple(bytes: &[u8], pos: usize) -> (r: Option<([u32; 3], usize)>)
    requires
        pos <= bytes.len(),
    ensures
        match r {
            Some((t, next)) => next == pos + 12 && next <= bytes.len() && parse_triple(
                bytes@.skip(pos as int),
            ) == Some((t, bytes@.skip(next as int))),
            None => parse_triple(bytes@.skip(pos as int)) is None,
        },
{
    if bytes.len() - pos < TRIPLE_LEN {
        return None;
    }
    let ghost s = bytes@.skip(pos as int);
    proof {
        lemma_pow256_values();
        assert(s.subrange(0, 4) =~= bytes@.subrange(pos as int, pos + 4));
        assert(s.subrange(4, 8) =~= bytes@.subrange(pos + 4, pos + 8));
        assert(s.subrange(8, 12) =~= bytes@.subrange(pos + 8, pos + 12));
        assert(s.skip(12) =~= bytes@.skip(pos + 12));
        lemma_le_value_bound(s.subrange(0, 4));
        lemma_le_value_bound(s.subrange(4, 8));
        lemma_le_value_bound(s.subrange(8, 12));
    }
    let x = read_le(bytes, pos, 4) as u32;
    let y = read_le(bytes, pos + 4, 4) as u32;
    let z = read_le(bytes, pos + 8, 4) as u32;
    let t = [x, y, z];
    proof {
        let spec_t = parse_triple(s).unwrap().0;
        assert(t@ =~= spec_t@);
    }
    Some((t, pos + 12))
}

} // verus!
