//! Text cut into pieces at a separator byte.

use vstd::prelude::*;

verus! {

/// The number of bytes of `s` in front of the first `b`, or the length of `s`
/// where it holds no `b`.
pub open spec fn first_index(s: Seq<u8>, b: u8) -> nat
    decreases s.len(),
{
    if s.len() == 0 || s[0] == b {
        0
    } else {
        1 + first_index(s.drop_first(), b)
    }
}

/// The pieces of `s` between its separators, in order. Every separator ends
/// one piece and starts the next, so there is one piece more than there are
/// separators, and a piece may be empty.
pub open spec fn split(s: Seq<u8>, sep: u8) -> Seq<Seq<u8>>
    decreases s.len(),
{
    let i = first_index(s, sep);
    if i >= s.len() {
        seq![s]
    } else {
        seq![s.take(i as int)] + split(s.skip(i as int + 1), sep)
    }
}

/// The parts of `bytes` that the spans name, each span a start and an end.
pub open spec fn pieces_at(bytes: Seq<u8>, spans: Seq<(usize, usize)>) -> Seq<Seq<u8>> {
    Seq::new(spans.len(), |i: int| bytes.subrange(spans[i].0 as int, spans[i].1 as int))
}

/// Whether every span lies between `start` and `end`, start before end.
pub open spec fn spans_within(spans: Seq<(usize, usize)>, start: int, end: int) -> bool {
    forall|i: int|
        0 <= i < spans.len() ==> start <= (#[trigger] spans[i]).0 <= spans[i].1 <= end
}

/// The first `b` lies within `s` or at its end, and no `b` lies in front of it.
pub proof fn lemma_first_index(s: Seq<u8>, b: u8)
    ensures
        first_index(s, b) <= s.len(),
        first_index(s, b) < s.len() ==> s[first_index(s, b) as int] == b,
        forall|j: int| 0 <= j < first_index(s, b) ==> s[j] != b,
    decreases s.len(),
{
    if s.len() > 0 && s[0] != b {
        let tail = s.drop_first();
        lemma_first_index(tail, b);
        assert forall|j: int| 0 <= j < first_index(s, b) implies s[j] != b by {
            if j > 0 {
                assert(s[j] == tail[j - 1]);
            }
        }
    }
}

/// A place that holds `b` or is the end, with no `b` in front of it, is the
/// place of the first `b`.
pub proof fn lemma_first_index_is(s: Seq<u8>, b: u8, k: int)
    requires
        0 <= k <= s.len(),
        k < s.len() ==> s[k] == b,
        forall|j: int| 0 <= j < k ==> s[j] != b,
    ensures
        first_index(s, b) == k,
    decreases s.len(),
{
    if k > 0 {
        let tail = s.drop_first();
        assert forall|j: int| 0 <= j < k - 1 implies tail[j] != b by {
            assert(tail[j] == s[j + 1]);
        }
        lemma_first_index_is(tail, b, k - 1);
    }
}

/// There is at least one piece.
pub proof fn lemma_split_len(s: Seq<u8>, sep: u8)
    ensures
        split(s, sep).len() >= 1,
    decreases s.len(),
{
    lemma_first_index(s, sep);
}

/// Text without a separator is one piece.
pub proof fn lemma_split_one(s: Seq<u8>, sep: u8)
    requires
        forall|j: int| 0 <= j < s.len() ==> s[j] != sep,
    ensures
        split(s, sep) == seq![s],
{
    lemma_first_index_is(s, sep, s.len() as int);
}

/// Text without a separator, then a separator, then more text: the first
/// piece is the text in front, and the other pieces are those of the text
/// behind.
pub proof fn lemma_split_first(head: Seq<u8>, sep: u8, tail: Seq<u8>)
    requires
        forall|j: int| 0 <= j < head.len() ==> head[j] != sep,
    ensures
        split(head + seq![sep] + tail, sep) == seq![head] + split(tail, sep),
{
    let s = head + seq![sep] + tail;
    lemma_first_index_is(s, sep, head.len() as int);
    assert(s.take(head.len() as int) =~= head);
    assert(s.skip(head.len() as int + 1) =~= tail);
}

/// The place of the first `b` from `start` on and before `end`, or `end`
/// where there is none.
pub fn find_byte(bytes: &[u8], start: usize, end: usize, b: u8) -> (k: usize)
    requires
        start <= end <= bytes.len(),
    ensures
        start <= k <= end,
        k - start == first_index(bytes@.subrange(start as int, end as int), b),
{
    let mut k: usize = start;
    while k < end && bytes[k] != b
        invariant
            start <= k <= end <= bytes.len(),
            forall|j: int| start <= j < k ==> bytes@[j] != b,
        decreases end - k,
    {
        k += 1;
    }
    proof {
        lemma_first_index_is(bytes@.subrange(start as int, end as int), b, k - start);
    }
    k
}

/// Cuts the text from `start` to `end` at each `sep`: the spans of the
/// pieces, in order.
pub fn split_spans(bytes: &[u8], start: usize, end: usize, sep: u8) -> (spans: Vec<(usize, usize)>)
    requires
        start <= end <= bytes.len(),
    ensures
        spans_within(spans@, start as int, end as int),
        pieces_at(bytes@, spans@) == split(bytes@.subrange(start as int, end as int), sep),
{
    let ghost whole = split(bytes@.subrange(start as int, end as int), sep);
    let mut spans: Vec<(usize, usize)> = Vec::new();
    let mut from: usize = start;
    assert(pieces_at(bytes@, spans@) + whole =~= whole);
    loop
        invariant_except_break
            start <= from <= end <= bytes.len(),
            spans_within(spans@, start as int, end as int),
            whole == pieces_at(bytes@, spans@) + split(
                bytes@.subrange(from as int, end as int),
                sep,
            ),
        ensures
            spans_within(spans@, start as int, end as int),
            whole == pieces_at(bytes@, spans@),
        decreases end - from,
    {
        let k = find_byte(bytes, from, end, sep);
        let ghost before = spans@;
        let ghost rest = bytes@.subrange(from as int, end as int);
        spans.push((from, k));
        proof {
            assert(rest.take(k - from) =~= bytes@.subrange(from as int, k as int));
            assert(pieces_at(bytes@, spans@) =~= pieces_at(bytes@, before).push(
                bytes@.subrange(from as int, k as int),
            ));
        }
        if k == end {
            proof {
                assert(rest.take(k - from) =~= rest);
                assert(pieces_at(bytes@, before) + seq![rest] =~= pieces_at(bytes@, spans@));
            }
            break;
        }
        proof {
            let tail = split(bytes@.subrange(k + 1, end as int), sep);
            assert(rest.skip(k - from + 1) =~= bytes@.subrange(k + 1, end as int));
            assert(pieces_at(bytes@, before) + (seq![rest.take(k - from)] + tail) =~= pieces_at(
                bytes@,
                spans@,
            ) + tail);
        }
        from = k + 1;
    }
    spans
}

} // verus!
