//! Items written one after the other, and read back one after the other.
//!
//! An encoder maps an item to its bytes. A parser takes an item from the
//! front of a byte sequence and gives it back together with the bytes that
//! follow it, or gives nothing where the sequence ends too early.

use vstd::prelude::*;

verus! {

/// The bytes of each item, in order, one after the other.
pub open spec fn concat_all<T>(items: Seq<T>, enc: spec_fn(T) -> Seq<u8>) -> Seq<u8>
    decreases items.len(),
{
    if items.len() == 0 {
        Seq::empty()
    } else {
        enc(items[0]) + concat_all(items.drop_first(), enc)
    }
}

/// Reads `n` items from the front of `s`: the items and the bytes that follow
/// them, or nothing if one of the `n` reads gives nothing.
pub open spec fn parse_all<T>(
    s: Seq<u8>,
    n: nat,
    parse: spec_fn(Seq<u8>) -> Option<(T, Seq<u8>)>,
) -> Option<(Seq<T>, Seq<u8>)>
    decreases n,
{
    if n == 0 {
        Some((Seq::empty(), s))
    } else {
        match parse(s) {
            None => None,
            Some((item, rest)) => match parse_all(rest, (n - 1) as nat, parse) {
                None => None,
                Some((items, tail)) => Some((seq![item] + items, tail)),
            },
        }
    }
}

/// `parse` undoes `enc`: from the bytes of an item, followed by anything, it
/// takes the item and leaves what follows.
pub open spec fn inverts<T>(
    parse: spec_fn(Seq<u8>) -> Option<(T, Seq<u8>)>,
    enc: spec_fn(T) -> Seq<u8>,
) -> bool {
    forall|item: T, rest: Seq<u8>| #[trigger] parse(enc(item) + rest) == Some((item, rest))
}

/// `parse` gives nothing on the bytes of an item cut short.
pub open spec fn rejects_cut<T>(
    parse: spec_fn(Seq<u8>) -> Option<(T, Seq<u8>)>,
    enc: spec_fn(T) -> Seq<u8>,
) -> bool {
    forall|item: T, k: int|
        0 <= k < enc(item).len() ==> (#[trigger] parse(enc(item).take(k))) is None
}

/// The bytes of a list with one more item are those of the list followed by
/// those of the item.
pub proof fn lemma_concat_all_push<T>(items: Seq<T>, item: T, enc: spec_fn(T) -> Seq<u8>)
    ensures
        concat_all(items.push(item), enc) == concat_all(items, enc) + enc(item),
    decreases items.len(),
{
    let longer = items.push(item);
    if items.len() == 0 {
        assert(longer.drop_first() =~= items);
        assert(concat_all(longer, enc) == enc(item) + concat_all(items, enc));
        assert(concat_all(items, enc) =~= Seq::<u8>::empty());
    } else {
        lemma_concat_all_push(items.drop_first(), item, enc);
        assert(longer.drop_first() =~= items.drop_first().push(item));
        assert(concat_all(longer, enc) =~= concat_all(items, enc) + enc(item));
    }
}

/// What `n` reads give after one item has been read: the item in front of
/// what the other reads give.
pub proof fn lemma_parse_all_step<T>(
    s: Seq<u8>,
    n: nat,
    parse: spec_fn(Seq<u8>) -> Option<(T, Seq<u8>)>,
    done: Seq<T>,
    item: T,
    rest: Seq<u8>,
)
    requires
        n > 0,
        parse(s) == Some((item, rest)),
    ensures
        prepend(done, parse_all(s, n, parse)) == prepend(
            done.push(item),
            parse_all(rest, (n - 1) as nat, parse),
        ),
{
    match parse_all(rest, (n - 1) as nat, parse) {
        None => {},
        Some((items, tail)) => {
            assert(done + (seq![item] + items) =~= done.push(item) + items);
        },
    }
}

/// The result of reading items, with the items `done` put in front of them.
pub open spec fn prepend<T>(done: Seq<T>, result: Option<(Seq<T>, Seq<u8>)>) -> Option<
    (Seq<T>, Seq<u8>),
> {
    match result {
        None => None,
        Some((items, tail)) => Some((done + items, tail)),
    }
}

/// Where `parse` undoes `enc`, reading as many items as were written gives
/// them back, and leaves what follows their bytes.
pub proof fn lemma_parse_all_concat<T>(
    items: Seq<T>,
    rest: Seq<u8>,
    parse: spec_fn(Seq<u8>) -> Option<(T, Seq<u8>)>,
    enc: spec_fn(T) -> Seq<u8>,
)
    requires
        inverts(parse, enc),
    ensures
        parse_all(concat_all(items, enc) + rest, items.len(), parse) == Some((items, rest)),
    decreases items.len(),
{
    if items.len() == 0 {
        assert(concat_all(items, enc) + rest =~= rest);
        assert(items =~= Seq::<T>::empty());
    } else {
        let first = items[0];
        let others = items.drop_first();
        let after = concat_all(others, enc) + rest;
        assert(concat_all(items, enc) + rest =~= enc(first) + after);
        assert(parse(enc(first) + after) == Some((first, after)));
        lemma_parse_all_concat(others, rest, parse, enc);
        assert(seq![first] + others =~= items);
    }
}

/// Where `parse` undoes `enc` and gives nothing on an item cut short, reading
/// as many items as were written gives nothing once the bytes are cut short.
pub proof fn lemma_parse_all_cut<T>(
    items: Seq<T>,
    k: int,
    parse: spec_fn(Seq<u8>) -> Option<(T, Seq<u8>)>,
    enc: spec_fn(T) -> Seq<u8>,
)
    requires
        inverts(parse, enc),
        rejects_cut(parse, enc),
        0 <= k < concat_all(items, enc).len(),
    ensures
        parse_all(concat_all(items, enc).take(k), items.len(), parse) is None,
    decreases items.len(),
{
    if items.len() > 0 {
        let first = items[0];
        let others = items.drop_first();
        let head = enc(first);
        let tail = concat_all(others, enc);
        let cut = (head + tail).take(k);
        if k < head.len() {
            assert(cut =~= head.take(k));
            assert(parse(head.take(k)) is None);
        } else {
            let kept = tail.take(k - head.len());
            assert(cut =~= head + kept);
            assert(parse(head + kept) == Some((first, kept)));
            lemma_parse_all_cut(others, k - head.len(), parse, enc);
        }
    }
}

/// Where every item takes between `low` and `high` bytes, a list of items
/// takes between `low` and `high` bytes for each of them.
pub proof fn lemma_concat_all_len<T>(
    items: Seq<T>,
    enc: spec_fn(T) -> Seq<u8>,
    low: nat,
    high: nat,
)
    requires
        forall|item: T| low <= (#[trigger] enc(item)).len() <= high,
    ensures
        low * items.len() <= concat_all(items, enc).len() <= high * items.len(),
    decreases items.len(),
{
    if items.len() > 0 {
        let others = items.drop_first();
        lemma_concat_all_len(others, enc, low, high);
        assert(low <= enc(items[0]).len() <= high);
        assert(low * items.len() == low * others.len() + low) by (nonlinear_arith)
            requires
                items.len() == others.len() + 1,
        ;
        assert(high * items.len() == high * others.len() + high) by (nonlinear_arith)
            requires
                items.len() == others.len() + 1,
        ;
    }
}

} // verus!
