//! Unsigned 32-bit integers in decimal, as the text format writes and reads
//! them.

use vstd::prelude::*;

verus! {

/// The character `0`.
pub const DIGIT_ZERO: u8 = 48;

/// The character `9`.
pub const DIGIT_NINE: u8 = 57;

/// The character `+`.
pub const PLUS: u8 = 43;

/// Whether `b` is one of the characters `0` to `9`.
pub open spec fn is_digit(b: u8) -> bool {
    DIGIT_ZERO <= b <= DIGIT_NINE
}

/// The number that the digit `b` stands for.
pub open spec fn digit_value(b: u8) -> nat {
    if b >= DIGIT_ZERO {
        (b - DIGIT_ZERO) as nat
    } else {
        0
    }
}

/// Whether `s` holds at least one character and only digits.
pub open spec fn is_digits(s: Seq<u8>) -> bool {
    s.len() > 0 && forall|i: int| 0 <= i < s.len() ==> is_digit(#[trigger] s[i])
}

/// The number that the digits `s` stand for, most significant first.
pub open spec fn decimal_value(s: Seq<u8>) -> nat
    decreases s.len(),
{
    if s.len() == 0 {
        0
    } else {
        10 * decimal_value(s.drop_last()) + digit_value(s.last())
    }
}

/// The number that a field of text stands for: digits, with or without a `+`
/// in front, whose value fits 32 bits. Anything else is no number.
pub open spec fn parse_u32(field: Seq<u8>) -> Option<u32> {
    let digits = if field.len() > 0 && field[0] == PLUS {
        field.drop_first()
    } else {
        field
    };
    if is_digits(digits) && decimal_value(digits) <= u32::MAX {
        Some(decimal_value(digits) as u32)
    } else {
        None
    }
}

/// The digits of `n`, most significant first, without leading zeros; one
/// digit for zero.
pub open spec fn decimal_digits(n: nat) -> Seq<u8>
    decreases n,
{
    if n < 10 {
        seq![(DIGIT_ZERO + n) as u8]
    } else {
        decimal_digits(n / 10).push((DIGIT_ZERO + n % 10) as u8)
    }
}

/// The digits in front stand for no more than all the digits.
pub proof fn lemma_decimal_value_prefix(s: Seq<u8>, k: int)
    requires
        0 <= k <= s.len(),
    ensures
        decimal_value(s.take(k)) <= decimal_value(s),
    decreases s.len(),
{
    if k == s.len() {
        assert(s.take(k) =~= s);
    } else {
        lemma_decimal_value_prefix(s.drop_last(), k);
        assert(s.drop_last().take(k) =~= s.take(k));
    }
}

/// The digits of a number are digits, hold no `+`, and stand for the number.
pub proof fn lemma_decimal_digits(n: nat)
    ensures
        is_digits(decimal_digits(n)),
        decimal_digits(n)[0] != PLUS,
        decimal_value(decimal_digits(n)) == n,
    decreases n,
{
    if n < 10 {
        let s = decimal_digits(n);
        assert(s.drop_last() =~= Seq::<u8>::empty());
        assert(decimal_value(s.drop_last()) == 0);
    } else {
        lemma_decimal_digits(n / 10);
        let front = decimal_digits(n / 10);
        let s = decimal_digits(n);
        assert(s.drop_last() =~= front);
        assert(s[0] == front[0]);
    }
}

/// A number written in decimal is read back.
pub proof fn lemma_parse_decimal_digits(n: u32)
    ensures
        parse_u32(decimal_digits(n as nat)) == Some(n),
{
    lemma_decimal_digits(n as nat);
}

/// Appends `n` in decimal.
pub fn push_decimal(out: &mut Vec<u8>, n: u32)
    ensures
        final(out)@ == old(out)@ + decimal_digits(n as nat),
{
    let mut divisor: u32 = 1;
    while n / divisor >= 10
        invariant
            1 <= divisor <= n || divisor == 1,
            decimal_digits(n as nat) == decimal_digits((n / divisor) as nat) + low_digits(
                n as nat,
                divisor as nat,
            ),
            is_power_of_ten(divisor as nat),
        decreases n / divisor,
    {
        proof {
            lemma_split_low_digits(n as nat, divisor as nat);
            lemma_div_bounds(n as nat, divisor as nat);
        }
        divisor = divisor * 10;
    }
    let ghost before = out@;
    out.push(DIGIT_ZERO + (n / divisor) as u8);
    assert(out@ =~= before + decimal_digits((n / divisor) as nat));
    while divisor > 1
        invariant
            is_power_of_ten(divisor as nat),
            divisor >= 1,
            out@ + low_digits(n as nat, divisor as nat) == before + decimal_digits(n as nat),
        decreases divisor,
    {
        let ghost so_far = out@;
        let next: u32 = divisor / 10;
        proof {
            lemma_low_digits_unfold(n as nat, divisor as nat);
        }
        out.push(DIGIT_ZERO + ((n / next) % 10) as u8);
        proof {
            let digit = (DIGIT_ZERO + ((n / next) % 10)) as u8;
            assert(out@ + low_digits(n as nat, next as nat) =~= so_far + (seq![digit] + low_digits(
                n as nat,
                next as nat,
            )));
        }
        divisor = next;
    }
    assert(out@ + low_digits(n as nat, 1) =~= out@);
}

/// Whether `d` is 1, 10, 100 and so on.
pub open spec fn is_power_of_ten(d: nat) -> bool
    decreases d,
{
    d == 1 || (d >= 10 && d % 10 == 0 && is_power_of_ten(d / 10))
}

/// The digits of `n` below the power of ten `d`: as many as `d` has zeros.
pub open spec fn low_digits(n: nat, d: nat) -> Seq<u8>
    decreases d,
{
    if d < 10 {
        Seq::empty()
    } else {
        seq![(DIGIT_ZERO + (n / (d / 10)) % 10) as u8] + low_digits(n, d / 10)
    }
}

/// The digits below `d` start with the digit just below `d`.
pub proof fn lemma_low_digits_unfold(n: nat, d: nat)
    requires
        is_power_of_ten(d),
        d > 1,
    ensures
        is_power_of_ten(d / 10),
        d / 10 >= 1,
        low_digits(n, d) == seq![(DIGIT_ZERO + (n / (d / 10)) % 10) as u8] + low_digits(n, d / 10),
{
}

/// The digits of `n` from `d` up, followed by one more digit, are the digits
/// of `n` from `d / 10` up.
pub proof fn lemma_split_low_digits(n: nat, d: nat)
    requires
        is_power_of_ten(d),
        n / d >= 10,
        decimal_digits(n) == decimal_digits(n / d) + low_digits(n, d),
    ensures
        is_power_of_ten(d * 10),
        decimal_digits(n) == decimal_digits(n / (d * 10)) + low_digits(n, d * 10),
{
    let q = n / d;
    assert(n / (d * 10) == q / 10) by (nonlinear_arith)
        requires
            q == n / d,
            d > 0,
    ;
    assert((d * 10) / 10 == d);
    assert(is_power_of_ten(d * 10));
    let digit = (DIGIT_ZERO + q % 10) as u8;
    assert(decimal_digits(q) == decimal_digits(q / 10).push(digit));
    assert(low_digits(n, d * 10) == seq![digit] + low_digits(n, d));
    assert(decimal_digits(q / 10).push(digit) + low_digits(n, d) =~= decimal_digits(q / 10) + (
    seq![digit] + low_digits(n, d)));
}

/// Where `n / d` has two digits or more, ten times `d` is no more than `n`.
pub proof fn lemma_div_bounds(n: nat, d: nat)
    requires
        d > 0,
        n / d >= 10,
    ensures
        d * 10 <= n,
        n / (d * 10) < n / d,
{
    assert(d * 10 <= n) by (nonlinear_arith)
        requires
            d > 0,
            n / d >= 10,
    ;
    assert(n / (d * 10) < n / d) by (nonlinear_arith)
        requires
            d > 0,
            n / d >= 10,
    ;
}

/// Reads the text from `start` to `end` as an unsigned 32-bit integer.
pub fn read_u32(bytes: &[u8], start: usize, end: usize) -> (r: Option<u32>)
    requires
        start <= end <= bytes.len(),
    ensures
        r == parse_u32(bytes@.subrange(start as int, end as int)),
{
    let ghost field = bytes@.subrange(start as int, end as int);
    let mut i: usize = start;
    if i < end && bytes[i] == PLUS {
        i += 1;
    }
    let first: usize = i;
    let ghost digits = bytes@.subrange(first as int, end as int);
    assert(digits =~= if field.len() > 0 && field[0] == PLUS {
        field.drop_first()
    } else {
        field
    });
    if first == end {
        return None;
    }
    let mut value: u64 = 0;
    assert(digits.take(0) =~= Seq::<u8>::empty());
    while i < end
        invariant
            start <= first <= i <= end <= bytes.len(),
            digits == bytes@.subrange(first as int, end as int),
            parse_u32(bytes@.subrange(start as int, end as int)) == if is_digits(digits)
                && decimal_value(digits) <= u32::MAX {
                Some(decimal_value(digits) as u32)
            } else {
                None
            },
            value == decimal_value(digits.take(i - first)),
            value <= u32::MAX,
            forall|j: int| 0 <= j < i - first ==> is_digit(#[trigger] digits[j]),
        decreases end - i,
    {
        let b = bytes[i];
        if b < DIGIT_ZERO || b > DIGIT_NINE {
            assert(!is_digit(digits[i - first]));
            return None;
        }
        proof {
            let longer = digits.take(i - first + 1);
            assert(longer.drop_last() =~= digits.take(i - first));
            assert(longer.last() == b);
            lemma_decimal_value_prefix(digits, i - first + 1);
        }
        value = value * 10 + (b - DIGIT_ZERO) as u64;
        if value > u32::MAX as u64 {
            return None;
        }
        i += 1;
    }
    assert(digits.take(i - first) =~= digits);
    Some(value as u32)
}

} // verus!
