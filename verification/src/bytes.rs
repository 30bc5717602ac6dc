//! Fixed-width integers as byte strings, in both byte orders.

use vstd::prelude::*;

verus! {

/// 256 to the power `width`: how many values `width` bytes can hold.
pub open spec fn span(width: nat) -> nat
    decreases width,
{
    if width == 0 {
        1
    } else {
        256 * span((width - 1) as nat)
    }
}

/// The last `width` bytes of `value`, most significant first.
pub open spec fn be(value: nat, width: nat) -> Seq<u8>
    decreases width,
{
    if width == 0 {
        Seq::empty()
    } else {
        be(value / 256, (width - 1) as nat).push((value % 256) as u8)
    }
}

/// The last `width` bytes of `value`, least significant first.
pub open spec fn le(value: nat, width: nat) -> Seq<u8>
    decreases width,
{
    if width == 0 {
        Seq::empty()
    } else {
        seq![(value % 256) as u8] + le(value / 256, (width - 1) as nat)
    }
}

/// What a byte string says when read most significant byte first.
pub open spec fn be_value(bytes: Seq<u8>) -> nat
    decreases bytes.len(),
{
    if bytes.len() == 0 {
        0
    } else {
        256 * be_value(bytes.drop_last()) + bytes.last() as nat
    }
}

/// What a byte string says when read least significant byte first.
pub open spec fn le_value(bytes: Seq<u8>) -> nat
    decreases bytes.len(),
{
    if bytes.len() == 0 {
        0
    } else {
        bytes[0] as nat + 256 * le_value(bytes.subrange(1, bytes.len() as int))
    }
}

/// The spans of the widths that the formats use.
pub proof fn lemma_spans()
    ensures
        span(1) == 0x100,
        span(2) == 0x1_0000,
        span(4) == 0x1_0000_0000,
        span(8) == 0x1_0000_0000_0000_0000,
        span(16) == 0x1_0000_0000_0000_0000_0000_0000_0000_0000,
{
    reveal_with_fuel(span, 17);
}

pub proof fn lemma_span_grows(a: nat, b: nat)
    requires
        a <= b,
    ensures
        span(a) <= span(b),
        span(a) >= 1,
    decreases b,
{
    if a < b {
        lemma_span_grows(a, (b - 1) as nat);
    } else if a > 0 {
        lemma_span_grows((a - 1) as nat, (b - 1) as nat);
    }
}

/// An encoding is exactly as wide as asked for.
pub proof fn lemma_be_len(value: nat, width: nat)
    ensures
        be(value, width).len() == width,
    decreases width,
{
    if width > 0 {
        lemma_be_len(value / 256, (width - 1) as nat);
    }
}

/// An encoding is exactly as wide as asked for.
pub proof fn lemma_le_len(value: nat, width: nat)
    ensures
        le(value, width).len() == width,
    decreases width,
{
    if width > 0 {
        lemma_le_len(value / 256, (width - 1) as nat);
    }
}

/// Reading back a big-endian encoding gives the value that was encoded.
pub proof fn lemma_be_round_trip(value: nat, width: nat)
    requires
        value < span(width),
    ensures
        be_value(be(value, width)) == value,
    decreases width,
{
    if width > 0 {
        lemma_be_len(value / 256, (width - 1) as nat);
        lemma_be_round_trip(value / 256, (width - 1) as nat);
        assert(be(value, width).drop_last() =~= be(value / 256, (width - 1) as nat));
    }
}

/// Reading back a little-endian encoding gives the value that was encoded.
pub proof fn lemma_le_round_trip(value: nat, width: nat)
    requires
        value < span(width),
    ensures
        le_value(le(value, width)) == value,
    decreases width,
{
    if width > 0 {
        lemma_le_len(value / 256, (width - 1) as nat);
        lemma_le_round_trip(value / 256, (width - 1) as nat);
        assert(le(value, width).subrange(1, width as int) =~= le(
            value / 256,
            (width - 1) as nat,
        ));
    }
}

/// A byte string says less than its width can span.
pub proof fn lemma_be_value_bound(bytes: Seq<u8>)
    ensures
        be_value(bytes) < span(bytes.len()),
    decreases bytes.len(),
{
    if bytes.len() > 0 {
        lemma_be_value_bound(bytes.drop_last());
    }
}

/// Writing out what a byte string says gives the byte string back.
pub proof fn lemma_be_of_value(bytes: Seq<u8>)
    ensures
        be(be_value(bytes), bytes.len()) == bytes,
    decreases bytes.len(),
{
    if bytes.len() > 0 {
        lemma_be_of_value(bytes.drop_last());
        assert(be_value(bytes) / 256 == be_value(bytes.drop_last()));
        assert(be(be_value(bytes), bytes.len()) =~= bytes);
    } else {
        assert(be(be_value(bytes), bytes.len()) =~= bytes);
    }
}

/// A byte string says less than its width can span.
pub proof fn lemma_le_value_bound(bytes: Seq<u8>)
    ensures
        le_value(bytes) < span(bytes.len()),
    decreases bytes.len(),
{
    if bytes.len() > 0 {
        lemma_le_value_bound(bytes.subrange(1, bytes.len() as int));
    }
}

/// Writing out what a byte string says gives the byte string back.
pub proof fn lemma_le_of_value(bytes: Seq<u8>)
    ensures
        le(le_value(bytes), bytes.len()) == bytes,
    decreases bytes.len(),
{
    if bytes.len() > 0 {
        let rest = bytes.subrange(1, bytes.len() as int);
        lemma_le_of_value(rest);
        assert(le_value(bytes) / 256 == le_value(rest));
        assert(le(le_value(bytes), bytes.len()) =~= bytes);
    } else {
        assert(le(le_value(bytes), bytes.len()) =~= bytes);
    }
}

/// The bytes of a number are its digits to the base 256. Most significant
/// first, the byte in place `i` of `width` stands for `256^(width - 1 - i)`;
/// least significant first, for `256^i`.
pub proof fn lemma_bytes_are_digits(value: nat, width: nat, i: int)
    requires
        0 <= i < width,
    ensures
        span(width) == vstd::arithmetic::power::pow(256, width),
        be(value, width).len() == width,
        le(value, width).len() == width,
        be(value, width)[width - 1 - i] as int == value as int / vstd::arithmetic::power::pow(
            256,
            i as nat,
        ) % 256,
        le(value, width)[i] as int == value as int / vstd::arithmetic::power::pow(256, i as nat)
            % 256,
    decreases width,
{
    lemma_be_len(value, width);
    lemma_le_len(value, width);
    lemma_span_is_a_power(width);
    lemma_be_len(value / 256, (width - 1) as nat);
    lemma_le_len(value / 256, (width - 1) as nat);
    if i == 0 {
        vstd::arithmetic::power::lemma_pow0(256);
        assert(value as int / 1 == value);
    } else {
        lemma_bytes_are_digits(value / 256, (width - 1) as nat, i - 1);
        let rest = vstd::arithmetic::power::pow(256, (i - 1) as nat);
        vstd::arithmetic::power::lemma_pow_adds(256, 1, (i - 1) as nat);
        vstd::arithmetic::power::lemma_pow1(256);
        vstd::arithmetic::power::lemma_pow_positive(256, (i - 1) as nat);
        vstd::arithmetic::div_mod::lemma_div_denominator(value as int, 256, rest);
        assert(be(value, width)[width - 1 - i] == be(value / 256, (width - 1) as nat)[width - 1
            - i]);
        assert(le(value, width)[i] == le(value / 256, (width - 1) as nat)[i - 1]);
    }
}

proof fn lemma_span_is_a_power(width: nat)
    ensures
        span(width) == vstd::arithmetic::power::pow(256, width),
    decreases width,
{
    if width == 0 {
        vstd::arithmetic::power::lemma_pow0(256);
    } else {
        lemma_span_is_a_power((width - 1) as nat);
        vstd::arithmetic::power::lemma_pow_adds(256, 1, (width - 1) as nat);
        vstd::arithmetic::power::lemma_pow1(256);
    }
}

/// Two values that fit a width and are written alike are the same value.
pub proof fn lemma_le_injective(a: nat, b: nat, width: nat)
    requires
        a < span(width),
        b < span(width),
        le(a, width) == le(b, width),
    ensures
        a == b,
{
    lemma_le_round_trip(a, width);
    lemma_le_round_trip(b, width);
}

/// Two values that fit a width and are written alike are the same value.
pub proof fn lemma_be_injective(a: nat, b: nat, width: nat)
    requires
        a < span(width),
        b < span(width),
        be(a, width) == be(b, width),
    ensures
        a == b,
{
    lemma_be_round_trip(a, width);
    lemma_be_round_trip(b, width);
}

/// Append the last `width` bytes of `value`, most significant first.
pub fn push_be(out: &mut Vec<u8>, value: u128, width: usize)
    ensures
        final(out)@ == old(out)@ + be(value as nat, width as nat),
    decreases width,
{
    if width > 0 {
        push_be(out, value / 256, width - 1);
        out.push((value % 256) as u8);
    }
    assert(out@ =~= old(out)@ + be(value as nat, width as nat));
}

/// Append the last `width` bytes of `value`, least significant first.
pub fn push_le(out: &mut Vec<u8>, value: u128, width: usize)
    ensures
        final(out)@ == old(out)@ + le(value as nat, width as nat),
    decreases width,
{
    if width > 0 {
        out.push((value % 256) as u8);
        push_le(out, value / 256, width - 1);
    }
    assert(out@ =~= old(out)@ + le(value as nat, width as nat));
}

/// Append a whole slice.
pub fn push_all(out: &mut Vec<u8>, bytes: &[u8])
    ensures
        final(out)@ == old(out)@ + bytes@,
{
    out.extend_from_slice(bytes);
    assert(out@ =~= old(out)@ + bytes@);
}

/// Sixteen bytes as an array.
pub fn array_of(bytes: &[u8]) -> (array: [u8; 16])
    requires
        bytes@.len() == 16,
    ensures
        array@ == bytes@,
{
    let mut array: [u8; 16] = [0u8;16];
    let mut i: usize = 0;
    while i < 16
        invariant
            i <= 16,
            bytes@.len() == 16,
            forall|k: int| 0 <= k < i ==> array@[k] == bytes@[k],
        decreases 16 - i,
    {
        array[i] = bytes[i];
        i = i + 1;
    }
    assert(array@ =~= bytes@);
    array
}

/// Read `bytes[start..start + width]`, most significant byte first.
pub fn read_be(bytes: &[u8], start: usize, width: usize) -> (value: u128)
    requires
        start + width <= bytes@.len(),
        width <= 16,
    ensures
        value == be_value(bytes@.subrange(start as int, start + width)),
        value < span(width as nat),
{
    let mut value: u128 = 0;
    let mut i: usize = 0;
    proof {
        lemma_be_value_bound(bytes@.subrange(start as int, start + i));
    }
    while i < width
        invariant
            i <= width <= 16,
            start + width <= bytes.len(),
            value == be_value(bytes@.subrange(start as int, start + i)),
        decreases width - i,
    {
        proof {
            let before = bytes@.subrange(start as int, start + i);
            let after = bytes@.subrange(start as int, start + i + 1);
            assert(after.drop_last() =~= before);
            lemma_be_value_bound(after);
            lemma_span_grows(after.len(), 16);
            lemma_spans();
        }
        value = 256 * value + bytes[start + i] as u128;
        i = i + 1;
    }
    proof {
        lemma_be_value_bound(bytes@.subrange(start as int, start + width));
    }
    value
}

} // verus!
