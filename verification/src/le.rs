//! Numbers stored low byte first.

use vstd::prelude::*;

verus! {

/// The number whose little-endian bytes are `bytes`: byte `i` counts `256^i` times.
pub open spec fn le_value(bytes: Seq<u8>) -> nat
    decreases bytes.len(),
{
    if bytes.len() == 0 {
        0
    } else {
        bytes[0] as nat + 256 * le_value(bytes.drop_first())
    }
}

/// The `width` little-endian bytes of `value`, low byte first; higher bits are dropped.
pub open spec fn le_bytes(value: nat, width: nat) -> Seq<u8>
    decreases width,
{
    if width == 0 {
        Seq::empty()
    } else {
        seq![(value % 256) as u8] + le_bytes(value / 256, (width - 1) as nat)
    }
}

/// `le_bytes` has the width asked for.
pub proof fn lemma_le_bytes_len(value: nat, width: nat)
    ensures
        le_bytes(value, width).len() == width,
    decreases width,
{
    if width > 0 {
        lemma_le_bytes_len(value / 256, (width - 1) as nat);
    }
}

/// The weight of the byte at place `n` of a little-endian number: 256 to the `n`.
pub open spec fn weight(n: nat) -> nat
    decreases n,
{
    if n == 0 {
        1
    } else {
        256 * weight((n - 1) as nat)
    }
}

/// A weight is positive.
pub proof fn lemma_weight_positive(n: nat)
    ensures
        weight(n) > 0,
    decreases n,
{
    if n > 0 {
        lemma_weight_positive((n - 1) as nat);
    }
}

/// The weights of the first nine places.
pub proof fn lemma_weights()
    ensures
        weight(0) == 1,
        weight(1) == 0x100,
        weight(2) == 0x1_0000,
        weight(3) == 0x100_0000,
        weight(4) == 0x1_0000_0000,
        weight(5) == 0x100_0000_0000,
        weight(6) == 0x1_0000_0000_0000,
        weight(7) == 0x100_0000_0000_0000,
        weight(8) == 0x1_0000_0000_0000_0000,
{
    reveal_with_fuel(weight, 10);
}

/// Reading back the bytes that `le_bytes` wrote gives the value, reduced to the width.
pub proof fn lemma_le_round_trip(value: nat, width: nat)
    ensures
        le_value(le_bytes(value, width)) == value % weight(width),
    decreases width,
{
    if width == 0 {
    } else {
        let rest = (width - 1) as nat;
        let s = le_bytes(value, width);
        lemma_le_round_trip(value / 256, rest);
        assert(s.drop_first() =~= le_bytes(value / 256, rest));
        assert(s[0] == (value % 256) as u8);
        lemma_weight_positive(rest);
        lemma_split_mod(value, weight(rest));
    }
}

/// A little-endian number of `n` bytes is below the weight of place `n`.
pub proof fn lemma_le_value_bound(bytes: Seq<u8>)
    ensures
        le_value(bytes) < weight(bytes.len()),
    decreases bytes.len(),
{
    if bytes.len() > 0 {
        lemma_le_value_bound(bytes.drop_first());
    }
}

/// One more byte at the high end adds that byte at its weight.
pub proof fn lemma_le_value_push(bytes: Seq<u8>, byte: u8)
    ensures
        le_value(bytes.push(byte)) == le_value(bytes) + byte * weight(bytes.len()),
    decreases bytes.len(),
{
    let grown = bytes.push(byte);
    if bytes.len() == 0 {
        assert(grown.drop_first() =~= Seq::<u8>::empty());
        assert(grown[0] == byte);
        assert(le_value(grown) == grown[0] as nat + 256 * le_value(grown.drop_first()));
        assert(le_value(grown.drop_first()) == 0);
        assert(le_value(bytes) == 0);
        assert(weight(0) == 1);
    } else {
        let rest = bytes.drop_first();
        lemma_le_value_push(rest, byte);
        assert(grown.drop_first() =~= rest.push(byte));
        assert(grown[0] == bytes[0]);
        assert(le_value(grown) == grown[0] as nat + 256 * le_value(grown.drop_first()));
        assert(weight(bytes.len()) == 256 * weight(rest.len()));
        assert(byte * (256 * weight(rest.len())) == 256 * (byte * weight(rest.len())))
            by (nonlinear_arith);
    }
}

/// The first bytes of a number's bytes are the bytes of the number at a smaller width.
pub proof fn lemma_le_bytes_prefix(value: nat, width: nat, shorter: nat)
    requires
        shorter <= width,
    ensures
        le_bytes(value, width).take(shorter as int) == le_bytes(value, shorter),
    decreases shorter,
{
    lemma_le_bytes_len(value, width);
    if shorter == 0 {
        assert(le_bytes(value, width).take(0) =~= Seq::<u8>::empty());
    } else {
        lemma_le_bytes_prefix(value / 256, (width - 1) as nat, (shorter - 1) as nat);
        lemma_le_bytes_len(value / 256, (width - 1) as nat);
        assert(le_bytes(value, width).take(shorter as int) =~= seq![(value % 256) as u8]
            + le_bytes(value / 256, (width - 1) as nat).take(shorter - 1));
    }
}

/// `v mod (256 p)` is the low byte of `v` plus 256 times `(v / 256) mod p`.
#[verifier::rlimit(40)]
proof fn lemma_split_mod(v: nat, p: nat)
    requires
        p > 0,
    ensures
        v % (256 * p) == v % 256 + 256 * ((v / 256) % p),
{
    let q = v / 256;
    let r = v % 256;
    assert(v == 256 * q + r);
    let a = q / p;
    let b = q % p;
    assert(q == p * a + b) by {
        vstd::arithmetic::div_mod::lemma_fundamental_div_mod(q as int, p as int);
    }
    assert(v == a * (256 * p) + (256 * b + r)) by (nonlinear_arith)
        requires
            v == 256 * q + r,
            q == p * a + b,
    ;
    assert(256 * p != 0);
    assert(0 <= 256 * b + r < 256 * p) by (nonlinear_arith)
        requires
            0 <= b < p,
            0 <= r < 256,
    ;
    vstd::arithmetic::div_mod::lemma_fundamental_div_mod_converse(
        v as int,
        (256 * p) as int,
        a as int,
        (256 * b + r) as int,
    );
}

/// The two little-endian bytes of `value`.
pub fn u16_to_le(value: u16) -> (bytes: [u8; 2])
    ensures
        bytes@ == le_bytes(value as nat, 2),
{
    let bytes = [(value % 256) as u8, (value / 256) as u8];
    proof {
        reveal_with_fuel(le_bytes, 3);
        assert(bytes@ =~= le_bytes(value as nat, 2));
    }
    bytes
}

/// The four little-endian bytes of `value`.
pub fn u32_to_le(value: u32) -> (bytes: [u8; 4])
    ensures
        bytes@ == le_bytes(value as nat, 4),
{
    let bytes = [
        (value % 256) as u8,
        ((value / 256) % 256) as u8,
        ((value / 65536) % 256) as u8,
        (value / 16777216) as u8,
    ];
    proof {
        reveal_with_fuel(le_bytes, 5);
        assert(bytes@ =~= le_bytes(value as nat, 4));
    }
    bytes
}

/// The eight little-endian bytes of `value`.
pub fn u64_to_le(value: u64) -> (bytes: [u8; 8])
    ensures
        bytes@ == le_bytes(value as nat, 8),
{
    let bytes = [
        (value % 256) as u8,
        ((value / 0x100) % 256) as u8,
        ((value / 0x1_0000) % 256) as u8,
        ((value / 0x100_0000) % 256) as u8,
        ((value / 0x1_0000_0000) % 256) as u8,
        ((value / 0x100_0000_0000) % 256) as u8,
        ((value / 0x1_0000_0000_0000) % 256) as u8,
        (value / 0x100_0000_0000_0000) as u8,
    ];
    proof {
        reveal_with_fuel(le_bytes, 9);
        assert(bytes@ =~= le_bytes(value as nat, 8));
    }
    bytes
}

/// The number stored in the two bytes at `at`, low byte first.
pub fn u16_from_le(bytes: &[u8], at: usize) -> (value: u16)
    requires
        at + 2 <= bytes.len(),
    ensures
        value == le_value(bytes@.subrange(at as int, at + 2)),
{
    let value = bytes[at] as u16 + bytes[at + 1] as u16 * 256;
    proof {
        let s = bytes@.subrange(at as int, at + 2);
        reveal_with_fuel(le_value, 3);
        assert(s.drop_first().drop_first().len() == 0);
        assert(s.drop_first()[0] == bytes@[at + 1]);
    }
    value
}

/// The number stored in the four bytes at `at`, low byte first.
pub fn u32_from_le(bytes: &[u8], at: usize) -> (value: u32)
    requires
        at + 4 <= bytes.len(),
    ensures
        value == le_value(bytes@.subrange(at as int, at + 4)),
{
    let value = bytes[at] as u32 + bytes[at + 1] as u32 * 0x100 + bytes[at + 2] as u32 * 0x1_0000
        + bytes[at + 3] as u32 * 0x100_0000;
    proof {
        let s = bytes@.subrange(at as int, at + 4);
        reveal_with_fuel(le_value, 5);
        let s1 = s.drop_first();
        let s2 = s1.drop_first();
        let s3 = s2.drop_first();
        assert(s3.drop_first().len() == 0);
        assert(s1[0] == bytes@[at + 1]);
        assert(s2[0] == bytes@[at + 2]);
        assert(s3[0] == bytes@[at + 3]);
    }
    value
}

/// The number stored in the eight bytes at `at`, low byte first.
pub fn u64_from_le(bytes: &[u8], at: usize) -> (value: u64)
    requires
        at + 8 <= bytes.len(),
    ensures
        value == le_value(bytes@.subrange(at as int, at + 8)),
{
    let low: u32 = u32_from_le(bytes, at);
    let high: u32 = u32_from_le(bytes, at + 4);
    let value: u64 = low as u64 + high as u64 * 0x1_0000_0000;
    proof {
        let s = bytes@.subrange(at as int, at + 8);
        let a = bytes@.subrange(at as int, at + 4);
        let b = bytes@.subrange(at + 4, at + 8);
        assert(s =~= a + b);
        lemma_le_value_concat(a, b);
        lemma_weights();
    }
    value
}

/// The value of bytes followed by more bytes: the value of the first, and that of
/// the others at the weight of the place where they start.
pub proof fn lemma_le_value_concat(low: Seq<u8>, high: Seq<u8>)
    ensures
        le_value(low + high) == le_value(low) + le_value(high) * weight(low.len()),
    decreases high.len(),
{
    if high.len() == 0 {
        assert(low + high =~= low);
        assert(le_value(high) * weight(low.len()) == 0) by (nonlinear_arith)
            requires
                le_value(high) == 0,
        ;
    } else {
        let head = high.drop_last();
        lemma_le_value_concat(low, head);
        assert(low + high =~= (low + head).push(high.last()));
        lemma_le_value_push(low + head, high.last());
        assert(high =~= head.push(high.last()));
        lemma_le_value_push(head, high.last());
        lemma_weight_adds(low.len(), head.len());
        assert((le_value(head) + high.last() * weight(head.len())) * weight(low.len()) == le_value(
            head,
        ) * weight(low.len()) + high.last() * (weight(low.len()) * weight(head.len())))
            by (nonlinear_arith);
    }
}

/// The weight of a place is the product of the weights of two places that add up to
/// it.
pub proof fn lemma_weight_adds(a: nat, b: nat)
    ensures
        weight(a + b) == weight(a) * weight(b),
    decreases b,
{
    if b == 0 {
        assert(weight(a) * 1 == weight(a)) by (nonlinear_arith);
    } else {
        lemma_weight_adds(a, (b - 1) as nat);
        assert(weight(a + b) == 256 * weight((a + b - 1) as nat));
        assert(256 * (weight(a) * weight((b - 1) as nat)) == weight(a) * (256 * weight(
            (b - 1) as nat,
        ))) by (nonlinear_arith);
    }
}

/// The bytes of a number at a width that holds it stand for the number.
pub proof fn lemma_le_exact(value: nat, width: nat)
    requires
        value < weight(width),
    ensures
        le_value(le_bytes(value, width)) == value,
        le_bytes(value, width).len() == width,
{
    lemma_le_round_trip(value, width);
    lemma_le_bytes_len(value, width);
    vstd::arithmetic::div_mod::lemma_small_mod(value, weight(width));
}

} // verus!
