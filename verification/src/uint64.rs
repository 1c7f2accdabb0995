//! The numbers of variable length of the end header.

use vstd::prelude::*;

use crate::error::Error;
use crate::le::{
    le_bytes, le_value, lemma_le_bytes_len, lemma_le_bytes_prefix, lemma_le_round_trip,
    lemma_le_value_bound, lemma_le_value_push, lemma_weights, u64_to_le, weight,
};

verus! {

/// The number of bytes that follow the first byte when `value` is written: the least
/// `k` with `value` below 2^(7 + 7k), and 8 where there is none below 8.
pub open spec fn extra_bytes(value: u64) -> nat {
    if value < 0x80 {
        0
    } else if value < 0x4000 {
        1
    } else if value < 0x20_0000 {
        2
    } else if value < 0x1000_0000 {
        3
    } else if value < 0x8_0000_0000 {
        4
    } else if value < 0x400_0000_0000 {
        5
    } else if value < 0x2_0000_0000_0000 {
        6
    } else if value < 0x100_0000_0000_0000 {
        7
    } else {
        8
    }
}

/// The first byte whose `k` high bits are ones and whose other bits are zeros.
pub open spec fn lead_base(k: nat) -> nat {
    if k == 0 {
        0x00
    } else if k == 1 {
        0x80
    } else if k == 2 {
        0xC0
    } else if k == 3 {
        0xE0
    } else if k == 4 {
        0xF0
    } else if k == 5 {
        0xF8
    } else if k == 6 {
        0xFC
    } else if k == 7 {
        0xFE
    } else {
        0xFF
    }
}

/// The number of one bits at the high end of `byte`, before its first zero bit.
pub open spec fn leading_ones(byte: u8) -> nat {
    if byte < 0x80 {
        0
    } else if byte < 0xC0 {
        1
    } else if byte < 0xE0 {
        2
    } else if byte < 0xF0 {
        3
    } else if byte < 0xF8 {
        4
    } else if byte < 0xFC {
        5
    } else if byte < 0xFE {
        6
    } else if byte < 0xFF {
        7
    } else {
        8
    }
}

/// The bytes that stand for `value`: a first byte whose leading one bits count the
/// bytes that follow and whose other bits are the high bits of the value, then the
/// low bytes of the value, lowest first.
pub open spec fn encoded(value: u64) -> Seq<u8> {
    let k = extra_bytes(value);
    seq![(lead_base(k) + value as nat / weight(k)) as u8] + le_bytes(value as nat, k)
}

/// The number that starts `bytes`, with the count of the bytes it takes; none where
/// `bytes` end before the number does.
pub open spec fn decoded(bytes: Seq<u8>) -> Option<(u64, nat)> {
    if bytes.len() == 0 {
        None
    } else {
        let k = leading_ones(bytes[0]);
        if bytes.len() < 1 + k {
            None
        } else {
            Some(
                (
                    (le_value(bytes.subrange(1, 1 + k as int)) + (bytes[0] - lead_base(k)) * weight(
                        k,
                    )) as u64,
                    1 + k,
                ),
            )
        }
    }
}

/// The high bits of a number, above the bytes that follow the first byte, fit beside
/// the leading ones of the first byte.
pub proof fn lemma_high_bits(value: u64)
    ensures
        lead_base(extra_bytes(value)) + value as nat / weight(extra_bytes(value)) < 256,
        leading_ones(
            (lead_base(extra_bytes(value)) + value as nat / weight(extra_bytes(value))) as u8,
        ) == extra_bytes(value),
{
    lemma_weights();
    let k = extra_bytes(value);
    let v = value as nat;
    if k == 0 {
        assert(v / 1 < 0x80);
    } else if k == 1 {
        assert(v / 0x100 < 0x40);
    } else if k == 2 {
        assert(v / 0x1_0000 < 0x20);
    } else if k == 3 {
        assert(v / 0x100_0000 < 0x10);
    } else if k == 4 {
        assert(v / 0x1_0000_0000 < 0x8);
    } else if k == 5 {
        assert(v / 0x100_0000_0000 < 0x4);
    } else if k == 6 {
        assert(v / 0x1_0000_0000_0000 < 0x2);
    } else if k == 7 {
        assert(v / 0x100_0000_0000_0000 < 0x1);
    } else {
        assert(v / 0x1_0000_0000_0000_0000 == 0);
    }
}

/// Every number is read back from its bytes, whatever follows them, and the reader
/// takes exactly those bytes.
pub proof fn lemma_decode_encode(value: u64, rest: Seq<u8>)
    ensures
        encoded(value).len() == 1 + extra_bytes(value),
        decoded(encoded(value) + rest) == Some((value, 1 + extra_bytes(value))),
{
    let k = extra_bytes(value);
    let v = value as nat;
    lemma_weights();
    lemma_le_bytes_len(v, k);
    lemma_le_round_trip(v, k);
    let bytes = encoded(value) + rest;
    let high = v / weight(k);
    lemma_high_bits(value);
    assert(bytes[0] == (lead_base(k) + high) as u8);
    assert(bytes.subrange(1, 1 + k as int) =~= le_bytes(v, k));
    assert(v == weight(k) * (v / weight(k)) + v % weight(k)) by {
        vstd::arithmetic::div_mod::lemma_fundamental_div_mod(v as int, weight(k) as int);
    }
    assert((v / weight(k)) * weight(k) == weight(k) * (v / weight(k))) by (nonlinear_arith);
}

/// No bytes that stand for a number are fewer than the bytes that the number is
/// written with.
pub proof fn lemma_encoded_is_shortest(bytes: Seq<u8>)
    requires
        decoded(bytes) is Some,
    ensures
        decoded(bytes) matches Some((value, taken)) && taken >= encoded(value).len(),
{
    let k = leading_ones(bytes[0]);
    let low = bytes.subrange(1, 1 + k as int);
    let (value, taken) = decoded(bytes).unwrap();
    lemma_weights();
    lemma_le_value_bound(low);
    lemma_le_bytes_len(value as nat, extra_bytes(value));
    if k < 8 {
        let high = (bytes[0] - lead_base(k)) as nat;
        assert((high + 1) * weight(k) == high * weight(k) + weight(k)) by (nonlinear_arith);
        assert(high * weight(k) + weight(k) <= lead_limit(k)) by {
            lemma_high_bound(k, high);
        }
    }
}

/// The bound below which a number is written with `k` bytes after the first:
/// 2^(7 + 7k).
pub open spec fn lead_limit(k: nat) -> nat {
    if k == 0 {
        0x80
    } else if k == 1 {
        0x4000
    } else if k == 2 {
        0x20_0000
    } else if k == 3 {
        0x1000_0000
    } else if k == 4 {
        0x8_0000_0000
    } else if k == 5 {
        0x400_0000_0000
    } else if k == 6 {
        0x2_0000_0000_0000
    } else {
        0x100_0000_0000_0000
    }
}

/// The high bits that a first byte with `k` leading ones carries, at their weight,
/// stay below the bound for `k`.
proof fn lemma_high_bound(k: nat, high: nat)
    requires
        k < 8,
        high + lead_base(k) < lead_base(k + 1),
    ensures
        high * weight(k) + weight(k) <= lead_limit(k),
{
    lemma_weights();
    let w = weight(k);
    if k == 0 {
        assert(high * w + w <= lead_limit(k)) by (nonlinear_arith)
            requires
                high < 0x80,
                w == 1,
                lead_limit(k) == 0x80,
        ;
    } else if k == 1 {
        assert(high * w + w <= lead_limit(k)) by (nonlinear_arith)
            requires
                high < 0x40,
                w == 0x100,
                lead_limit(k) == 0x4000,
        ;
    } else if k == 2 {
        assert(high * w + w <= lead_limit(k)) by (nonlinear_arith)
            requires
                high < 0x20,
                w == 0x1_0000,
                lead_limit(k) == 0x20_0000,
        ;
    } else if k == 3 {
        assert(high * w + w <= lead_limit(k)) by (nonlinear_arith)
            requires
                high < 0x10,
                w == 0x100_0000,
                lead_limit(k) == 0x1000_0000,
        ;
    } else if k == 4 {
        assert(high * w + w <= lead_limit(k)) by (nonlinear_arith)
            requires
                high < 0x8,
                w == 0x1_0000_0000,
                lead_limit(k) == 0x8_0000_0000,
        ;
    } else if k == 5 {
        assert(high * w + w <= lead_limit(k)) by (nonlinear_arith)
            requires
                high < 0x4,
                w == 0x100_0000_0000,
                lead_limit(k) == 0x400_0000_0000,
        ;
    } else if k == 6 {
        assert(high * w + w <= lead_limit(k)) by (nonlinear_arith)
            requires
                high < 0x2,
                w == 0x1_0000_0000_0000,
                lead_limit(k) == 0x2_0000_0000_0000,
        ;
    } else {
        assert(high * w + w <= lead_limit(k)) by (nonlinear_arith)
            requires
                high < 0x1,
                w == 0x100_0000_0000_0000,
                lead_limit(k) == 0x100_0000_0000_0000,
        ;
    }
}

/// Appends the bytes that stand for `value` to `out`.
pub fn write_u64(out: &mut Vec<u8>, value: u64)
    ensures
        final(out)@ == old(out)@ + encoded(value),
{
    proof {
        lemma_weights();
    }
    let (k, first): (usize, u8) = if value < 0x80 {
        (0, value as u8)
    } else if value < 0x4000 {
        (1, (0x80 + value / 0x100) as u8)
    } else if value < 0x20_0000 {
        (2, (0xC0 + value / 0x1_0000) as u8)
    } else if value < 0x1000_0000 {
        (3, (0xE0 + value / 0x100_0000) as u8)
    } else if value < 0x8_0000_0000 {
        (4, (0xF0 + value / 0x1_0000_0000) as u8)
    } else if value < 0x400_0000_0000 {
        (5, (0xF8 + value / 0x100_0000_0000) as u8)
    } else if value < 0x2_0000_0000_0000 {
        (6, (0xFC + value / 0x1_0000_0000_0000) as u8)
    } else if value < 0x100_0000_0000_0000 {
        (7, (0xFE + value / 0x100_0000_0000_0000) as u8)
    } else {
        (8, 0xFF)
    };
    assert(k == extra_bytes(value));
    proof {
        lemma_high_bits(value);
    }
    assert(first == (lead_base(k as nat) + value as nat / weight(k as nat)) as u8);
    out.push(first);
    let low = u64_to_le(value);
    proof {
        lemma_le_bytes_prefix(value as nat, 8, k as nat);
        lemma_le_bytes_len(value as nat, 8);
    }
    crate::buf::append(out, vstd::slice::slice_subrange(low.as_slice(), 0, k));
    assert(out@ =~= old(out)@ + encoded(value));
}

/// Reads the number that starts at `at` in `bytes` and returns it with the place
/// behind it. Bytes that end before the number does are refused.
pub fn read_u64(bytes: &[u8], at: usize) -> (read: Result<(u64, usize), Error>)
    requires
        at <= bytes.len(),
    ensures
        match decoded(bytes@.skip(at as int)) {
            Some((value, taken)) => read == Ok::<(u64, usize), Error>(
                (value, (at + taken) as usize),
            ) && at + taken <= bytes.len(),
            None => read == Err::<(u64, usize), Error>(Error::Other("Truncated number")),
        },
{
    let ghost tail = bytes@.skip(at as int);
    if at >= bytes.len() {
        return Err(Error::other("Truncated number"));
    }
    let first: u8 = bytes[at];
    let (k, high): (usize, u8) = if first < 0x80 {
        (0, first)
    } else if first < 0xC0 {
        (1, first - 0x80)
    } else if first < 0xE0 {
        (2, first - 0xC0)
    } else if first < 0xF0 {
        (3, first - 0xE0)
    } else if first < 0xF8 {
        (4, first - 0xF0)
    } else if first < 0xFC {
        (5, first - 0xF8)
    } else if first < 0xFE {
        (6, first - 0xFC)
    } else if first < 0xFF {
        (7, first - 0xFE)
    } else {
        (8, 0)
    };
    assert(tail[0] == first);
    assert(k == leading_ones(first) && high == first - lead_base(k as nat));
    if bytes.len() - at < 1 + k {
        return Err(Error::other("Truncated number"));
    }
    let ghost low = tail.subrange(1, 1 + k);
    let mut value: u64 = 0;
    let mut place: u64 = 1;
    let mut i: usize = 0;
    proof {
        lemma_weights();
        assert(low.take(0) =~= Seq::<u8>::empty());
    }
    while i < k
        invariant
            i <= k <= 8,
            at + 1 + k <= bytes.len(),
            low == bytes@.skip(at as int).subrange(1, 1 + k),
            value == le_value(low.take(i as int)),
            i < 8 ==> place == weight(i as nat),
        decreases k - i,
    {
        proof {
            lemma_weights();
            lemma_le_value_bound(low.take(i as int));
            lemma_le_value_push(low.take(i as int), low[i as int]);
            assert(low.take(i as int).push(low[i as int]) =~= low.take(i + 1));
            assert(low[i as int] * weight(i as nat) <= 255 * weight(i as nat)) by (nonlinear_arith)
                requires
                    low[i as int] <= 255,
            ;
        }
        let byte: u64 = bytes[at + 1 + i] as u64;
        value = value + byte * place;
        i += 1;
        if i < 8 {
            place = place * 256;
        }
    }
    proof {
        lemma_weights();
        assert(low.take(k as int) =~= low);
        lemma_le_value_bound(low);
        if k < 8 {
            lemma_high_bound(k as nat, high as nat);
        }
    }
    if k < 8 {
        assert(high as u64 * place == (first - lead_base(k as nat)) * weight(k as nat))
            by (nonlinear_arith)
            requires
                high == first - lead_base(k as nat),
                place == weight(k as nat),
        ;
        value = value + high as u64 * place;
    } else {
        assert((first - lead_base(k as nat)) * weight(k as nat) == 0) by (nonlinear_arith)
            requires
                first - lead_base(k as nat) == 0,
        ;
    }
    assert(value == le_value(low) + (first - lead_base(k as nat)) * weight(k as nat));
    Ok((value, at + 1 + k))
}

} // verus!
