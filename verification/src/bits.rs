//! Vectors of bits as the end header packs them: eight to a byte, the highest bit
//! first.

use vstd::prelude::*;

use crate::error::Error;

verus! {

/// 1 where `bits` has a bit at `index` and it is set, else 0.
pub open spec fn bit_at(bits: Seq<bool>, index: int) -> int {
    if 0 <= index < bits.len() && bits[index] {
        1
    } else {
        0
    }
}

/// The byte that holds the eight bits from `from` on, the first in its highest
/// bit; bits beyond the end count as not set.
pub open spec fn packed_byte(bits: Seq<bool>, from: int) -> u8 {
    (128 * bit_at(bits, from) + 64 * bit_at(bits, from + 1) + 32 * bit_at(bits, from + 2) + 16
        * bit_at(bits, from + 3) + 8 * bit_at(bits, from + 4) + 4 * bit_at(bits, from + 5) + 2
        * bit_at(bits, from + 6) + bit_at(bits, from + 7)) as u8
}

/// The bytes that hold `bits`, eight to the byte, the first in the highest bit.
#[verifier::opaque]
pub open spec fn packed(bits: Seq<bool>) -> Seq<u8> {
    Seq::new(((bits.len() + 7) / 8) as nat, |k: int| packed_byte(bits, 8 * k))
}

/// The value of the bit at place `place` of a byte, the highest bit being place 0.
pub open spec fn bit_weight(place: int) -> int {
    if place == 0 {
        128
    } else if place == 1 {
        64
    } else if place == 2 {
        32
    } else if place == 3 {
        16
    } else if place == 4 {
        8
    } else if place == 5 {
        4
    } else if place == 6 {
        2
    } else {
        1
    }
}

/// Whether the bit at `index` is set in `bytes`.
pub open spec fn bit_is_set(bytes: Seq<u8>, index: int) -> bool {
    (bytes[index / 8] as int / bit_weight(index % 8)) % 2 == 1
}

/// The first `count` bits that `bytes` hold.
#[verifier::opaque]
pub open spec fn unpacked(bytes: Seq<u8>, count: nat) -> Seq<bool> {
    Seq::new(count, |i: int| bit_is_set(bytes, i))
}

/// A bit that was packed is found set exactly where it was set.
pub proof fn lemma_bit_round_trip(bits: Seq<bool>, index: int)
    requires
        0 <= index < bits.len(),
    ensures
        bit_is_set(packed(bits), index) == bits[index],
{
    reveal(packed);
    let from = 8 * (index / 8);
    let place = index % 8;
    let byte = packed_byte(bits, from);
    assert(packed(bits)[index / 8] == byte);
    let b0 = bit_at(bits, from);
    let b1 = bit_at(bits, from + 1);
    let b2 = bit_at(bits, from + 2);
    let b3 = bit_at(bits, from + 3);
    let b4 = bit_at(bits, from + 4);
    let b5 = bit_at(bits, from + 5);
    let b6 = bit_at(bits, from + 6);
    let b7 = bit_at(bits, from + 7);
    let sum = 128 * b0 + 64 * b1 + 32 * b2 + 16 * b3 + 8 * b4 + 4 * b5 + 2 * b6 + b7;
    assert(0 <= sum < 256);
    assert(byte == sum);
    if place == 0 {
        assert((sum / 128) % 2 == b0);
    } else if place == 1 {
        assert((sum / 64) % 2 == b1);
    } else if place == 2 {
        assert((sum / 32) % 2 == b2);
    } else if place == 3 {
        assert((sum / 16) % 2 == b3);
    } else if place == 4 {
        assert((sum / 8) % 2 == b4);
    } else if place == 5 {
        assert((sum / 4) % 2 == b5);
    } else if place == 6 {
        assert((sum / 2) % 2 == b6);
    } else {
        assert((sum / 1) % 2 == b7);
    }
}

/// As many bits are unpacked as are asked for.
pub proof fn lemma_unpacked_len(bytes: Seq<u8>, count: nat)
    ensures
        unpacked(bytes, count).len() == count,
{
    reveal(unpacked);
}

/// Bits that were packed are unpacked as they were, whatever follows their bytes.
pub proof fn lemma_bits_round_trip(bits: Seq<bool>, rest: Seq<u8>)
    ensures
        packed(bits).len() == (bits.len() + 7) / 8,
        unpacked(packed(bits) + rest, bits.len()) == bits,
{
    reveal(packed);
    reveal(unpacked);
    assert forall|i: int| 0 <= i < bits.len() implies unpacked(packed(bits) + rest, bits.len())[i]
        == bits[i] by {
        lemma_bit_round_trip(bits, i);
        assert((packed(bits) + rest)[i / 8] == packed(bits)[i / 8]);
    }
    assert(unpacked(packed(bits) + rest, bits.len()) =~= bits);
}

/// Appends the bytes that hold `bits` to `out`.
pub fn write_bits(out: &mut Vec<u8>, bits: &[bool])
    ensures
        final(out)@ == old(out)@ + packed(bits@),
{
    let count: usize = bits.len() / 8 + if bits.len() % 8 == 0 {
        0usize
    } else {
        1usize
    };
    let mut k: usize = 0;
    let ghost start = out@;
    proof {
        reveal(packed);
    }
    assert(out@ =~= start + packed(bits@).take(0));
    while k < count
        invariant
            k <= count,
            count == (bits.len() + 7) / 8,
            count == packed(bits@).len(),
            out@ == start + packed(bits@).take(k as int),
        decreases count - k,
    {
        proof {
            reveal(packed);
        }
        let from: usize = k * 8;
        let mut byte: u8 = 0;
        let mut place: usize = 0;
        let mut weight: u8 = 128;
        while place < 8
            invariant
                place <= 8,
                from < bits.len(),
                weight == if place < 8 {
                    bit_weight(place as int)
                } else {
                    0
                },
                byte == partial_byte(bits@, from as int, place as int),
                byte + 2 * weight <= 256,
            decreases 8 - place,
        {
            if bits.len() - from > place && bits[from + place] {
                byte = byte + weight;
            }
            weight = weight / 2;
            place += 1;
        }
        assert(byte == packed_byte(bits@, from as int)) by {
            reveal_with_fuel(partial_byte, 9);
        }
        out.push(byte);
        assert(out@ =~= start + packed(bits@).take(k + 1)) by {
            assert(packed(bits@)[k as int] == packed_byte(bits@, 8 * (k as int)));
        }
        k += 1;
    }
    assert(packed(bits@).take(count as int) =~= packed(bits@));
}

/// The value of the first `places` bits of the byte that starts at `from`.
pub open spec fn partial_byte(bits: Seq<bool>, from: int, places: int) -> int
    decreases places,
{
    if places <= 0 {
        0
    } else {
        partial_byte(bits, from, places - 1) + bit_weight(places - 1) * bit_at(
            bits,
            from + places - 1,
        )
    }
}

/// Reads `count` bits from the bytes at `at` and returns them with the place behind
/// their bytes. Bytes that end before the bits do are refused.
pub fn read_bits(bytes: &[u8], at: usize, count: usize) -> (read: Result<(Vec<bool>, usize), Error>)
    requires
        at <= bytes.len(),
    ensures
        bytes.len() - at < (count + 7) / 8 ==> read == Err::<(Vec<bool>, usize), Error>(
            Error::Other("Truncated bit vector"),
        ),
        bytes.len() - at >= (count + 7) / 8 ==> {
            &&& read matches Ok((bits, end))
            &&& bits@ == unpacked(bytes@.skip(at as int), count as nat)
            &&& bits@.len() == count
            &&& end == at + (count + 7) / 8
        },
{
    let needed: usize = count / 8 + if count % 8 == 0 {
        0usize
    } else {
        1usize
    };
    if bytes.len() - at < needed {
        return Err(Error::other("Truncated bit vector"));
    }
    let mut bits: Vec<bool> = Vec::new();
    let mut i: usize = 0;
    let ghost tail = bytes@.skip(at as int);
    proof {
        reveal(unpacked);
    }
    while i < count
        invariant
            i <= count,
            needed == (count + 7) / 8,
            at + needed <= bytes.len(),
            tail == bytes@.skip(at as int),
            bits@ == unpacked(tail, i as nat),
        decreases count - i,
    {
        let byte: u8 = bytes[at + i / 8];
        let place: usize = i % 8;
        let weight: u8 = if place == 0 {
            128
        } else if place == 1 {
            64
        } else if place == 2 {
            32
        } else if place == 3 {
            16
        } else if place == 4 {
            8
        } else if place == 5 {
            4
        } else if place == 6 {
            2
        } else {
            1
        };
        bits.push((byte / weight) % 2 == 1);
        assert(tail[(i / 8) as int] == byte);
        i += 1;
        assert(bits@ =~= unpacked(tail, i as nat)) by {
            reveal(unpacked);
        }
    }
    proof {
        lemma_unpacked_len(tail, count as nat);
    }
    Ok((bits, at + needed))
}

} // verus!
