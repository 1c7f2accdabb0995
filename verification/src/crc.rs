//! CRC32 as 7z uses it, bit by bit, and the check of bytes against a declared CRC.

use vstd::prelude::*;

use crate::error::Error;

verus! {

/// The CRC register after one more bit: shifted down, and changed by the reflected
/// IEEE 802.3 polynomial where a one bit fell out.
pub open spec fn crc_bit_step(state: u32) -> u32 {
    if state & 1 == 1 {
        (state >> 1) ^ 0xEDB8_8320u32
    } else {
        state >> 1
    }
}

/// The CRC register after one more byte.
pub open spec fn crc_byte_step(state: u32, byte: u8) -> u32 {
    crc_bit_step(
        crc_bit_step(
            crc_bit_step(
                crc_bit_step(
                    crc_bit_step(crc_bit_step(crc_bit_step(crc_bit_step(state ^ byte as u32)))),
                ),
            ),
        ),
    )
}

/// The CRC register after the bytes `data`, started at all ones.
pub open spec fn crc_state(data: Seq<u8>) -> u32
    decreases data.len(),
{
    if data.len() == 0 {
        0xFFFF_FFFFu32
    } else {
        crc_byte_step(crc_state(data.drop_last()), data.last())
    }
}

/// The CRC32 of `data`: the register after the data, with every bit turned.
pub open spec fn crc32(data: Seq<u8>) -> u32 {
    crc_state(data) ^ 0xFFFF_FFFFu32
}

/// A CRC32 in the making.
pub struct Crc32 {
    state: u32,
    seen: Ghost<Seq<u8>>,
}

impl Crc32 {
    /// The register is the one after the bytes taken in.
    pub closed spec fn wf(&self) -> bool {
        self.state == crc_state(self.seen@)
    }

    /// The bytes taken in so far.
    pub closed spec fn data(&self) -> Seq<u8> {
        self.seen@
    }

    /// A CRC32 with no bytes taken in.
    pub fn new() -> (crc: Crc32)
        ensures
            crc.wf(),
            crc.data() == Seq::<u8>::empty(),
    {
        Crc32 { state: 0xFFFF_FFFF, seen: Ghost(Seq::empty()) }
    }

    /// Takes in the bytes `bytes`, after those taken in before.
    pub fn update(&mut self, bytes: &[u8])
        requires
            old(self).wf(),
        ensures
            final(self).wf(),
            final(self).data() == old(self).data() + bytes@,
    {
        let ghost before = self.seen@;
        let mut state: u32 = self.state;
        let mut i: usize = 0;
        assert(before + bytes@.take(0) =~= before);
        while i < bytes.len()
            invariant
                i <= bytes.len(),
                state == crc_state(before + bytes@.take(i as int)),
            decreases bytes.len() - i,
        {
            let ghost taken = before + bytes@.take(i as int);
            let ghost grown = before + bytes@.take(i + 1);
            assert(grown.drop_last() =~= taken);
            assert(grown.last() == bytes@[i as int]);
            state = byte_step(state, bytes[i]);
            i += 1;
        }
        assert(bytes@.take(bytes.len() as int) =~= bytes@);
        self.state = state;
        self.seen = Ghost(before + bytes@);
    }

    /// The CRC32 of the bytes taken in.
    pub fn finalize(&self) -> (crc: u32)
        requires
            self.wf(),
        ensures
            crc == crc32(self.data()),
    {
        self.state ^ 0xFFFF_FFFF
    }
}

/// The CRC register after one more byte.
fn byte_step(state: u32, byte: u8) -> (next: u32)
    ensures
        next == crc_byte_step(state, byte),
{
    let mut register: u32 = state ^ byte as u32;
    let ghost start = register;
    let mut bit: u8 = 0;
    while bit < 8
        invariant
            bit <= 8,
            start == state ^ byte as u32,
            bit == 0 ==> register == start,
            bit == 1 ==> register == crc_bit_step(start),
            bit == 2 ==> register == crc_bit_step(crc_bit_step(start)),
            bit == 3 ==> register == crc_bit_step(crc_bit_step(crc_bit_step(start))),
            bit == 4 ==> register == crc_bit_step(
                crc_bit_step(crc_bit_step(crc_bit_step(start))),
            ),
            bit == 5 ==> register == crc_bit_step(
                crc_bit_step(crc_bit_step(crc_bit_step(crc_bit_step(start)))),
            ),
            bit == 6 ==> register == crc_bit_step(
                crc_bit_step(crc_bit_step(crc_bit_step(crc_bit_step(crc_bit_step(start))))),
            ),
            bit == 7 ==> register == crc_bit_step(
                crc_bit_step(
                    crc_bit_step(crc_bit_step(crc_bit_step(crc_bit_step(crc_bit_step(start))))),
                ),
            ),
            bit == 8 ==> register == crc_bit_step(
                crc_bit_step(
                    crc_bit_step(
                        crc_bit_step(
                            crc_bit_step(crc_bit_step(crc_bit_step(crc_bit_step(start)))),
                        ),
                    ),
                ),
            ),
        decreases 8 - bit,
    {
        register = if register & 1 == 1 {
            (register >> 1) ^ 0xEDB8_8320
        } else {
            register >> 1
        };
        bit += 1;
    }
    register
}

/// The CRC32 of `data`.
pub fn crc32_of(data: &[u8]) -> (crc: u32)
    ensures
        crc == crc32(data@),
{
    let mut crc = Crc32::new();
    crc.update(data);
    assert(Seq::<u8>::empty() + data@ =~= data@);
    crc.finalize()
}

/// Holds `data` against the CRC declared for it: data with another CRC than the
/// declared one is refused, and data for which none is declared passes.
pub fn verify_crc(declared: Option<u32>, data: &[u8]) -> (verified: Result<(), Error>)
    ensures
        declared matches Some(crc) && crc != crc32(data@) ==> verified == Err::<(), Error>(
            Error::ChecksumMismatch,
        ),
        !(declared matches Some(crc) && crc != crc32(data@)) ==> verified is Ok,
{
    match declared {
        Some(crc) => {
            if crc32_of(data) != crc {
                Err(Error::ChecksumMismatch)
            } else {
                Ok(())
            }
        },
        None => Ok(()),
    }
}

/// Two registers that differ still differ after one more bit.
proof fn lemma_bit_step_injective(a: u32, b: u32)
    requires
        crc_bit_step(a) == crc_bit_step(b),
    ensures
        a == b,
{
    assert((if a & 1 == 1 {
        (a >> 1) ^ 0xEDB8_8320u32
    } else {
        a >> 1
    }) == (if b & 1 == 1 {
        (b >> 1) ^ 0xEDB8_8320u32
    } else {
        b >> 1
    }) ==> a == b) by (bit_vector);
}

/// Two registers that differ still differ after the same byte, and one register
/// differs after two bytes that differ.
proof fn lemma_byte_step_injective(a: u32, x: u8, b: u32, y: u8)
    requires
        crc_byte_step(a, x) == crc_byte_step(b, y),
    ensures
        a ^ x as u32 == b ^ y as u32,
        x == y ==> a == b,
        a == b ==> x == y,
{
    let a0 = a ^ x as u32;
    let b0 = b ^ y as u32;
    let a1 = crc_bit_step(a0);
    let b1 = crc_bit_step(b0);
    let a2 = crc_bit_step(a1);
    let b2 = crc_bit_step(b1);
    let a3 = crc_bit_step(a2);
    let b3 = crc_bit_step(b2);
    let a4 = crc_bit_step(a3);
    let b4 = crc_bit_step(b3);
    let a5 = crc_bit_step(a4);
    let b5 = crc_bit_step(b4);
    let a6 = crc_bit_step(a5);
    let b6 = crc_bit_step(b5);
    let a7 = crc_bit_step(a6);
    let b7 = crc_bit_step(b6);
    lemma_bit_step_injective(a7, b7);
    lemma_bit_step_injective(a6, b6);
    lemma_bit_step_injective(a5, b5);
    lemma_bit_step_injective(a4, b4);
    lemma_bit_step_injective(a3, b3);
    lemma_bit_step_injective(a2, b2);
    lemma_bit_step_injective(a1, b1);
    lemma_bit_step_injective(a0, b0);
    assert(a ^ x as u32 == b ^ y as u32 ==> (x == y ==> a == b) && (a == b ==> x == y))
        by (bit_vector);
}

/// Data that differs from other data of the same length in one byte, and in no byte
/// behind it, has another CRC register.
proof fn lemma_state_differs(data: Seq<u8>, other: Seq<u8>, at: int)
    requires
        data.len() == other.len(),
        0 <= at < data.len(),
        data[at] != other[at],
        forall|i: int| 0 <= i < data.len() && i != at ==> data[i] == other[i],
    ensures
        crc_state(data) != crc_state(other),
    decreases data.len(),
{
    let last = data.len() - 1;
    if at == last {
        assert(data.drop_last() =~= other.drop_last());
        if crc_state(data) == crc_state(other) {
            lemma_byte_step_injective(
                crc_state(data.drop_last()),
                data.last(),
                crc_state(other.drop_last()),
                other.last(),
            );
        }
    } else {
        lemma_state_differs(data.drop_last(), other.drop_last(), at);
        if crc_state(data) == crc_state(other) {
            lemma_byte_step_injective(
                crc_state(data.drop_last()),
                data.last(),
                crc_state(other.drop_last()),
                other.last(),
            );
        }
    }
}

/// Changing any single byte of data changes its CRC32.
pub proof fn lemma_crc_detects_changed_byte(data: Seq<u8>, at: int, byte: u8)
    requires
        0 <= at < data.len(),
        byte != data[at],
    ensures
        crc32(data.update(at, byte)) != crc32(data),
{
    lemma_state_differs(data.update(at, byte), data, at);
    let a = crc_state(data.update(at, byte));
    let b = crc_state(data);
    assert(a != b ==> a ^ 0xFFFF_FFFFu32 != b ^ 0xFFFF_FFFFu32) by (bit_vector);
}

/// Data that passed against a declared CRC is refused with a checksum mismatch once
/// any single byte of it is changed.
pub proof fn lemma_changed_byte_is_refused(declared: u32, data: Seq<u8>, at: int, byte: u8)
    requires
        declared == crc32(data),
        0 <= at < data.len(),
        byte != data[at],
    ensures
        declared != crc32(data.update(at, byte)),
{
    lemma_crc_detects_changed_byte(data, at, byte);
}

} // verus!
