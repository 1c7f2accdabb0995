//! The start header: the 32 bytes that every archive starts with.

use vstd::prelude::*;

use crate::crc::{crc32, crc32_of};
use crate::error::Error;
use crate::le::{
    le_bytes, le_value, lemma_le_bytes_len, lemma_le_exact, lemma_weights, u32_from_le, u32_to_le,
    u64_from_le, u64_to_le,
};

verus! {

/// The length of the start header.
pub const START_HEADER_LEN: usize = 32;

/// The major version that the start header declares.
pub const VERSION_MAJOR: u8 = 0;

/// The minor version that the start header declares.
pub const VERSION_MINOR: u8 = 4;

/// The six bytes that every archive starts with.
pub open spec fn signature() -> Seq<u8> {
    seq![0x37u8, 0x7Au8, 0xBCu8, 0xAFu8, 0x27u8, 0x1Cu8]
}

/// Where the end header lies, and its CRC.
#[derive(Clone, Copy, Debug, PartialEq, Eq, Structural)]
pub struct StartHeader {
    /// The distance of the end header from the byte behind the start header.
    pub next_header_offset: u64,
    /// The length of the end header.
    pub next_header_size: u64,
    /// The CRC32 of the end header.
    pub next_header_crc: u32,
}

/// The twenty bytes that say where the end header lies: offset and size in eight
/// bytes each and the CRC in four, all low byte first.
pub open spec fn locator_bytes(header: StartHeader) -> Seq<u8> {
    le_bytes(header.next_header_offset as nat, 8) + le_bytes(header.next_header_size as nat, 8)
        + le_bytes(header.next_header_crc as nat, 4)
}

/// The 32 bytes of the start header: the signature, the version, the CRC32 of the
/// twenty bytes that follow it, and those bytes.
pub open spec fn start_header_bytes(header: StartHeader) -> Seq<u8> {
    signature() + seq![0u8, 4u8] + le_bytes(crc32(locator_bytes(header)) as nat, 4)
        + locator_bytes(header)
}

/// What the start of an archive says of its end header.
///
/// An archive shorter than the start header is refused as malformed, one with
/// another signature as no archive, and one whose locator bytes have another CRC
/// than the one stored before them with a checksum mismatch.
pub open spec fn parsed_start_header(bytes: Seq<u8>) -> Result<StartHeader, Error> {
    if bytes.len() < 32 {
        Err(Error::Other("Start header is truncated"))
    } else if bytes.subrange(0, 6) != signature() {
        Err(Error::BadSignature)
    } else if le_value(bytes.subrange(8, 12)) != crc32(bytes.subrange(12, 32)) {
        Err(Error::ChecksumMismatch)
    } else {
        Ok(
            StartHeader {
                next_header_offset: le_value(bytes.subrange(12, 20)) as u64,
                next_header_size: le_value(bytes.subrange(20, 28)) as u64,
                next_header_crc: le_value(bytes.subrange(28, 32)) as u32,
            },
        )
    }
}

/// A start header has 32 bytes and starts with the signature and the version 0.4.
pub proof fn lemma_start_header_shape(header: StartHeader)
    ensures
        start_header_bytes(header).len() == 32,
        locator_bytes(header).len() == 20,
        start_header_bytes(header).subrange(0, 8) == seq![
            0x37u8,
            0x7Au8,
            0xBCu8,
            0xAFu8,
            0x27u8,
            0x1Cu8,
            0x00u8,
            0x04u8,
        ],
        start_header_bytes(header).subrange(12, 32) == locator_bytes(header),
{
    lemma_le_bytes_len(header.next_header_offset as nat, 8);
    lemma_le_bytes_len(header.next_header_size as nat, 8);
    lemma_le_bytes_len(header.next_header_crc as nat, 4);
    lemma_le_bytes_len(crc32(locator_bytes(header)) as nat, 4);
    assert(start_header_bytes(header).subrange(0, 8) =~= seq![
        0x37u8,
        0x7Au8,
        0xBCu8,
        0xAFu8,
        0x27u8,
        0x1Cu8,
        0x00u8,
        0x04u8,
    ]);
    assert(start_header_bytes(header).subrange(12, 32) =~= locator_bytes(header));
}

/// A start header is read back from its bytes, whatever follows them.
pub proof fn lemma_start_header_round_trip(header: StartHeader, rest: Seq<u8>)
    ensures
        parsed_start_header(start_header_bytes(header) + rest) == Ok::<StartHeader, Error>(header),
{
    let locator = locator_bytes(header);
    let bytes = start_header_bytes(header) + rest;
    lemma_start_header_shape(header);
    lemma_weights();
    lemma_le_exact(header.next_header_offset as nat, 8);
    lemma_le_exact(header.next_header_size as nat, 8);
    lemma_le_exact(header.next_header_crc as nat, 4);
    lemma_le_exact(crc32(locator) as nat, 4);
    assert(bytes.subrange(0, 6) =~= signature());
    assert(bytes.subrange(8, 12) =~= le_bytes(crc32(locator) as nat, 4));
    assert(bytes.subrange(12, 32) =~= locator);
    assert(bytes.subrange(12, 20) =~= le_bytes(header.next_header_offset as nat, 8));
    assert(bytes.subrange(20, 28) =~= le_bytes(header.next_header_size as nat, 8));
    assert(bytes.subrange(28, 32) =~= le_bytes(header.next_header_crc as nat, 4));
}

/// The bytes of the start header.
pub fn write_start_header(header: &StartHeader) -> (bytes: Vec<u8>)
    ensures
        bytes@ == start_header_bytes(*header),
        bytes.len() == 32,
{
    let mut locator: Vec<u8> = Vec::new();
    crate::buf::append(&mut locator, u64_to_le(header.next_header_offset).as_slice());
    crate::buf::append(&mut locator, u64_to_le(header.next_header_size).as_slice());
    crate::buf::append(&mut locator, u32_to_le(header.next_header_crc).as_slice());
    let crc: u32 = crc32_of(locator.as_slice());
    let mut bytes: Vec<u8> = Vec::new();
    bytes.push(0x37);
    bytes.push(0x7A);
    bytes.push(0xBC);
    bytes.push(0xAF);
    bytes.push(0x27);
    bytes.push(0x1C);
    bytes.push(VERSION_MAJOR);
    bytes.push(VERSION_MINOR);
    crate::buf::append(&mut bytes, u32_to_le(crc).as_slice());
    crate::buf::append(&mut bytes, locator.as_slice());
    proof {
        lemma_start_header_shape(*header);
        assert(bytes@ =~= start_header_bytes(*header));
    }
    bytes
}

/// Reads the start header that `bytes` begin with.
pub fn read_start_header(bytes: &[u8]) -> (read: Result<StartHeader, Error>)
    ensures
        read == parsed_start_header(bytes@),
{
    if bytes.len() < START_HEADER_LEN {
        return Err(Error::other("Start header is truncated"));
    }
    let found = vstd::slice::slice_subrange(bytes, 0, 6);
    let expected: [u8; 6] = [0x37, 0x7A, 0xBC, 0xAF, 0x27, 0x1C];
    assert(expected@ =~= signature());
    if !crate::method::bytes_eq(found, expected.as_slice()) {
        return Err(Error::BadSignature);
    }
    let stored_crc: u32 = u32_from_le(bytes, 8);
    let locator = vstd::slice::slice_subrange(bytes, 12, 32);
    if stored_crc != crc32_of(locator) {
        return Err(Error::ChecksumMismatch);
    }
    Ok(
        StartHeader {
            next_header_offset: u64_from_le(bytes, 12),
            next_header_size: u64_from_le(bytes, 20),
            next_header_crc: u32_from_le(bytes, 28),
        },
    )
}

/// Where the end header lies in an archive of `bytes`, from its first byte up to,
/// not including, the byte behind it.
///
/// Besides what [`parsed_start_header`] refuses, an end header that the archive is
/// too short to hold is refused as malformed, and one with another CRC than the
/// start header declares with a checksum mismatch.
pub open spec fn end_header_range(bytes: Seq<u8>) -> Result<(int, int), Error> {
    match parsed_start_header(bytes) {
        Err(e) => Err(e),
        Ok(header) => {
            let start = 32 + header.next_header_offset;
            let end = start + header.next_header_size;
            if end > bytes.len() {
                Err(Error::Other("End header lies outside the archive"))
            } else if crc32(bytes.subrange(start, end)) != header.next_header_crc {
                Err(Error::ChecksumMismatch)
            } else {
                Ok((start, end))
            }
        },
    }
}

/// Finds the end header of the archive `bytes` and holds it against its CRC.
pub fn locate_end_header(bytes: &[u8]) -> (found: Result<(usize, usize), Error>)
    ensures
        match end_header_range(bytes@) {
            Ok((start, end)) => found == Ok::<(usize, usize), Error>(
                (start as usize, end as usize),
            ) && 32 <= start <= end <= bytes.len(),
            Err(e) => found == Err::<(usize, usize), Error>(e),
        },
{
    let header = match read_start_header(bytes) {
        Ok(h) => h,
        Err(e) => {
            return Err(e);
        },
    };
    let room: u64 = (bytes.len() - START_HEADER_LEN) as u64;
    if header.next_header_offset > room || header.next_header_size > room
        - header.next_header_offset {
        return Err(Error::other("End header lies outside the archive"));
    }
    let start: usize = START_HEADER_LEN + header.next_header_offset as usize;
    let end: usize = start + header.next_header_size as usize;
    if crc32_of(vstd::slice::slice_subrange(bytes, start, end)) != header.next_header_crc {
        return Err(Error::ChecksumMismatch);
    }
    Ok((start, end))
}

/// An archive whose end header reaches to its last byte is refused once that byte
/// is missing: as malformed, never with success.
pub proof fn lemma_missing_last_byte_is_refused(bytes: Seq<u8>)
    requires
        end_header_range(bytes) matches Ok((start, end)) && end == bytes.len(),
        bytes.len() > 32,
    ensures
        end_header_range(bytes.drop_last()) matches Err(e) && (e == Error::ChecksumMismatch || e
            matches Error::Other(_)),
{
    let cut = bytes.drop_last();
    assert(cut.subrange(0, 6) =~= bytes.subrange(0, 6));
    assert(cut.subrange(8, 12) =~= bytes.subrange(8, 12));
    assert(cut.subrange(12, 32) =~= bytes.subrange(12, 32));
    assert(cut.subrange(12, 20) =~= bytes.subrange(12, 20));
    assert(cut.subrange(20, 28) =~= bytes.subrange(20, 28));
    assert(cut.subrange(28, 32) =~= bytes.subrange(28, 32));
}

} // verus!
