//! The archive as a whole: the start header, the pack streams and the end header,
//! plain or encoded.

use vstd::prelude::*;

use crate::archive::{Archive, ArchiveView};
use crate::crc::{crc32, crc32_of};
use crate::error::Error;
use crate::header_laws::{
    has, lemma_has_split, lemma_header_round_trip, lemma_streams_info_read_back, streams_wf,
    writable,
};
use crate::header_parse::{p_streams_info, parsed_header, StreamsView};
use crate::header_read::{read_header, read_streams_info, Streams};
use crate::header_spec::{header_bytes, streams_info_bytes, K_ENCODED_HEADER};
use crate::header_write::{ids_fit, write_header, write_streams_info};
use crate::start_header::{
    end_header_range, lemma_start_header_round_trip, lemma_start_header_shape, locate_end_header,
    start_header_bytes, write_start_header, StartHeader,
};

verus! {

/// What the end header of an archive holds.
pub enum EndHeader {
    /// The metadata of the archive.
    Plain(Archive),
    /// The streams of a block whose output, once decoded, is the end header that
    /// holds the metadata.
    Encoded(Streams),
}

/// The start header that points at an end header of the bytes `header`, which stands
/// `offset` bytes behind the start header.
pub open spec fn start_header_for(offset: u64, header: Seq<u8>) -> StartHeader {
    StartHeader {
        next_header_offset: offset,
        next_header_size: header.len() as u64,
        next_header_crc: crc32(header),
    }
}

/// The bytes of an archive: the start header, the pack streams, and the end header.
pub open spec fn archive_bytes(pack: Seq<u8>, header: Seq<u8>) -> Seq<u8> {
    start_header_bytes(start_header_for(pack.len() as u64, header)) + pack + header
}

/// Puts an archive together from the bytes of its pack streams and its end header.
pub fn assemble(pack: &[u8], header: &[u8]) -> (bytes: Vec<u8>)
    ensures
        bytes@ == archive_bytes(pack@, header@),
        bytes@.len() == 32 + pack@.len() + header@.len(),
{
    let start = StartHeader {
        next_header_offset: pack.len() as u64,
        next_header_size: header.len() as u64,
        next_header_crc: crc32_of(header),
    };
    let mut bytes = write_start_header(&start);
    crate::buf::append(&mut bytes, pack);
    crate::buf::append(&mut bytes, header);
    bytes
}

/// Writes an archive: the start header, the pack streams `pack`, and the end header
/// that states `archive`.
pub fn finish_archive(pack: &[u8], archive: &Archive) -> (bytes: Vec<u8>)
    requires
        ids_fit(archive.blocks@),
    ensures
        bytes@ == archive_bytes(pack@, header_bytes(archive@)),
        bytes@.len() >= 34,
        bytes@.subrange(0, 8) == seq![
            0x37u8,
            0x7Au8,
            0xBCu8,
            0xAFu8,
            0x27u8,
            0x1Cu8,
            0x00u8,
            0x04u8,
        ],
{
    let header = write_header(archive);
    let bytes = assemble(pack, header.as_slice());
    proof {
        let start = start_header_for(pack@.len() as u64, header@);
        lemma_start_header_shape(start);
        assert(bytes@.subrange(0, 8) =~= start_header_bytes(start).subrange(0, 8));
        assert(header@.len() >= 2) by {
            assert(header@[0] == crate::header_spec::K_HEADER);
            assert(header@[header@.len() - 1] == crate::header_spec::K_END);
        }
    }
    bytes
}

/// What the bytes of an end header hold: nothing where there are none, the streams
/// of the encoded header where they start with its id, else the metadata.
pub open spec fn end_header_of(header: Seq<u8>) -> Result<EndHeaderView, Error> {
    if header.len() == 0 {
        Ok(
            EndHeaderView::Plain(
                ArchiveView {
                    pack_pos: 0,
                    pack_sizes: Seq::empty(),
                    pack_crcs: Seq::empty(),
                    blocks: Seq::empty(),
                    files: Seq::empty(),
                },
            ),
        )
    } else if header[0] == K_ENCODED_HEADER {
        match p_streams_info(header, 1) {
            Ok((streams, end)) => if end == header.len() {
                Ok(EndHeaderView::Encoded(streams))
            } else {
                Err(crate::header_spec::malformed())
            },
            Err(e) => Err(e),
        }
    } else {
        match parsed_header(header) {
            Ok(archive) => Ok(EndHeaderView::Plain(archive)),
            Err(e) => Err(e),
        }
    }
}

/// The bytes of an encoded end header: its id, then the pack streams and the block
/// whose output, once decoded, is the end header that holds the metadata.
pub open spec fn encoded_header_bytes(holder: ArchiveView) -> Seq<u8> {
    seq![K_ENCODED_HEADER] + streams_info_bytes(holder)
}

/// Writes an encoded end header for the streams of `holder`, whose entries are not
/// written: they are those of the end header that the block holds.
pub fn write_encoded_header(holder: &Archive) -> (out: Vec<u8>)
    requires
        ids_fit(holder.blocks@),
    ensures
        out@ == encoded_header_bytes(holder@),
{
    let mut out: Vec<u8> = Vec::new();
    out.push(K_ENCODED_HEADER);
    write_streams_info(&mut out, holder);
    out
}

/// An encoded end header is read as the streams it was written for.
pub proof fn lemma_encoded_header_round_trip(holder: ArchiveView)
    requires
        streams_wf(holder),
    ensures
        end_header_of(encoded_header_bytes(holder)) == Ok::<EndHeaderView, Error>(
            EndHeaderView::Encoded(
                StreamsView {
                    pack_pos: holder.pack_pos,
                    pack_sizes: holder.pack_sizes,
                    pack_crcs: holder.pack_crcs,
                    blocks: holder.blocks,
                },
            ),
        ),
{
    let bytes = encoded_header_bytes(holder);
    assert(has(bytes, 0, seq![K_ENCODED_HEADER] + streams_info_bytes(holder))) by {
        reveal(has);
        assert(bytes.subrange(0, bytes.len() as int) =~= bytes);
    }
    lemma_has_split(bytes, 0, seq![K_ENCODED_HEADER], streams_info_bytes(holder));
    lemma_streams_info_read_back(bytes, 1, holder);
}

/// What an end header holds, as mathematics sees it.
pub enum EndHeaderView {
    Plain(ArchiveView),
    Encoded(StreamsView),
}

impl View for EndHeader {
    type V = EndHeaderView;

    open spec fn view(&self) -> EndHeaderView {
        match self {
            EndHeader::Plain(archive) => EndHeaderView::Plain(archive@),
            EndHeader::Encoded(streams) => EndHeaderView::Encoded(streams@),
        }
    }
}

/// Reads what the bytes of an end header hold.
pub fn read_end_header(header: &[u8]) -> (read: Result<EndHeader, Error>)
    ensures
        match end_header_of(header@) {
            Ok(view) => read matches Ok(got) && got@ == view,
            Err(e) => read matches Err(got) && got == e,
        },
{
    if header.len() == 0 {
        let archive = Archive {
            pack_pos: 0,
            pack_sizes: Vec::new(),
            pack_crcs: Vec::new(),
            blocks: Vec::new(),
            files: Vec::new(),
        };
        proof {
            assert(archive@.blocks =~= Seq::empty());
            assert(archive@.files =~= Seq::empty());
        }
        return Ok(EndHeader::Plain(archive));
    }
    if header[0] == K_ENCODED_HEADER {
        return match read_streams_info(header, 1) {
            Ok((streams, end)) => {
                if end == header.len() {
                    Ok(EndHeader::Encoded(streams))
                } else {
                    Err(crate::header_read::malformed_header())
                }
            },
            Err(e) => Err(e),
        };
    }
    match read_header(header) {
        Ok(archive) => Ok(EndHeader::Plain(archive)),
        Err(e) => Err(e),
    }
}

/// What an archive of the bytes `bytes` holds.
///
/// Bytes that do not start as an archive does are refused, and so are a start header
/// or an end header whose CRC is not the one declared, an end header that lies
/// outside the bytes, and an end header that is not built as the format asks.
pub open spec fn opened(bytes: Seq<u8>) -> Result<EndHeaderView, Error> {
    match end_header_range(bytes) {
        Ok((start, end)) => end_header_of(bytes.subrange(start, end)),
        Err(e) => Err(e),
    }
}

/// Opens an archive: finds its end header, holds it against its CRC and reads it.
pub fn open_archive(bytes: &[u8]) -> (read: Result<EndHeader, Error>)
    ensures
        match opened(bytes@) {
            Ok(view) => read matches Ok(got) && got@ == view,
            Err(e) => read matches Err(got) && got == e,
        },
{
    let (start, end) = match locate_end_header(bytes) {
        Ok(r) => r,
        Err(e) => {
            return Err(e);
        },
    };
    read_end_header(vstd::slice::slice_subrange(bytes, start, end))
}

/// An archive that was put together is found to have the end header it was given,
/// behind the pack streams it was given.
pub proof fn lemma_assembled_is_located(pack: Seq<u8>, header: Seq<u8>)
    requires
        pack.len() <= u64::MAX,
        header.len() <= u64::MAX,
    ensures
        end_header_range(archive_bytes(pack, header)) == Ok::<(int, int), Error>(
            (32 + pack.len() as int, 32 + pack.len() as int + header.len() as int),
        ),
        archive_bytes(pack, header).subrange(32, 32 + pack.len() as int) == pack,
        archive_bytes(pack, header).subrange(32 + pack.len() as int, 32 + pack.len() as int + header.len() as int)
            == header,
        archive_bytes(pack, header).len() == 32 + pack.len() + header.len(),
{
    let start = start_header_for(pack.len() as u64, header);
    let bytes = archive_bytes(pack, header);
    lemma_start_header_shape(start);
    lemma_start_header_round_trip(start, pack + header);
    assert(bytes =~= start_header_bytes(start) + (pack + header));
    assert(bytes.subrange(32, 32 + pack.len() as int) =~= pack);
    assert(bytes.subrange(32 + pack.len() as int, 32 + pack.len() as int + header.len() as int) =~= header);
}

/// Every archive that can be written is opened with the metadata it was written
/// with, and its pack streams stand in it as they were written.
pub proof fn lemma_archive_round_trip(pack: Seq<u8>, archive: ArchiveView)
    requires
        writable(archive),
        pack.len() <= u64::MAX,
    ensures
        opened(archive_bytes(pack, header_bytes(archive))) == Ok::<EndHeaderView, Error>(
            EndHeaderView::Plain(archive),
        ),
        archive_bytes(pack, header_bytes(archive)).subrange(32, 32 + pack.len() as int) == pack,
{
    let header = header_bytes(archive);
    lemma_assembled_is_located(pack, header);
    lemma_header_round_trip(archive);
    assert(header[0] == crate::header_spec::K_HEADER);
}

/// An archive that was opened and is written again, around whatever pack streams,
/// is opened with the same metadata as the first time: the same entries, in the
/// same order, with the same times, attributes, sizes and CRCs.
pub proof fn lemma_archive_written_again(pack: Seq<u8>, again: Seq<u8>, archive: ArchiveView)
    requires
        writable(archive),
        pack.len() <= u64::MAX,
        again.len() <= u64::MAX,
    ensures
        opened(archive_bytes(pack, header_bytes(archive))) matches Ok(EndHeaderView::Plain(read))
            && opened(archive_bytes(again, header_bytes(read))) == Ok::<EndHeaderView, Error>(
            EndHeaderView::Plain(archive),
        ),
{
    lemma_archive_round_trip(pack, archive);
    lemma_archive_round_trip(again, archive);
}

/// An archive that was put together is never opened once its last byte is missing.
pub proof fn lemma_truncated_archive_is_refused(pack: Seq<u8>, header: Seq<u8>)
    requires
        pack.len() <= u64::MAX,
        0 < header.len() <= u64::MAX,
    ensures
        opened(archive_bytes(pack, header).drop_last()) matches Err(e) && (e
            == Error::ChecksumMismatch || e matches Error::Other(_)),
{
    lemma_assembled_is_located(pack, header);
    let start = start_header_for(pack.len() as u64, header);
    lemma_start_header_shape(start);
    crate::start_header::lemma_missing_last_byte_is_refused(archive_bytes(pack, header));
}

} // verus!
