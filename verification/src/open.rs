//! Opening an archive: the end header is found and read, and where it is encoded,
//! the block that holds it is decoded first.

use vstd::prelude::*;

use crate::archive::{Archive, ArchiveView};
use crate::container::{open_archive, opened, EndHeader, EndHeaderView};
use crate::crc::crc32;
use crate::error::Error;
use crate::header_parse::{parsed_header, StreamsView};
use crate::header_read::read_header;
use crate::password::Password;
use crate::pipeline::{decoded_block, is_decoded};
use crate::reader::{check_password, needs_password, pack_of, read_block};

verus! {

/// The streams of an encoded end header as an archive without entries: its one
/// block is read as the blocks of any archive are.
pub open spec fn holder_of(streams: StreamsView) -> ArchiveView {
    ArchiveView {
        pack_pos: streams.pack_pos,
        pack_sizes: streams.pack_sizes,
        pack_crcs: streams.pack_crcs,
        blocks: streams.blocks,
        files: Seq::empty(),
    }
}

/// Whether `out` is what the metadata that an end header was read as owes: a failure
/// of reading stays, metadata with a coder that encrypts is refused with an empty
/// password, and any other metadata is given.
pub open spec fn is_let_in(
    out: Result<Archive, Error>,
    read: Result<ArchiveView, Error>,
    password: Seq<u8>,
) -> bool {
    match read {
        Err(e) => out == Err::<Archive, Error>(e),
        Ok(archive) => if needs_password(archive) && password.len() == 0 {
            out == Err::<Archive, Error>(Error::PasswordRequired)
        } else {
            out matches Ok(got) && got@ == archive
        },
    }
}

/// Whether `out` is what opening an archive with an encoded end header owes, whose
/// streams are those of `holder`. With an empty password, streams with a coder that
/// encrypts are refused. The pack stream of the first block is taken and held
/// against its CRC, and decoded on one thread; a failure of either stays. The output
/// is held against the CRC of the block, and is then read as a plain end header.
pub open spec fn is_unsealed(
    out: Result<Archive, Error>,
    bytes: Seq<u8>,
    holder: ArchiveView,
    password: Seq<u8>,
    max_mem_limit_kb: usize,
) -> bool {
    if needs_password(holder) && password.len() == 0 {
        out == Err::<Archive, Error>(Error::PasswordRequired)
    } else {
        match pack_of(bytes, holder, 0) {
            Err(e) => out == Err::<Archive, Error>(e),
            Ok(packed) => match decoded_block(
                holder.blocks[0],
                packed,
                password,
                max_mem_limit_kb,
                1,
            ) {
                None => out matches Err(e) && is_decoded(
                    Err::<Vec<u8>, Error>(e),
                    holder.blocks[0],
                    packed,
                    password,
                    max_mem_limit_kb,
                    1,
                ),
                Some(header) => if holder.blocks[0].crc is Some && holder.blocks[0].crc->0
                    != crc32(header) {
                    out == Err::<Archive, Error>(Error::ChecksumMismatch)
                } else {
                    is_let_in(out, parsed_header(header), password)
                },
            },
        }
    }
}

/// Whether `out` is what opening an archive of the bytes `bytes` owes: bytes that
/// are no archive are refused as [`opened`] says, a plain end header gives its
/// metadata, and an encoded one gives the metadata of the end header that its block
/// holds.
pub open spec fn is_opened(
    out: Result<Archive, Error>,
    bytes: Seq<u8>,
    password: Seq<u8>,
    max_mem_limit_kb: usize,
) -> bool {
    match opened(bytes) {
        Err(e) => out == Err::<Archive, Error>(e),
        Ok(EndHeaderView::Plain(archive)) => is_let_in(
            out,
            Ok::<ArchiveView, Error>(archive),
            password,
        ),
        Ok(EndHeaderView::Encoded(streams)) => is_unsealed(
            out,
            bytes,
            holder_of(streams),
            password,
            max_mem_limit_kb,
        ),
    }
}

/// Gives the metadata where the password is one that the archive can be read with.
fn let_in(archive: Archive, password: &Password) -> (out: Result<Archive, Error>)
    ensures
        is_let_in(out, Ok::<ArchiveView, Error>(archive@), password@),
{
    match check_password(&archive, password) {
        Ok(()) => Ok(archive),
        Err(e) => Err(e),
    }
}

/// Opens an archive of the bytes `bytes`, and gives its metadata.
///
/// The end header is found through the start header and held against its CRC. An
/// encoded end header is decoded, on one thread and within `max_mem_limit_kb`, and
/// what it holds is read as the end header.
pub fn open(bytes: &[u8], password: &Password, max_mem_limit_kb: usize) -> (out: Result<
    Archive,
    Error,
>)
    ensures
        is_opened(out, bytes@, password@, max_mem_limit_kb),
{
    let streams = match open_archive(bytes) {
        Err(e) => {
            return Err(e);
        },
        Ok(EndHeader::Plain(archive)) => {
            return let_in(archive, password);
        },
        Ok(EndHeader::Encoded(streams)) => streams,
    };
    let ghost view = streams@;
    let holder = Archive {
        pack_pos: streams.pack_pos,
        pack_sizes: streams.pack_sizes,
        pack_crcs: streams.pack_crcs,
        blocks: streams.blocks,
        files: Vec::new(),
    };
    proof {
        assert(holder@.blocks =~= view.blocks);
        assert(holder@.files =~= Seq::empty());
        assert(holder@ == holder_of(view));
    }
    match check_password(&holder, password) {
        Ok(()) => {},
        Err(e) => {
            return Err(e);
        },
    }
    let header = match read_block(bytes, &holder, 0, password, max_mem_limit_kb, 1) {
        Ok(header) => header,
        Err(e) => {
            return Err(e);
        },
    };
    match read_header(header.as_slice()) {
        Ok(archive) => let_in(archive, password),
        Err(e) => Err(e),
    }
}

} // verus!
