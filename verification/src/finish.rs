//! Finishing an archive: the end header is written as it is, or encoded through a
//! chain of methods into a block of its own behind the pack streams.

use vstd::prelude::*;

use crate::archive::{Archive, ArchiveView, Block};
use crate::collect::unpack_sizes_of;
use crate::container::{archive_bytes, assemble, encoded_header_bytes, write_encoded_header};
use crate::crc::{crc32, crc32_of};
use crate::encoder::config_refusal;
use crate::error::Error;
use crate::frames::{is_codec_failure, is_frame_failure};
use crate::header_spec::{header_bytes, MAX_CODERS};
use crate::header_write::{ids_fit, ids_within, write_header};
use crate::options::EncoderConfiguration;
use crate::pipeline::{encode_block, encoded_from, encodes_from, first_bad_method};
use crate::writer::{bad_chain, chain_block, chain_block_of, check_methods, methods_wf};

verus! {

/// The failure of a chain with options outside the ranges of their method.
pub open spec fn bad_options() -> Error {
    Error::Other("The options of a method are outside its ranges")
}

/// The failure of an archive with a coder whose id is longer than the format states.
pub open spec fn long_id() -> Error {
    Error::Other("A method id is longer than 15 bytes")
}

/// What an encoded end header states for an end header of the bytes `header` that
/// the chain `methods` has encoded behind pack streams of `pack_len` bytes: one pack
/// stream, with its size and CRC, and one block, whose one file is the end header.
pub open spec fn header_holder(
    pack_len: nat,
    methods: Seq<EncoderConfiguration>,
    header: Seq<u8>,
) -> ArchiveView {
    let packed = encoded_from(methods, header, 0);
    ArchiveView {
        pack_pos: pack_len as u64,
        pack_sizes: seq![packed.len() as u64],
        pack_crcs: seq![Some(crc32(packed))],
        blocks: seq![
            chain_block_of(
                methods,
                unpack_sizes_of(methods, header),
                Some(crc32(header)),
                seq![header.len() as u64],
                seq![Some(crc32(header))],
            ),
        ],
        files: Seq::empty(),
    }
}

/// The bytes of an archive whose end header `header` the chain `methods` has
/// encoded: the start header, the pack streams, the pack stream of the end header,
/// and the encoded end header that points at it.
pub open spec fn sealed_bytes(
    pack: Seq<u8>,
    methods: Seq<EncoderConfiguration>,
    header: Seq<u8>,
) -> Seq<u8> {
    archive_bytes(
        pack + encoded_from(methods, header, 0),
        encoded_header_bytes(header_holder(pack.len(), methods, header)),
    )
}

/// Whether `out` is what encoding the end header `header` behind the pack streams
/// `pack` owes. A chain of no methods or of too many is refused, then one with
/// options outside their ranges, then one with a method for which no encoder is
/// made. After that the archive is written exactly where the codec of each coder
/// takes what it is given.
pub open spec fn is_sealed(
    out: Result<Vec<u8>, Error>,
    pack: Seq<u8>,
    methods: Seq<EncoderConfiguration>,
    header: Seq<u8>,
) -> bool {
    if methods.len() == 0 || methods.len() > MAX_CODERS {
        out == Err::<Vec<u8>, Error>(bad_chain())
    } else if !methods_wf(methods) {
        out == Err::<Vec<u8>, Error>(bad_options())
    } else {
        match first_bad_method(methods, 0) {
            Some(i) => out == Err::<Vec<u8>, Error>(config_refusal(methods[i])->0),
            None => if encodes_from(methods, header, 0) {
                out matches Ok(bytes) && bytes@ == sealed_bytes(pack, methods, header)
            } else {
                out matches Err(e) && (is_codec_failure(e) || is_frame_failure(e))
            },
        }
    }
}

/// The ids of the coders of a block that a chain makes fit the format.
proof fn lemma_chain_ids_fit(block: Block, methods: Seq<EncoderConfiguration>)
    requires
        block@.coders == crate::writer::chain_coders(methods),
    ensures
        ids_fit(seq![block]),
{
    reveal(ids_fit);
    let blocks = seq![block];
    assert forall|b: int, i: int|
        0 <= b < blocks.len() && 0 <= i < blocks[b].coders@.len() implies (
    #[trigger] blocks[b].coders@[i]).method_id.len() <= 15 by {
        assert(block@.coders.len() == block.coders@.len());
        assert(block@.coders.len() == methods.len());
        assert(block@.coders[i] == block.coders@[i]@);
        assert(block@.coders[i] == crate::writer::chain_coder(methods[i]));
        assert(block.coders@[i].method_id@ == methods[i].method.spec_id());
    }
}

/// Encodes the end header `header` through the chain `methods` and writes the
/// archive: the pack stream of the header joins the pack streams `pack`, and the
/// encoded end header points at it.
pub fn seal_archive(pack: &[u8], methods: &Vec<EncoderConfiguration>, header: &[u8]) -> (out:
    Result<Vec<u8>, Error>)
    ensures
        is_sealed(out, pack@, methods@, header@),
{
    let count: usize = methods.len();
    if count == 0 || count > MAX_CODERS as usize {
        return Err(Error::other("A block needs between 1 and 32 coders"));
    }
    if !check_methods(methods.as_slice()) {
        return Err(Error::other("The options of a method are outside its ranges"));
    }
    let (packed, unpack_sizes) = match encode_block(methods, header) {
        Ok(encoded) => encoded,
        Err(e) => {
            return Err(e);
        },
    };
    let crc = Some(crc32_of(header));
    let mut sizes: Vec<u64> = Vec::new();
    sizes.push(header.len() as u64);
    let mut crcs: Vec<Option<u32>> = Vec::new();
    crcs.push(crc);
    let block = match chain_block(methods, unpack_sizes, crc, sizes, crcs) {
        Ok(block) => block,
        Err(e) => {
            return Err(e);
        },
    };
    let mut pack_sizes: Vec<u64> = Vec::new();
    pack_sizes.push(packed.len() as u64);
    let mut pack_crcs: Vec<Option<u32>> = Vec::new();
    pack_crcs.push(Some(crc32_of(packed.as_slice())));
    let mut blocks: Vec<Block> = Vec::new();
    blocks.push(block);
    let holder = Archive {
        pack_pos: pack.len() as u64,
        pack_sizes,
        pack_crcs,
        blocks,
        files: Vec::new(),
    };
    proof {
        assert(unpack_sizes@ =~= unpack_sizes_of(methods@, header@));
        assert(holder.blocks@ =~= seq![block]);
        lemma_chain_ids_fit(block, methods@);
        assert(holder@.blocks =~= header_holder(pack@.len(), methods@, header@).blocks);
        assert(holder@.files =~= header_holder(pack@.len(), methods@, header@).files);
        assert(holder@.pack_sizes =~= header_holder(pack@.len(), methods@, header@).pack_sizes);
        assert(holder@.pack_crcs =~= header_holder(pack@.len(), methods@, header@).pack_crcs);
        assert(holder@ == header_holder(pack@.len(), methods@, header@));
    }
    let mut whole: Vec<u8> = Vec::new();
    crate::buf::append(&mut whole, pack);
    crate::buf::append(&mut whole, packed.as_slice());
    let end = write_encoded_header(&holder);
    Ok(assemble(whole.as_slice(), end.as_slice()))
}

/// Writes an archive of the pack streams `pack` and the metadata `archive`: with the
/// end header as it is, or, where `encode_header` is set, with the end header
/// encoded through the chain `methods`.
///
/// An archive with a coder whose id is longer than 15 bytes is refused. Without
/// encoding nothing else is: the archive is always written.
pub fn write_archive(
    pack: &[u8],
    archive: &Archive,
    methods: &Vec<EncoderConfiguration>,
    encode_header: bool,
) -> (out: Result<Vec<u8>, Error>)
    ensures
        !ids_fit(archive.blocks@) ==> out == Err::<Vec<u8>, Error>(long_id()),
        ids_fit(archive.blocks@) && !encode_header ==> (out matches Ok(bytes) && bytes@
            == archive_bytes(pack@, header_bytes(archive@))),
        ids_fit(archive.blocks@) && encode_header ==> is_sealed(
            out,
            pack@,
            methods@,
            header_bytes(archive@),
        ),
{
    if !ids_within(&archive.blocks) {
        return Err(Error::other("A method id is longer than 15 bytes"));
    }
    let header = write_header(archive);
    if encode_header {
        seal_archive(pack, methods, header.as_slice())
    } else {
        Ok(assemble(pack, header.as_slice()))
    }
}

} // verus!
