//! The bytes of an end header for given metadata, written as mathematics, against
//! which the writer is proved.

use vstd::prelude::*;

use crate::archive::{ArchiveView, BindPair, BlockView, CoderView, EntryView};
use crate::bits::packed;
use crate::error::Error;
use crate::le::le_bytes;
use crate::uint64::encoded;

verus! {

/// The ids of the properties of the end header.
pub const K_END: u8 = 0x00;

pub const K_HEADER: u8 = 0x01;

pub const K_ARCHIVE_PROPERTIES: u8 = 0x02;

pub const K_ADDITIONAL_STREAMS_INFO: u8 = 0x03;

pub const K_MAIN_STREAMS_INFO: u8 = 0x04;

pub const K_FILES_INFO: u8 = 0x05;

pub const K_PACK_INFO: u8 = 0x06;

pub const K_UNPACK_INFO: u8 = 0x07;

pub const K_SUB_STREAMS_INFO: u8 = 0x08;

pub const K_SIZE: u8 = 0x09;

pub const K_CRC: u8 = 0x0A;

pub const K_FOLDER: u8 = 0x0B;

pub const K_CODERS_UNPACK_SIZE: u8 = 0x0C;

pub const K_NUM_UNPACK_STREAM: u8 = 0x0D;

pub const K_EMPTY_STREAM: u8 = 0x0E;

pub const K_EMPTY_FILE: u8 = 0x0F;

pub const K_ANTI: u8 = 0x10;

pub const K_NAME: u8 = 0x11;

pub const K_C_TIME: u8 = 0x12;

pub const K_A_TIME: u8 = 0x13;

pub const K_M_TIME: u8 = 0x14;

pub const K_WIN_ATTRIBUTES: u8 = 0x15;

pub const K_ENCODED_HEADER: u8 = 0x17;

/// The most coders that a block may have.
pub const MAX_CODERS: u64 = 32;

/// The failure of a header that is not built as the format asks.
pub open spec fn malformed() -> Error {
    Error::Other("Malformed archive header")
}

/// The failure of a header that refers to data outside of it.
pub open spec fn external() -> Error {
    Error::UnsupportedFeature("External header data")
}

// ---------------------------------------------------------------------------
// Writing
// ---------------------------------------------------------------------------
/// The numbers `values`, each as a variable-length number.
pub open spec fn nums(values: Seq<u64>) -> Seq<u8>
    decreases values.len(),
{
    if values.len() == 0 {
        Seq::empty()
    } else {
        nums(values.drop_last()) + encoded(values.last())
    }
}

/// Which of `values` are there.
pub open spec fn defined_of<T>(values: Seq<Option<T>>) -> Seq<bool> {
    Seq::new(values.len(), |i: int| values[i] is Some)
}

/// Whether every bit of `bits` is set.
pub open spec fn all_set(bits: Seq<bool>) -> bool {
    forall|i: int| 0 <= i < bits.len() ==> bits[i]
}

/// A vector of bits of which "all set" is said in one byte: a byte of 1 for all set,
/// else a byte of 0 and the bits, packed.
pub open spec fn defined_bytes(bits: Seq<bool>) -> Seq<u8> {
    if all_set(bits) {
        seq![1u8]
    } else {
        seq![0u8] + packed(bits)
    }
}

/// Those of `values` that are there, each in `width` bytes, low byte first.
pub open spec fn values_bytes(values: Seq<Option<u64>>, width: nat) -> Seq<u8>
    decreases values.len(),
{
    if values.len() == 0 {
        Seq::empty()
    } else {
        values_bytes(values.drop_last(), width) + match values.last() {
            Some(v) => le_bytes(v as nat, width),
            None => Seq::empty(),
        }
    }
}

/// CRCs as the values of a column.
pub open spec fn crcs_as_values(crcs: Seq<Option<u32>>) -> Seq<Option<u64>> {
    Seq::new(
        crcs.len(),
        |i: int|
            match crcs[i] {
                Some(c) => Some(c as u64),
                None => None,
            },
    )
}

/// A list of CRCs of which some may be missing: which are there, then those.
pub open spec fn digests_bytes(crcs: Seq<Option<u32>>) -> Seq<u8> {
    defined_bytes(defined_of(crcs)) + values_bytes(crcs_as_values(crcs), 4)
}

/// Whether any of `values` is there.
pub open spec fn any_defined<T>(values: Seq<Option<T>>) -> bool {
    exists|i: int| 0 <= i < values.len() && values[i] is Some
}

/// Where the pack streams lie and how long they are, with their CRCs where any is
/// declared.
pub open spec fn pack_info_bytes(archive: ArchiveView) -> Seq<u8> {
    encoded(archive.pack_pos) + encoded(archive.pack_sizes.len() as u64) + seq![K_SIZE] + nums(
        archive.pack_sizes,
    ) + (if any_defined(archive.pack_crcs) {
        seq![K_CRC] + digests_bytes(archive.pack_crcs)
    } else {
        Seq::empty()
    }) + seq![K_END]
}

/// Whether a coder takes one stream and gives one.
pub open spec fn is_simple(coder: CoderView) -> bool {
    coder.num_in_streams == 1 && coder.num_out_streams == 1
}

/// The flag byte of a coder: the length of its id in the low four bits, 0x10 where
/// the coder is not simple, 0x20 where it has properties.
pub open spec fn coder_flags(coder: CoderView) -> u8 {
    (coder.method_id.len() + (if is_simple(coder) {
        0int
    } else {
        0x10
    }) + (if coder.properties.len() > 0 {
        0x20int
    } else {
        0
    })) as u8
}

/// One coder: the flag byte, the id, the stream counts where the coder is not
/// simple, and the properties with their length where it has any.
pub open spec fn coder_bytes(coder: CoderView) -> Seq<u8> {
    seq![coder_flags(coder)] + coder.method_id + (if is_simple(coder) {
        Seq::empty()
    } else {
        encoded(coder.num_in_streams) + encoded(coder.num_out_streams)
    }) + (if coder.properties.len() > 0 {
        encoded(coder.properties.len() as u64) + coder.properties
    } else {
        Seq::empty()
    })
}

/// The coders `coders`, one after the other.
pub open spec fn coders_bytes(coders: Seq<CoderView>) -> Seq<u8>
    decreases coders.len(),
{
    if coders.len() == 0 {
        Seq::empty()
    } else {
        coders_bytes(coders.drop_last()) + coder_bytes(coders.last())
    }
}

/// The bind pairs `pairs`: of each the input and the output.
pub open spec fn bind_pairs_bytes(pairs: Seq<BindPair>) -> Seq<u8>
    decreases pairs.len(),
{
    if pairs.len() == 0 {
        Seq::empty()
    } else {
        bind_pairs_bytes(pairs.drop_last()) + encoded(pairs.last().in_index) + encoded(
            pairs.last().out_index,
        )
    }
}

/// The pipeline of one block: its coders, its bind pairs, and the inputs that pack
/// streams feed where there is more than one.
pub open spec fn folder_bytes(block: BlockView) -> Seq<u8> {
    encoded(block.coders.len() as u64) + coders_bytes(block.coders) + bind_pairs_bytes(
        block.bind_pairs,
    ) + (if block.packed_streams.len() == 1 {
        Seq::empty()
    } else {
        nums(block.packed_streams)
    })
}

/// The pipelines of `blocks`, one after the other.
pub open spec fn folders_bytes(blocks: Seq<BlockView>) -> Seq<u8>
    decreases blocks.len(),
{
    if blocks.len() == 0 {
        Seq::empty()
    } else {
        folders_bytes(blocks.drop_last()) + folder_bytes(blocks.last())
    }
}

/// The sizes of the output streams of all coders of `blocks`, block by block.
pub open spec fn unpack_sizes_bytes(blocks: Seq<BlockView>) -> Seq<u8>
    decreases blocks.len(),
{
    if blocks.len() == 0 {
        Seq::empty()
    } else {
        unpack_sizes_bytes(blocks.drop_last()) + nums(blocks.last().unpack_sizes)
    }
}

/// The CRC of each of `blocks`, where one is declared.
pub open spec fn block_crcs(blocks: Seq<BlockView>) -> Seq<Option<u32>> {
    Seq::new(blocks.len(), |i: int| blocks[i].crc)
}

/// The pipelines of the blocks, the sizes of their streams, and their CRCs where
/// any is declared.
pub open spec fn unpack_info_bytes(blocks: Seq<BlockView>) -> Seq<u8> {
    seq![K_FOLDER] + encoded(blocks.len() as u64) + seq![0u8] + folders_bytes(blocks) + seq![
        K_CODERS_UNPACK_SIZE,
    ] + unpack_sizes_bytes(blocks) + (if any_defined(block_crcs(blocks)) {
        seq![K_CRC] + digests_bytes(block_crcs(blocks))
    } else {
        Seq::empty()
    }) + seq![K_END]
}

/// The number of files in each of `blocks`.
pub open spec fn substream_counts(blocks: Seq<BlockView>) -> Seq<u64> {
    Seq::new(blocks.len(), |i: int| blocks[i].substream_sizes.len() as u64)
}

/// Whether each of `blocks` holds one file.
pub open spec fn all_single(blocks: Seq<BlockView>) -> bool {
    forall|i: int| 0 <= i < blocks.len() ==> blocks[i].substream_sizes.len() == 1
}

/// Whether none of `blocks` holds more than one file.
pub open spec fn none_shared(blocks: Seq<BlockView>) -> bool {
    forall|i: int| 0 <= i < blocks.len() ==> blocks[i].substream_sizes.len() <= 1
}

/// The sizes of the files of `blocks` that the header states: of each block all but
/// the last, which is what is left of the output of the block.
pub open spec fn stated_sizes(blocks: Seq<BlockView>) -> Seq<u64>
    decreases blocks.len(),
{
    if blocks.len() == 0 {
        Seq::empty()
    } else {
        stated_sizes(blocks.drop_last()) + (if blocks.last().substream_sizes.len() == 0 {
            Seq::empty()
        } else {
            blocks.last().substream_sizes.drop_last()
        })
    }
}

/// Whether the CRC of the one file of a block is known from the CRC of the block.
pub open spec fn crc_is_known(block: BlockView) -> bool {
    block.substream_sizes.len() == 1 && block.crc is Some
}

/// The CRCs of the files of `blocks` that the header states: those that are not
/// known from the CRC of their block.
pub open spec fn stated_crcs(blocks: Seq<BlockView>) -> Seq<Option<u32>>
    decreases blocks.len(),
{
    if blocks.len() == 0 {
        Seq::empty()
    } else {
        stated_crcs(blocks.drop_last()) + (if crc_is_known(blocks.last()) {
            Seq::empty()
        } else {
            blocks.last().substream_crcs
        })
    }
}

/// How the output of each block is divided among its files.
pub open spec fn sub_streams_info_bytes(blocks: Seq<BlockView>) -> Seq<u8> {
    (if all_single(blocks) {
        Seq::empty()
    } else {
        seq![K_NUM_UNPACK_STREAM] + nums(substream_counts(blocks))
    }) + (if none_shared(blocks) {
        Seq::empty()
    } else {
        seq![K_SIZE] + nums(stated_sizes(blocks))
    }) + (if any_defined(stated_crcs(blocks)) {
        seq![K_CRC] + digests_bytes(stated_crcs(blocks))
    } else {
        Seq::empty()
    }) + seq![K_END]
}

/// The pack streams, the blocks and the division of their output.
pub open spec fn streams_info_bytes(archive: ArchiveView) -> Seq<u8> {
    seq![K_PACK_INFO] + pack_info_bytes(archive) + seq![K_UNPACK_INFO] + unpack_info_bytes(
        archive.blocks,
    ) + seq![K_SUB_STREAMS_INFO] + sub_streams_info_bytes(archive.blocks) + seq![K_END]
}

/// The code units `units`, each low byte first.
pub open spec fn units_bytes(units: Seq<u16>) -> Seq<u8>
    decreases units.len(),
{
    if units.len() == 0 {
        Seq::empty()
    } else {
        units_bytes(units.drop_last()) + seq![
            (units.last() % 256) as u8,
            (units.last() / 256) as u8,
        ]
    }
}

/// The names of `files`, each followed by a code unit of zero.
pub open spec fn names_bytes(files: Seq<EntryView>) -> Seq<u8>
    decreases files.len(),
{
    if files.len() == 0 {
        Seq::empty()
    } else {
        names_bytes(files.drop_last()) + units_bytes(files.last().name) + seq![0u8, 0u8]
    }
}

/// A property of the files: its id, the length of its data, and the data.
pub open spec fn property_bytes(id: u8, data: Seq<u8>) -> Seq<u8> {
    seq![id] + encoded(data.len() as u64) + data
}

/// A column of values of which some may be missing, as a property: which are there,
/// a byte of 0, and those that are there; nothing where none is there.
pub open spec fn column_bytes(id: u8, values: Seq<Option<u64>>, width: nat) -> Seq<u8> {
    if any_defined(values) {
        property_bytes(id, defined_bytes(defined_of(values)) + seq![0u8] + values_bytes(values, width))
    } else {
        Seq::empty()
    }
}

/// The files that have no stream.
pub open spec fn streamless(files: Seq<EntryView>) -> Seq<EntryView>
    decreases files.len(),
{
    if files.len() == 0 {
        Seq::empty()
    } else if files.last().has_stream {
        streamless(files.drop_last())
    } else {
        streamless(files.drop_last()).push(files.last())
    }
}

/// For each file, whether it has no stream.
pub open spec fn empty_stream_bits(files: Seq<EntryView>) -> Seq<bool> {
    Seq::new(files.len(), |i: int| !files[i].has_stream)
}

/// For each file without a stream, whether it is an empty file rather than a
/// directory.
pub open spec fn empty_file_bits(files: Seq<EntryView>) -> Seq<bool> {
    Seq::new(streamless(files).len(), |i: int| !streamless(files)[i].is_directory)
}

/// For each file without a stream, whether it is an anti-item.
pub open spec fn anti_bits(files: Seq<EntryView>) -> Seq<bool> {
    Seq::new(streamless(files).len(), |i: int| streamless(files)[i].is_anti_item)
}

/// The creation time of each file.
pub open spec fn creation_dates(files: Seq<EntryView>) -> Seq<Option<u64>> {
    Seq::new(files.len(), |i: int| files[i].creation_date)
}

/// The access time of each file.
pub open spec fn access_dates(files: Seq<EntryView>) -> Seq<Option<u64>> {
    Seq::new(files.len(), |i: int| files[i].access_date)
}

/// The modification time of each file.
pub open spec fn modified_dates(files: Seq<EntryView>) -> Seq<Option<u64>> {
    Seq::new(files.len(), |i: int| files[i].last_modified_date)
}

/// The attributes of each file.
pub open spec fn attributes(files: Seq<EntryView>) -> Seq<Option<u64>> {
    Seq::new(
        files.len(),
        |i: int|
            match files[i].windows_attributes {
                Some(a) => Some(a as u64),
                None => None,
            },
    )
}

/// Whether any bit of `bits` is set.
pub open spec fn any_set(bits: Seq<bool>) -> bool {
    exists|i: int| 0 <= i < bits.len() && bits[i]
}

/// A vector of bits as a property; nothing where no bit is set.
pub open spec fn flags_bytes(id: u8, bits: Seq<bool>) -> Seq<u8> {
    if any_set(bits) {
        property_bytes(id, packed(bits))
    } else {
        Seq::empty()
    }
}

/// The entries: their number, which have no stream, which of those are empty files
/// and which anti-items, the names, the times and the attributes.
pub open spec fn files_info_bytes(files: Seq<EntryView>) -> Seq<u8> {
    encoded(files.len() as u64) + flags_bytes(K_EMPTY_STREAM, empty_stream_bits(files))
        + flags_bytes(K_EMPTY_FILE, empty_file_bits(files)) + flags_bytes(K_ANTI, anti_bits(files))
        + property_bytes(K_NAME, seq![0u8] + names_bytes(files)) + column_bytes(
        K_C_TIME,
        creation_dates(files),
        8,
    ) + column_bytes(K_A_TIME, access_dates(files), 8) + column_bytes(
        K_M_TIME,
        modified_dates(files),
        8,
    ) + column_bytes(K_WIN_ATTRIBUTES, attributes(files), 4) + seq![K_END]
}

/// The end header of an archive: the streams where it has blocks, and the entries
/// where it has any.
pub open spec fn header_bytes(archive: ArchiveView) -> Seq<u8> {
    seq![K_HEADER] + (if archive.blocks.len() > 0 {
        seq![K_MAIN_STREAMS_INFO] + streams_info_bytes(archive)
    } else {
        Seq::empty()
    }) + (if archive.files.len() > 0 {
        seq![K_FILES_INFO] + files_info_bytes(archive.files)
    } else {
        Seq::empty()
    }) + seq![K_END]
}

} // verus!
