//! The end header is read back as it was written: the proof, part by part.

use vstd::prelude::*;

use crate::archive::{ArchiveView, BindPair, BlockView, CoderView, EntryView};
use crate::bits::{lemma_bits_round_trip, packed};
use crate::error::Error;
use crate::header_parse::{
    blank_columns, count_set, divided, divided_block, entry_of, files_in_blocks, files_with_stream,
    flags_or_clear, free_in_from, no_streams, none_of, ones, output_size, p_bind_pairs, p_byte,
    p_bytes, p_coder, p_coders, p_column_data, p_count, p_crcs_to_end, p_defined, p_digests,
    p_expect, p_files_info, p_flags_data, p_folder, p_folders, p_name, p_names, p_names_data, p_num,
    p_nums, p_pack_info, p_properties, p_properties_of_files, p_stream_counts, p_streams_info,
    p_sub_streams, p_unpack_info, p_unpack_sizes, p_values, parsed_header, peek_is, stated_count,
    sum, total_in, total_out, unknown_crcs, values_as_crcs, with_crcs, with_property, FileColumns,
    StreamsView,
};
use crate::header_spec::{
    access_dates, all_set, all_single, anti_bits, any_defined, any_set, attributes,
    bind_pairs_bytes, block_crcs, coder_bytes, coder_flags, coders_bytes, column_bytes,
    crc_is_known, crcs_as_values, creation_dates, defined_bytes, defined_of, digests_bytes,
    empty_file_bits, empty_stream_bits, files_info_bytes, flags_bytes, folder_bytes, folders_bytes,
    header_bytes, is_simple, modified_dates, names_bytes, none_shared, nums, pack_info_bytes,
    property_bytes, stated_crcs, stated_sizes, streamless, streams_info_bytes,
    sub_streams_info_bytes, substream_counts, units_bytes, unpack_info_bytes, unpack_sizes_bytes,
    values_bytes, K_ANTI, K_A_TIME, K_CODERS_UNPACK_SIZE, K_CRC, K_C_TIME, K_EMPTY_FILE,
    K_EMPTY_STREAM, K_END, K_FILES_INFO, K_FOLDER, K_HEADER, K_MAIN_STREAMS_INFO, K_M_TIME, K_NAME,
    K_NUM_UNPACK_STREAM, K_PACK_INFO, K_SIZE, K_SUB_STREAMS_INFO, K_UNPACK_INFO, K_WIN_ATTRIBUTES,
    MAX_CODERS,
};
use crate::le::{le_bytes, lemma_le_exact, lemma_weights, weight};
use crate::uint64::{encoded, lemma_decode_encode};

verus! {

/// Whether `piece` stands in `bytes` from `at` on.
#[verifier::opaque]
pub open spec fn has(bytes: Seq<u8>, at: int, piece: Seq<u8>) -> bool {
    &&& 0 <= at
    &&& at + piece.len() <= bytes.len()
    &&& bytes.subrange(at, at + piece.len()) == piece
}

/// Where two pieces stand one after the other, each of them stands.
pub proof fn lemma_has_split(bytes: Seq<u8>, at: int, first: Seq<u8>, second: Seq<u8>)
    requires
        has(bytes, at, first + second),
    ensures
        has(bytes, at, first),
        has(bytes, at + first.len(), second),
{
    reveal(has);
    let whole = bytes.subrange(at, at + (first + second).len());
    assert(bytes.subrange(at, at + first.len()) =~= whole.subrange(0, first.len() as int));
    assert(whole.subrange(0, first.len() as int) =~= first);
    assert(bytes.subrange(at + first.len(), at + first.len() + second.len()) =~= whole.subrange(
        first.len() as int,
        (first + second).len() as int,
    ));
    assert(whole.subrange(first.len() as int, (first + second).len() as int) =~= second);
}

/// Where one byte stands, it is read.
pub proof fn lemma_byte_read_back(bytes: Seq<u8>, at: int, byte: u8)
    requires
        has(bytes, at, seq![byte]),
    ensures
        p_byte(bytes, at) == Ok::<(u8, int), Error>((byte, at + 1)),
        p_expect(bytes, at, byte) == Ok::<int, Error>(at + 1),
{
    reveal(has);
    assert(bytes.subrange(at, at + 1)[0] == byte);
}

/// Where a piece stands, it lies inside the bytes.
pub proof fn lemma_has_range(bytes: Seq<u8>, at: int, piece: Seq<u8>)
    requires
        has(bytes, at, piece),
    ensures
        0 <= at,
        at + piece.len() <= bytes.len(),
{
    reveal(has);
}

/// Where bytes stand, they are read.
pub proof fn lemma_bytes_read_back(bytes: Seq<u8>, at: int, piece: Seq<u8>)
    requires
        has(bytes, at, piece),
    ensures
        p_bytes(bytes, at, piece.len()) == Ok::<(Seq<u8>, int), Error>((piece, at + piece.len())),
{
    reveal(has);
}

/// Where a number stands, it is read.
pub proof fn lemma_num_read_back(bytes: Seq<u8>, at: int, value: u64)
    requires
        has(bytes, at, encoded(value)),
    ensures
        p_num(bytes, at) == Ok::<(u64, int), Error>((value, at + encoded(value).len())),
        encoded(value).len() >= 1,
{
    reveal(has);
    let piece = encoded(value);
    let rest = bytes.skip(at + piece.len());
    lemma_decode_encode(value, rest);
    assert(bytes.skip(at) =~= piece + rest);
}

/// Where a number of items stands that is no more than the bytes, it is read.
pub proof fn lemma_count_read_back(bytes: Seq<u8>, at: int, count: nat)
    requires
        count <= bytes.len(),
        count <= u64::MAX,
        has(bytes, at, encoded(count as u64)),
    ensures
        p_count(bytes, at) == Ok::<(nat, int), Error>((count, at + encoded(count as u64).len())),
{
    lemma_num_read_back(bytes, at, count as u64);
}

/// Numbers take at least a byte each.
pub proof fn lemma_nums_len(values: Seq<u64>)
    ensures
        nums(values).len() >= values.len(),
    decreases values.len(),
{
    if values.len() > 0 {
        lemma_nums_len(values.drop_last());
        lemma_decode_encode(values.last(), Seq::empty());
    }
}

/// Where numbers stand, they are read.
pub proof fn lemma_nums_read_back(bytes: Seq<u8>, at: int, values: Seq<u64>)
    requires
        has(bytes, at, nums(values)),
    ensures
        p_nums(bytes, at, values.len()) == Ok::<(Seq<u64>, int), Error>(
            (values, at + nums(values).len()),
        ),
    decreases values.len(),
{
    if values.len() == 0 {
        reveal(has);
        assert(values =~= Seq::<u64>::empty());
    } else {
        let head = values.drop_last();
        lemma_has_split(bytes, at, nums(head), encoded(values.last()));
        lemma_nums_read_back(bytes, at, head);
        lemma_num_read_back(bytes, at + nums(head).len(), values.last());
        assert(head.push(values.last()) =~= values);
    }
}

/// Where a vector of bits stands of which "all set" is said in one byte, it is read.
#[verifier::rlimit(40)]
pub proof fn lemma_defined_read_back(bytes: Seq<u8>, at: int, bits: Seq<bool>)
    requires
        has(bytes, at, defined_bytes(bits)),
    ensures
        p_defined(bytes, at, bits.len()) == Ok::<(Seq<bool>, int), Error>(
            (bits, at + defined_bytes(bits).len()),
        ),
{
    if all_set(bits) {
        lemma_byte_read_back(bytes, at, 1u8);
        assert(Seq::new(bits.len(), |i: int| true) =~= bits);
    } else {
        lemma_has_split(bytes, at, seq![0u8], packed(bits));
        lemma_byte_read_back(bytes, at, 0u8);
        let rest = bytes.skip(at + 1 + packed(bits).len());
        lemma_bits_round_trip(bits, rest);
        assert(bytes.skip(at + 1) =~= packed(bits) + rest) by {
            reveal(has);
        }
        lemma_has_range(bytes, at + 1, packed(bits));
    }
}

/// Whether each of `values` fits `width` bytes.
pub open spec fn values_fit(values: Seq<Option<u64>>, width: nat) -> bool {
    forall|i: int| 0 <= i < values.len() ==> (#[trigger] values[i] matches Some(v) ==> v < weight(width))
}

/// Where the values of a column stand, they are read.
pub proof fn lemma_values_read_back(
    bytes: Seq<u8>,
    at: int,
    values: Seq<Option<u64>>,
    defined: Seq<bool>,
    width: nat,
    upto: nat,
)
    requires
        upto <= values.len(),
        defined == defined_of(values),
        values_fit(values, width),
        has(bytes, at, values_bytes(values.take(upto as int), width)),
    ensures
        p_values(bytes, at, defined, width, upto) == Ok::<(Seq<Option<u64>>, int), Error>(
            (values.take(upto as int), at + values_bytes(values.take(upto as int), width).len()),
        ),
    decreases upto,
{
    let taken = values.take(upto as int);
    if upto == 0 {
        reveal(has);
        assert(taken =~= Seq::<Option<u64>>::empty());
    } else {
        let head = values.take(upto - 1);
        assert(taken.drop_last() =~= head);
        let last = taken.last();
        assert(last == values[upto - 1]);
        let piece = match last {
            Some(v) => le_bytes(v as nat, width),
            None => Seq::<u8>::empty(),
        };
        lemma_has_split(bytes, at, values_bytes(head, width), piece);
        lemma_values_read_back(bytes, at, values, defined, width, (upto - 1) as nat);
        match last {
            Some(v) => {
                lemma_le_exact(v as nat, width);
                assert(defined[upto - 1]);
                reveal(has);
            },
            None => {
                assert(!defined[upto - 1]);
            },
        }
        assert(head.push(last) =~= taken);
    }
}

/// A CRC fits four bytes.
pub proof fn lemma_crcs_fit(crcs: Seq<Option<u32>>)
    ensures
        values_fit(crcs_as_values(crcs), 4),
        values_as_crcs(crcs_as_values(crcs)) == crcs,
        defined_of(crcs_as_values(crcs)) == defined_of(crcs),
{
    lemma_weights();
    assert(values_as_crcs(crcs_as_values(crcs)) =~= crcs);
    assert(defined_of(crcs_as_values(crcs)) =~= defined_of(crcs));
}

/// Where a list of CRCs stands, it is read.
pub proof fn lemma_digests_read_back(bytes: Seq<u8>, at: int, crcs: Seq<Option<u32>>)
    requires
        has(bytes, at, digests_bytes(crcs)),
    ensures
        p_digests(bytes, at, crcs.len()) == Ok::<(Seq<Option<u32>>, int), Error>(
            (crcs, at + digests_bytes(crcs).len()),
        ),
{
    let values = crcs_as_values(crcs);
    lemma_crcs_fit(crcs);
    lemma_has_split(bytes, at, defined_bytes(defined_of(crcs)), values_bytes(values, 4));
    lemma_defined_read_back(bytes, at, defined_of(crcs));
    assert(values.take(values.len() as int) =~= values);
    lemma_values_read_back(
        bytes,
        at + defined_bytes(defined_of(crcs)).len(),
        values,
        defined_of(crcs),
        4,
        values.len(),
    );
}

/// The CRCs as a structure ends with them: under their id where any is declared,
/// and the end mark.
pub open spec fn crcs_to_end_bytes(crcs: Seq<Option<u32>>) -> Seq<u8> {
    (if any_defined(crcs) {
        seq![K_CRC] + digests_bytes(crcs)
    } else {
        Seq::empty()
    }) + seq![K_END]
}

/// Where the CRCs stand with which a structure ends, they are read.
pub proof fn lemma_crcs_to_end_read_back(bytes: Seq<u8>, at: int, crcs: Seq<Option<u32>>)
    requires
        has(bytes, at, crcs_to_end_bytes(crcs)),
    ensures
        p_crcs_to_end(bytes, at, crcs.len()) == Ok::<(Seq<Option<u32>>, int), Error>(
            (crcs, at + crcs_to_end_bytes(crcs).len()),
        ),
{
    if any_defined(crcs) {
        lemma_has_split(bytes, at, seq![K_CRC] + digests_bytes(crcs), seq![K_END]);
        lemma_has_split(bytes, at, seq![K_CRC], digests_bytes(crcs));
        lemma_byte_read_back(bytes, at, K_CRC);
        lemma_digests_read_back(bytes, at + 1, crcs);
        lemma_byte_read_back(bytes, at + 1 + digests_bytes(crcs).len(), K_END);
    } else {
        assert(crcs_to_end_bytes(crcs) =~= seq![K_END]);
        lemma_byte_read_back(bytes, at, K_END);
        assert(none_of::<u32>(crcs.len()) =~= crcs) by {
            assert forall|i: int| 0 <= i < crcs.len() implies crcs[i] is None by {
                if crcs[i] is Some {
                    assert(any_defined(crcs));
                }
            }
        }
    }
}

/// Where the pack streams of an archive stand, they are read.
pub proof fn lemma_pack_info_read_back(bytes: Seq<u8>, at: int, archive: ArchiveView)
    requires
        archive.pack_crcs.len() == archive.pack_sizes.len(),
        archive.pack_sizes.len() <= u64::MAX,
        has(bytes, at, pack_info_bytes(archive)),
    ensures
        p_pack_info(bytes, at) == Ok::<((u64, Seq<u64>, Seq<Option<u32>>), int), Error>(
            (
                (archive.pack_pos, archive.pack_sizes, archive.pack_crcs),
                at + pack_info_bytes(archive).len(),
            ),
        ),
{
    let part1 = encoded(archive.pack_pos);
    let part2 = encoded(archive.pack_sizes.len() as u64);
    let part3 = seq![K_SIZE];
    let part4 = nums(archive.pack_sizes);
    let part5 = crcs_to_end_bytes(archive.pack_crcs);
    assert(pack_info_bytes(archive) =~= part1 + (part2 + (part3 + (part4 + part5))));
    lemma_has_split(bytes, at, part1, part2 + (part3 + (part4 + part5)));
    lemma_has_split(bytes, at + part1.len(), part2, part3 + (part4 + part5));
    lemma_has_split(bytes, at + part1.len() + part2.len(), part3, part4 + part5);
    lemma_has_split(bytes, at + part1.len() + part2.len() + 1, part4, part5);
    lemma_num_read_back(bytes, at, archive.pack_pos);
    lemma_nums_len(archive.pack_sizes);
    lemma_has_range(bytes, at + part1.len() + part2.len() + 1, part4);
    lemma_count_read_back(bytes, at + part1.len(), archive.pack_sizes.len());
    lemma_byte_read_back(bytes, at + part1.len() + part2.len(), K_SIZE);
    lemma_nums_read_back(bytes, at + part1.len() + part2.len() + 1, archive.pack_sizes);
    lemma_crcs_to_end_read_back(
        bytes,
        at + part1.len() + part2.len() + 1 + part4.len(),
        archive.pack_crcs,
    );
}

/// Whether a coder can be written: its id fits the four bits that state its length,
/// and it has no more streams than a block has coders.
pub open spec fn coder_wf(coder: CoderView) -> bool {
    &&& coder.method_id.len() <= 15
    &&& coder.num_in_streams <= MAX_CODERS
    &&& coder.num_out_streams <= MAX_CODERS
    &&& coder.properties.len() <= u64::MAX
}

/// What the flag byte of a coder says: the length of the id, whether the coder is
/// not simple, and whether it has properties.
pub proof fn lemma_coder_flags(coder: CoderView)
    requires
        coder_wf(coder),
    ensures
        coder_flags(coder) < 0x40,
        coder_flags(coder) % 16 == coder.method_id.len(),
        (coder_flags(coder) / 16) % 2 == 1 <==> !is_simple(coder),
        (coder_flags(coder) / 32) % 2 == 1 <==> coder.properties.len() > 0,
{
}

/// The numbers of streams of a coder as they are written: nothing for a simple
/// coder.
pub open spec fn stream_counts_bytes(coder: CoderView) -> Seq<u8> {
    if is_simple(coder) {
        Seq::<u8>::empty()
    } else {
        encoded(coder.num_in_streams) + encoded(coder.num_out_streams)
    }
}

/// The properties of a coder as they are written: nothing where it has none.
pub open spec fn properties_bytes(coder: CoderView) -> Seq<u8> {
    if coder.properties.len() > 0 {
        encoded(coder.properties.len() as u64) + coder.properties
    } else {
        Seq::<u8>::empty()
    }
}

/// Where the numbers of streams of a coder that is not simple stand, they are read.
pub proof fn lemma_stream_counts_read_back(bytes: Seq<u8>, at: int, coder: CoderView)
    requires
        coder_wf(coder),
        !is_simple(coder),
        has(bytes, at, stream_counts_bytes(coder)),
    ensures
        p_stream_counts(bytes, at) == Ok::<((u64, u64), int), Error>(
            ((coder.num_in_streams, coder.num_out_streams), at + stream_counts_bytes(coder).len()),
        ),
{
    lemma_has_split(bytes, at, encoded(coder.num_in_streams), encoded(coder.num_out_streams));
    lemma_num_read_back(bytes, at, coder.num_in_streams);
    lemma_num_read_back(bytes, at + encoded(coder.num_in_streams).len(), coder.num_out_streams);
}

/// Where the properties of a coder that has any stand, they are read.
pub proof fn lemma_properties_read_back(bytes: Seq<u8>, at: int, coder: CoderView)
    requires
        coder_wf(coder),
        coder.properties.len() > 0,
        has(bytes, at, properties_bytes(coder)),
    ensures
        p_properties(bytes, at) == Ok::<(Seq<u8>, int), Error>(
            (coder.properties, at + properties_bytes(coder).len()),
        ),
{
    let part1 = encoded(coder.properties.len() as u64);
    lemma_has_split(bytes, at, part1, coder.properties);
    lemma_has_range(bytes, at + part1.len(), coder.properties);
    lemma_count_read_back(bytes, at, coder.properties.len());
    lemma_bytes_read_back(bytes, at + part1.len(), coder.properties);
}

/// Where a coder stands, it is read.
#[verifier::rlimit(40)]
pub proof fn lemma_coder_read_back(bytes: Seq<u8>, at: int, coder: CoderView)
    requires
        coder_wf(coder),
        has(bytes, at, coder_bytes(coder)),
    ensures
        p_coder(bytes, at) == Ok::<(CoderView, int), Error>((coder, at + coder_bytes(coder).len())),
        coder_bytes(coder).len() >= 1,
{
    let flags = coder_flags(coder);
    let part1 = seq![flags];
    let part2 = coder.method_id;
    let part3 = stream_counts_bytes(coder);
    let part4 = properties_bytes(coder);
    assert(coder_bytes(coder) =~= part1 + (part2 + (part3 + part4)));
    lemma_has_split(bytes, at, part1, part2 + (part3 + part4));
    lemma_has_split(bytes, at + 1, part2, part3 + part4);
    lemma_has_split(bytes, at + 1 + part2.len(), part3, part4);
    lemma_byte_read_back(bytes, at, flags);
    lemma_coder_flags(coder);
    lemma_bytes_read_back(bytes, at + 1, part2);
    let a2 = at + 1 + part2.len();
    let a3 = a2 + part3.len();
    lemma_has_range(bytes, a2, part3);
    lemma_has_range(bytes, a3, part4);
    if !is_simple(coder) {
        lemma_stream_counts_read_back(bytes, a2, coder);
    }
    if coder.properties.len() > 0 {
        lemma_properties_read_back(bytes, a3, coder);
    } else {
        assert(coder.properties =~= Seq::<u8>::empty());
    }
}

/// Whether each of `coders` can be written.
#[verifier::opaque]
pub open spec fn coders_wf(coders: Seq<CoderView>) -> bool {
    forall|i: int| 0 <= i < coders.len() ==> coder_wf(#[trigger] coders[i])
}

/// Where coders stand, they are read.
pub proof fn lemma_coders_read_back(bytes: Seq<u8>, at: int, coders: Seq<CoderView>)
    requires
        coders_wf(coders),
        has(bytes, at, coders_bytes(coders)),
    ensures
        p_coders(bytes, at, coders.len()) == Ok::<(Seq<CoderView>, int), Error>(
            (coders, at + coders_bytes(coders).len()),
        ),
        coders_bytes(coders).len() >= coders.len(),
    decreases coders.len(),
{
    if coders.len() == 0 {
        reveal(has);
        assert(coders =~= Seq::<CoderView>::empty());
    } else {
        let head = coders.drop_last();
        assert(coders_wf(head) && coder_wf(coders[coders.len() - 1])) by {
            reveal(coders_wf);
            assert forall|i: int| 0 <= i < head.len() implies coder_wf(#[trigger] head[i]) by {
                assert(head[i] == coders[i]);
            }
        }
        lemma_has_split(bytes, at, coders_bytes(head), coder_bytes(coders.last()));
        lemma_coders_read_back(bytes, at, head);
        lemma_coder_read_back(bytes, at + coders_bytes(head).len(), coders.last());
        assert(head.push(coders.last()) =~= coders);
    }
}

/// Where bind pairs stand, they are read.
pub proof fn lemma_bind_pairs_read_back(bytes: Seq<u8>, at: int, pairs: Seq<BindPair>)
    requires
        has(bytes, at, bind_pairs_bytes(pairs)),
    ensures
        p_bind_pairs(bytes, at, pairs.len()) == Ok::<(Seq<BindPair>, int), Error>(
            (pairs, at + bind_pairs_bytes(pairs).len()),
        ),
    decreases pairs.len(),
{
    if pairs.len() == 0 {
        reveal(has);
        assert(pairs =~= Seq::<BindPair>::empty());
    } else {
        let head = pairs.drop_last();
        let last = pairs.last();
        let h = bind_pairs_bytes(head);
        assert(bind_pairs_bytes(pairs) =~= h + (encoded(last.in_index) + encoded(last.out_index)));
        lemma_has_split(bytes, at, h, encoded(last.in_index) + encoded(last.out_index));
        lemma_has_split(bytes, at + h.len(), encoded(last.in_index), encoded(last.out_index));
        lemma_bind_pairs_read_back(bytes, at, head);
        lemma_num_read_back(bytes, at + h.len(), last.in_index);
        lemma_num_read_back(bytes, at + h.len() + encoded(last.in_index).len(), last.out_index);
        assert(head.push(last) =~= pairs);
    }
}

/// Whether the pipeline of a block can be written and read back: it has coders,
/// one output that no bind pair takes and a bind pair for every other, and a pack
/// stream for every input that no bind pair feeds; where that is one input, it is
/// the one that the header leaves unsaid.
pub open spec fn pipeline_wf(block: BlockView) -> bool {
    &&& 1 <= block.coders.len() <= MAX_CODERS
    &&& coders_wf(block.coders)
    &&& total_out(block.coders) >= 1
    &&& block.bind_pairs.len() == total_out(block.coders) - 1
    &&& total_in(block.coders) >= block.bind_pairs.len()
    &&& block.packed_streams.len() == total_in(block.coders) - block.bind_pairs.len()
    &&& block.packed_streams.len() == 1 ==> free_in_from(
        block.bind_pairs,
        0,
        total_in(block.coders),
    ) == Some(block.packed_streams[0])
}

/// A block of which only the pipeline is known.
pub open spec fn bare(block: BlockView) -> BlockView {
    BlockView {
        unpack_sizes: Seq::empty(),
        crc: None,
        substream_sizes: Seq::empty(),
        substream_crcs: Seq::empty(),
        ..block
    }
}

/// Where the pipeline of a block stands, it is read.
pub proof fn lemma_folder_read_back(bytes: Seq<u8>, at: int, block: BlockView)
    requires
        pipeline_wf(block),
        has(bytes, at, folder_bytes(block)),
    ensures
        p_folder(bytes, at) == Ok::<(BlockView, int), Error>(
            (bare(block), at + folder_bytes(block).len()),
        ),
        folder_bytes(block).len() >= 1,
{
    let part1 = encoded(block.coders.len() as u64);
    let part2 = coders_bytes(block.coders);
    let part3 = bind_pairs_bytes(block.bind_pairs);
    let part4 = if block.packed_streams.len() == 1 {
        Seq::<u8>::empty()
    } else {
        nums(block.packed_streams)
    };
    assert(folder_bytes(block) =~= part1 + (part2 + (part3 + part4)));
    lemma_has_split(bytes, at, part1, part2 + (part3 + part4));
    lemma_has_split(bytes, at + part1.len(), part2, part3 + part4);
    lemma_has_split(bytes, at + part1.len() + part2.len(), part3, part4);
    lemma_num_read_back(bytes, at, block.coders.len() as u64);
    lemma_coders_read_back(bytes, at + part1.len(), block.coders);
    lemma_bind_pairs_read_back(bytes, at + part1.len() + part2.len(), block.bind_pairs);
    lemma_has_range(bytes, at + part1.len() + part2.len() + part3.len(), part4);
    if block.packed_streams.len() == 1 {
        assert(block.packed_streams =~= seq![block.packed_streams[0]]);
    } else {
        lemma_nums_read_back(bytes, at + part1.len() + part2.len() + part3.len(), block.packed_streams);
    }
}

/// Whether the pipeline of each of `blocks` can be written and read back.
#[verifier::opaque]
pub open spec fn pipelines_wf(blocks: Seq<BlockView>) -> bool {
    forall|i: int| 0 <= i < blocks.len() ==> pipeline_wf(#[trigger] blocks[i])
}

/// `blocks`, of each only the pipeline.
pub open spec fn bares(blocks: Seq<BlockView>) -> Seq<BlockView> {
    Seq::new(blocks.len(), |i: int| bare(blocks[i]))
}

/// Where the pipelines of blocks stand, they are read.
#[verifier::rlimit(40)]
pub proof fn lemma_folders_read_back(bytes: Seq<u8>, at: int, blocks: Seq<BlockView>)
    requires
        pipelines_wf(blocks),
        has(bytes, at, folders_bytes(blocks)),
    ensures
        p_folders(bytes, at, blocks.len()) == Ok::<(Seq<BlockView>, int), Error>(
            (bares(blocks), at + folders_bytes(blocks).len()),
        ),
        folders_bytes(blocks).len() >= blocks.len(),
    decreases blocks.len(),
{
    if blocks.len() == 0 {
        reveal(has);
        assert(bares(blocks) =~= Seq::<BlockView>::empty());
    } else {
        let head = blocks.drop_last();
        let last = blocks.last();
        assert(pipelines_wf(head) && pipeline_wf(last)) by {
            reveal(pipelines_wf);
            assert forall|i: int| 0 <= i < head.len() implies pipeline_wf(#[trigger] head[i]) by {
                assert(head[i] == blocks[i]);
            }
            assert(last == blocks[blocks.len() - 1]);
        }
        let h = folders_bytes(head);
        assert(folders_bytes(blocks) == h + folder_bytes(last));
        lemma_has_split(bytes, at, h, folder_bytes(last));
        assert(p_folders(bytes, at, head.len()) == Ok::<(Seq<BlockView>, int), Error>(
            (bares(head), at + h.len()),
        ) && h.len() >= head.len()) by {
            lemma_folders_read_back(bytes, at, head);
        }
        assert(p_folder(bytes, at + h.len()) == Ok::<(BlockView, int), Error>(
            (bare(last), at + h.len() + folder_bytes(last).len()),
        ) && folder_bytes(last).len() >= 1) by {
            lemma_folder_read_back(bytes, at + h.len(), last);
        }
        assert(bares(head).push(bare(last)) == bares(blocks)) by {
            assert(bares(head).push(bare(last)) =~= bares(blocks));
        }
        assert(head.len() == blocks.len() - 1);
    }
}

/// Whether each of `blocks` has a size for each output stream of its coders.
#[verifier::opaque]
pub open spec fn sizes_wf(blocks: Seq<BlockView>) -> bool {
    forall|i: int|
        0 <= i < blocks.len() ==> (#[trigger] blocks[i]).unpack_sizes.len() == total_out(
            blocks[i].coders,
        )
}

/// The first `upto` of `blocks`, of each the pipeline and the sizes of its streams.
pub open spec fn sized(blocks: Seq<BlockView>, upto: nat) -> Seq<BlockView> {
    Seq::new(upto, |i: int| BlockView { unpack_sizes: blocks[i].unpack_sizes, ..bare(blocks[i]) })
}

/// Where the sizes of the streams of blocks stand, they are read into the blocks.
pub proof fn lemma_unpack_sizes_read_back(
    bytes: Seq<u8>,
    at: int,
    blocks: Seq<BlockView>,
    upto: nat,
)
    requires
        upto <= blocks.len(),
        sizes_wf(blocks),
        has(bytes, at, unpack_sizes_bytes(blocks.take(upto as int))),
    ensures
        p_unpack_sizes(bytes, at, bares(blocks), upto) == Ok::<(Seq<BlockView>, int), Error>(
            (sized(blocks, upto), at + unpack_sizes_bytes(blocks.take(upto as int)).len()),
        ),
    decreases upto,
{
    let taken = blocks.take(upto as int);
    if upto == 0 {
        reveal(has);
        assert(sized(blocks, 0) =~= Seq::<BlockView>::empty());
    } else {
        let head = blocks.take(upto - 1);
        assert(taken.drop_last() =~= head);
        let last = taken.last();
        assert(last == blocks[upto - 1]);
        assert(last.unpack_sizes.len() == total_out(last.coders)) by {
            reveal(sizes_wf);
        }
        lemma_has_split(bytes, at, unpack_sizes_bytes(head), nums(last.unpack_sizes));
        lemma_unpack_sizes_read_back(bytes, at, blocks, (upto - 1) as nat);
        lemma_nums_read_back(bytes, at + unpack_sizes_bytes(head).len(), last.unpack_sizes);
        assert(bares(blocks)[upto - 1] == bare(last));
        assert(sized(blocks, (upto - 1) as nat).push(
            BlockView { unpack_sizes: last.unpack_sizes, ..bare(last) },
        ) =~= sized(blocks, upto));
    }
}

/// `blocks`, of each all but the division of its output among its files.
pub open spec fn undivided(blocks: Seq<BlockView>) -> Seq<BlockView> {
    Seq::new(
        blocks.len(),
        |i: int|
            BlockView {
                substream_sizes: Seq::empty(),
                substream_crcs: Seq::empty(),
                ..blocks[i]
            },
    )
}

/// The blocks of an archive as they are written, piece by piece.
pub proof fn lemma_unpack_info_shape(blocks: Seq<BlockView>)
    ensures
        unpack_info_bytes(blocks) == seq![K_FOLDER] + (encoded(blocks.len() as u64) + (seq![0u8]
            + (folders_bytes(blocks) + (seq![K_CODERS_UNPACK_SIZE] + (unpack_sizes_bytes(blocks)
            + crcs_to_end_bytes(block_crcs(blocks))))))),
{
    assert(unpack_info_bytes(blocks) =~= seq![K_FOLDER] + (encoded(blocks.len() as u64) + (seq![
        0u8,
    ] + (folders_bytes(blocks) + (seq![K_CODERS_UNPACK_SIZE] + (unpack_sizes_bytes(blocks)
        + crcs_to_end_bytes(block_crcs(blocks))))))));
}

/// Where the blocks of an archive stand, they are read.
#[verifier::rlimit(40)]
pub proof fn lemma_unpack_info_read_back(bytes: Seq<u8>, at: int, blocks: Seq<BlockView>)
    requires
        pipelines_wf(blocks),
        sizes_wf(blocks),
        blocks.len() <= u64::MAX,
        has(bytes, at, unpack_info_bytes(blocks)),
    ensures
        p_unpack_info(bytes, at) == Ok::<(Seq<BlockView>, int), Error>(
            (undivided(blocks), at + unpack_info_bytes(blocks).len()),
        ),
{
    let part1 = seq![K_FOLDER];
    let part2 = encoded(blocks.len() as u64);
    let part3 = seq![0u8];
    let part4 = folders_bytes(blocks);
    let part5 = seq![K_CODERS_UNPACK_SIZE];
    let part6 = unpack_sizes_bytes(blocks);
    let part7 = crcs_to_end_bytes(block_crcs(blocks));
    lemma_unpack_info_shape(blocks);
    lemma_has_split(bytes, at, part1, part2 + (part3 + (part4 + (part5 + (part6 + part7)))));
    let a1 = at + 1;
    lemma_has_split(bytes, a1, part2, part3 + (part4 + (part5 + (part6 + part7))));
    let a2 = a1 + part2.len();
    lemma_has_split(bytes, a2, part3, part4 + (part5 + (part6 + part7)));
    let a3 = a2 + 1;
    lemma_has_split(bytes, a3, part4, part5 + (part6 + part7));
    let a4 = a3 + part4.len();
    lemma_has_split(bytes, a4, part5, part6 + part7);
    let a5 = a4 + 1;
    lemma_has_split(bytes, a5, part6, part7);
    let a6 = a5 + part6.len();
    let end = a6 + part7.len();
    lemma_sized_with_crcs(blocks);
    assert(p_expect(bytes, at, K_FOLDER) == Ok::<int, Error>(a1)) by {
        lemma_byte_read_back(bytes, at, K_FOLDER);
    }
    assert(p_count(bytes, a1) == Ok::<(nat, int), Error>((blocks.len(), a2))) by {
        lemma_folders_read_back(bytes, a3, blocks);
        lemma_has_range(bytes, a3, part4);
        lemma_count_read_back(bytes, a1, blocks.len());
    }
    assert(p_byte(bytes, a2) == Ok::<(u8, int), Error>((0u8, a3))) by {
        lemma_byte_read_back(bytes, a2, 0u8);
    }
    assert(p_folders(bytes, a3, blocks.len()) == Ok::<(Seq<BlockView>, int), Error>(
        (bares(blocks), a4),
    )) by {
        lemma_folders_read_back(bytes, a3, blocks);
    }
    assert(p_expect(bytes, a4, K_CODERS_UNPACK_SIZE) == Ok::<int, Error>(a5)) by {
        lemma_byte_read_back(bytes, a4, K_CODERS_UNPACK_SIZE);
    }
    assert(p_unpack_sizes(bytes, a5, bares(blocks), blocks.len()) == Ok::<
        (Seq<BlockView>, int),
        Error,
    >((sized(blocks, blocks.len()), a6))) by {
        assert(blocks.take(blocks.len() as int) =~= blocks);
        lemma_unpack_sizes_read_back(bytes, a5, blocks, blocks.len());
    }
    assert(p_crcs_to_end(bytes, a6, blocks.len()) == Ok::<(Seq<Option<u32>>, int), Error>(
        (block_crcs(blocks), end),
    )) by {
        lemma_crcs_to_end_read_back(bytes, a6, block_crcs(blocks));
    }
    assert(end == at + unpack_info_bytes(blocks).len());
}

/// Blocks with their pipelines, sizes and CRCs lack only the division of their
/// output among their files.
pub proof fn lemma_sized_with_crcs(blocks: Seq<BlockView>)
    ensures
        bares(blocks).len() == blocks.len(),
        block_crcs(blocks).len() == blocks.len(),
        with_crcs(sized(blocks, blocks.len()), block_crcs(blocks)) == undivided(blocks),
{
    assert(with_crcs(sized(blocks, blocks.len()), block_crcs(blocks)) =~= undivided(blocks));
}

/// Whether the division of the output of a block among its files can be written and
/// read back: each file has a size and a place for a CRC, the sizes add up to the
/// size of the output, and the one file of a block has the CRC of the block where
/// that is declared.
pub open spec fn division_wf(block: BlockView) -> bool {
    &&& block.substream_crcs.len() == block.substream_sizes.len()
    &&& block.substream_sizes.len() <= u64::MAX
    &&& block.substream_sizes.len() > 0 ==> (output_size(block) matches Some(output) && output
        == sum(block.substream_sizes))
    &&& crc_is_known(block) ==> block.substream_crcs[0] == block.crc
}

/// Whether the division of the output of each of `blocks` can be written and read
/// back.
#[verifier::opaque]
pub open spec fn divisions_wf(blocks: Seq<BlockView>) -> bool {
    forall|i: int| 0 <= i < blocks.len() ==> division_wf(#[trigger] blocks[i])
}

/// The sizes that the header states for one block: those of all its files but the
/// last.
pub open spec fn stated_of(block: BlockView) -> Seq<u64> {
    if block.substream_sizes.len() == 0 {
        Seq::empty()
    } else {
        block.substream_sizes.drop_last()
    }
}

/// The CRCs that the header states for one block: none where the CRC of its one
/// file is known.
pub open spec fn crcs_of(block: BlockView) -> Seq<Option<u32>> {
    if crc_is_known(block) {
        Seq::empty()
    } else {
        block.substream_crcs
    }
}

/// How many sizes and CRCs the header states for the first blocks, and how many
/// files those blocks hold.
pub proof fn lemma_stated_lens(blocks: Seq<BlockView>, upto: nat)
    requires
        upto <= blocks.len(),
        divisions_wf(blocks),
    ensures
        stated_count(substream_counts(blocks).take(upto as int)) == stated_sizes(
            blocks.take(upto as int),
        ).len(),
        unknown_crcs(undivided(blocks), substream_counts(blocks), upto) == stated_crcs(
            blocks.take(upto as int),
        ).len(),
        sum(substream_counts(blocks).take(upto as int)) == files_in_blocks(
            blocks.take(upto as int),
        ),
        sum(substream_counts(blocks).take(upto as int)) <= upto + stated_sizes(
            blocks.take(upto as int),
        ).len(),
    decreases upto,
{
    let counts = substream_counts(blocks);
    if upto == 0 {
        assert(counts.take(0) =~= Seq::<u64>::empty());
        assert(blocks.take(0) =~= Seq::<BlockView>::empty());
    } else {
        lemma_stated_lens(blocks, (upto - 1) as nat);
        assert(counts.take(upto as int).drop_last() =~= counts.take(upto - 1));
        assert(blocks.take(upto as int).drop_last() =~= blocks.take(upto - 1));
        assert(blocks.take(upto as int).last() == blocks[upto - 1]);
        assert(counts.take(upto as int).last() == counts[upto - 1]);
        assert(division_wf(blocks[upto - 1])) by {
            reveal(divisions_wf);
        }
        assert(undivided(blocks)[upto - 1].crc == blocks[upto - 1].crc);
    }
}

/// What the header states for the first blocks is the start of what it states for
/// all blocks.
pub proof fn lemma_stated_prefix(blocks: Seq<BlockView>, upto: nat)
    requires
        upto <= blocks.len(),
    ensures
        stated_sizes(blocks.take(upto as int)).len() <= stated_sizes(blocks).len(),
        stated_sizes(blocks).take(stated_sizes(blocks.take(upto as int)).len() as int)
            == stated_sizes(blocks.take(upto as int)),
        stated_crcs(blocks.take(upto as int)).len() <= stated_crcs(blocks).len(),
        stated_crcs(blocks).take(stated_crcs(blocks.take(upto as int)).len() as int)
            == stated_crcs(blocks.take(upto as int)),
    decreases blocks.len() - upto,
{
    if upto == blocks.len() {
        assert(blocks.take(upto as int) =~= blocks);
        assert(stated_sizes(blocks).take(stated_sizes(blocks).len() as int) =~= stated_sizes(
            blocks,
        ));
        assert(stated_crcs(blocks).take(stated_crcs(blocks).len() as int) =~= stated_crcs(blocks));
    } else {
        lemma_stated_prefix(blocks, upto + 1);
        let more = blocks.take(upto as int + 1);
        let fewer = blocks.take(upto as int);
        assert(more.drop_last() =~= fewer);
        let s = stated_sizes(blocks);
        let c = stated_crcs(blocks);
        assert(s.take(stated_sizes(fewer).len() as int) =~= s.take(
            stated_sizes(more).len() as int,
        ).take(stated_sizes(fewer).len() as int));
        assert(c.take(stated_crcs(fewer).len() as int) =~= c.take(
            stated_crcs(more).len() as int,
        ).take(stated_crcs(fewer).len() as int));
        assert(stated_sizes(more).take(stated_sizes(fewer).len() as int) =~= stated_sizes(fewer));
        assert(stated_crcs(more).take(stated_crcs(fewer).len() as int) =~= stated_crcs(fewer));
    }
}

/// Where what the header states for all blocks is cut at the places of one block,
/// what it states for that block is found.
pub proof fn lemma_stated_pieces(blocks: Seq<BlockView>, index: int)
    requires
        0 <= index < blocks.len(),
    ensures
        stated_sizes(blocks).subrange(
            stated_sizes(blocks.take(index)).len() as int,
            (stated_sizes(blocks.take(index)).len() + stated_of(blocks[index]).len()) as int,
        ) == stated_of(blocks[index]),
        stated_crcs(blocks).subrange(
            stated_crcs(blocks.take(index)).len() as int,
            (stated_crcs(blocks.take(index)).len() + crcs_of(blocks[index]).len()) as int,
        ) == crcs_of(blocks[index]),
        stated_sizes(blocks.take(index)).len() + stated_of(blocks[index]).len() <= stated_sizes(
            blocks,
        ).len(),
        stated_crcs(blocks.take(index)).len() + crcs_of(blocks[index]).len() <= stated_crcs(
            blocks,
        ).len(),
{
    lemma_stated_prefix(blocks, index as nat);
    lemma_stated_prefix(blocks, (index + 1) as nat);
    let more = blocks.take(index + 1);
    let fewer = blocks.take(index);
    assert(more.drop_last() =~= fewer);
    assert(more.last() == blocks[index]);
    let s = stated_sizes(blocks);
    let c = stated_crcs(blocks);
    assert(stated_sizes(more) == stated_sizes(fewer) + stated_of(blocks[index]));
    assert(stated_crcs(more) == stated_crcs(fewer) + crcs_of(blocks[index]));
    assert(s.subrange(
        stated_sizes(fewer).len() as int,
        (stated_sizes(fewer).len() + stated_of(blocks[index]).len()) as int,
    ) =~= s.take(stated_sizes(more).len() as int).subrange(
        stated_sizes(fewer).len() as int,
        stated_sizes(more).len() as int,
    ));
    assert(c.subrange(
        stated_crcs(fewer).len() as int,
        (stated_crcs(fewer).len() + crcs_of(blocks[index]).len()) as int,
    ) =~= c.take(stated_crcs(more).len() as int).subrange(
        stated_crcs(fewer).len() as int,
        stated_crcs(more).len() as int,
    ));
    assert((stated_sizes(fewer) + stated_of(blocks[index])).subrange(
        stated_sizes(fewer).len() as int,
        stated_sizes(more).len() as int,
    ) =~= stated_of(blocks[index]));
    assert((stated_crcs(fewer) + crcs_of(blocks[index])).subrange(
        stated_crcs(fewer).len() as int,
        stated_crcs(more).len() as int,
    ) =~= crcs_of(blocks[index]));
}

/// A block is what its division, as the header states it, makes of the block
/// without its division.
pub proof fn lemma_divided_block(block: BlockView, crcs: Seq<Option<u32>>)
    requires
        division_wf(block),
        !crc_is_known(block) ==> crcs == block.substream_crcs,
    ensures
        divided_block(
            BlockView {
                substream_sizes: Seq::empty(),
                substream_crcs: Seq::empty(),
                ..block
            },
            block.substream_sizes.len() as u64,
            stated_of(block),
            crcs,
        ) == Ok::<BlockView, Error>(block),
{
    let without = BlockView {
        substream_sizes: Seq::empty(),
        substream_crcs: Seq::empty(),
        ..block
    };
    assert(output_size(without) == output_size(block));
    if block.substream_sizes.len() == 0 {
        assert(block.substream_sizes =~= Seq::<u64>::empty());
        assert(block.substream_crcs =~= Seq::<Option<u32>>::empty());
    } else {
        let output = output_size(block).unwrap();
        let stated = stated_of(block);
        assert(sum(block.substream_sizes) == sum(stated) + block.substream_sizes.last());
        assert(stated.push((output - sum(stated)) as u64) =~= block.substream_sizes);
        if crc_is_known(block) {
            assert(seq![block.crc] =~= block.substream_crcs);
        }
    }
}

/// The division that the header states makes of the blocks without their division
/// the blocks.
pub proof fn lemma_divided_read_back(blocks: Seq<BlockView>, upto: nat)
    requires
        upto <= blocks.len(),
        divisions_wf(blocks),
    ensures
        divided(
            undivided(blocks),
            substream_counts(blocks),
            stated_sizes(blocks),
            stated_crcs(blocks),
            upto,
        ) == Ok::<Seq<BlockView>, Error>(blocks.take(upto as int)),
    decreases upto,
{
    if upto == 0 {
        assert(blocks.take(0) =~= Seq::<BlockView>::empty());
    } else {
        let b = upto - 1;
        let block = blocks[b];
        lemma_divided_read_back(blocks, b as nat);
        lemma_stated_lens(blocks, b as nat);
        lemma_stated_pieces(blocks, b);
        assert(division_wf(block)) by {
            reveal(divisions_wf);
        }
        let counts = substream_counts(blocks);
        let size_from = stated_count(counts.take(b));
        let crc_from = unknown_crcs(undivided(blocks), counts, b as nat);
        let crcs = stated_crcs(blocks).subrange(crc_from as int, crc_from + counts[b]);
        assert(counts[b] == block.substream_sizes.len());
        assert(stated_of(block).len() == (if counts[b] == 0 {
            0
        } else {
            counts[b] - 1
        }));
        if !crc_is_known(block) {
            assert(crcs_of(block).len() == counts[b]);
        }
        lemma_divided_block(block, crcs);
        assert(blocks.take(b).push(block) =~= blocks.take(upto as int));
    }
}

/// The CRCs with which a structure ends start with their id or with the end mark.
pub proof fn lemma_crcs_to_end_first(bytes: Seq<u8>, at: int, crcs: Seq<Option<u32>>)
    requires
        has(bytes, at, crcs_to_end_bytes(crcs)),
    ensures
        peek_is(bytes, at, K_CRC) || peek_is(bytes, at, K_END),
{
    reveal(has);
    let piece = crcs_to_end_bytes(crcs);
    assert(bytes.subrange(at, at + piece.len())[0] == piece[0]);
}

/// Where a piece that starts with `id` stands, `id` is seen.
pub proof fn lemma_peek(bytes: Seq<u8>, at: int, id: u8, rest: Seq<u8>)
    requires
        has(bytes, at, seq![id] + rest),
    ensures
        peek_is(bytes, at, id),
        has(bytes, at + 1, rest),
{
    lemma_has_split(bytes, at, seq![id], rest);
    lemma_byte_read_back(bytes, at, id);
}

/// The numbers of files of the blocks as they are written: nothing where each block
/// holds one file.
pub open spec fn counts_bytes(blocks: Seq<BlockView>) -> Seq<u8> {
    if all_single(blocks) {
        Seq::empty()
    } else {
        seq![K_NUM_UNPACK_STREAM] + nums(substream_counts(blocks))
    }
}

/// The sizes of the files of the blocks as they are written: nothing where no block
/// holds more than one file.
pub open spec fn sizes_bytes(blocks: Seq<BlockView>) -> Seq<u8> {
    if none_shared(blocks) {
        Seq::empty()
    } else {
        seq![K_SIZE] + nums(stated_sizes(blocks))
    }
}

/// Where no block holds more than one file, the header states no size.
pub proof fn lemma_none_shared(blocks: Seq<BlockView>)
    requires
        none_shared(blocks),
    ensures
        stated_sizes(blocks).len() == 0,
    decreases blocks.len(),
{
    if blocks.len() > 0 {
        assert forall|i: int| 0 <= i < blocks.drop_last().len() implies blocks.drop_last()[i].substream_sizes.len()
            <= 1 by {
            assert(blocks.drop_last()[i] == blocks[i]);
        }
        lemma_none_shared(blocks.drop_last());
        assert(blocks.last() == blocks[blocks.len() - 1]);
    }
}

/// Where the division of the output of the blocks stands, it is read.
#[verifier::rlimit(40)]
pub proof fn lemma_sub_streams_read_back(bytes: Seq<u8>, at: int, blocks: Seq<BlockView>)
    requires
        divisions_wf(blocks),
        blocks.len() + stated_sizes(blocks).len() <= bytes.len(),
        has(bytes, at, sub_streams_info_bytes(blocks)),
    ensures
        p_sub_streams(bytes, at, undivided(blocks)) == Ok::<(Seq<BlockView>, int), Error>(
            (blocks, at + sub_streams_info_bytes(blocks).len()),
        ),
{
    let counts = substream_counts(blocks);
    let q1 = counts_bytes(blocks);
    let q2 = sizes_bytes(blocks);
    let q3 = crcs_to_end_bytes(stated_crcs(blocks));
    assert(sub_streams_info_bytes(blocks) =~= q1 + (q2 + q3));
    lemma_has_split(bytes, at, q1, q2 + q3);
    let a1 = at + q1.len();
    lemma_has_split(bytes, a1, q2, q3);
    let a2 = a1 + q2.len();
    let end = a2 + q3.len();
    lemma_crcs_to_end_first(bytes, a2, stated_crcs(blocks));
    lemma_stated_lens(blocks, blocks.len());
    assert(counts.take(blocks.len() as int) =~= counts);
    assert(blocks.take(blocks.len() as int) =~= blocks);
    assert(undivided(blocks).len() == blocks.len());
    // The numbers of files.
    assert((if peek_is(bytes, at, K_NUM_UNPACK_STREAM) {
        p_nums(bytes, at + 1, blocks.len())
    } else {
        Ok((ones(blocks.len()), at))
    }) == Ok::<(Seq<u64>, int), Error>((counts, a1))) by {
        if all_single(blocks) {
            if none_shared(blocks) {
            } else {
                lemma_peek(bytes, a1, K_SIZE, nums(stated_sizes(blocks)));
            }
            assert(ones(blocks.len()) =~= counts);
        } else {
            lemma_peek(bytes, at, K_NUM_UNPACK_STREAM, nums(counts));
            lemma_nums_read_back(bytes, at + 1, counts);
        }
    }
    // The sizes.
    assert((if peek_is(bytes, a1, K_SIZE) {
        p_nums(bytes, a1 + 1, stated_count(counts))
    } else if stated_count(counts) > 0 {
        Err(crate::header_spec::malformed())
    } else {
        Ok((Seq::<u64>::empty(), a1))
    }) == Ok::<(Seq<u64>, int), Error>((stated_sizes(blocks), a2))) by {
        if none_shared(blocks) {
            lemma_none_shared(blocks);
            assert(stated_sizes(blocks) =~= Seq::<u64>::empty());
        } else {
            lemma_peek(bytes, a1, K_SIZE, nums(stated_sizes(blocks)));
            lemma_nums_read_back(bytes, a1 + 1, stated_sizes(blocks));
        }
    }
    assert(p_crcs_to_end(bytes, a2, stated_crcs(blocks).len()) == Ok::<
        (Seq<Option<u32>>, int),
        Error,
    >((stated_crcs(blocks), end))) by {
        lemma_crcs_to_end_read_back(bytes, a2, stated_crcs(blocks));
    }
    lemma_divided_read_back(blocks, blocks.len());
}

/// The pipelines of blocks take at least a byte each.
pub proof fn lemma_folders_len(blocks: Seq<BlockView>)
    ensures
        folders_bytes(blocks).len() >= blocks.len(),
        unpack_info_bytes(blocks).len() >= blocks.len(),
    decreases blocks.len(),
{
    if blocks.len() > 0 {
        lemma_folders_len(blocks.drop_last());
        lemma_decode_encode(blocks.last().coders.len() as u64, Seq::empty());
    }
}

/// The division of the output of the blocks takes at least a byte for each size
/// that it states.
pub proof fn lemma_sub_streams_len(blocks: Seq<BlockView>)
    ensures
        sub_streams_info_bytes(blocks).len() >= stated_sizes(blocks).len(),
{
    if none_shared(blocks) {
        lemma_none_shared(blocks);
    } else {
        lemma_nums_len(stated_sizes(blocks));
    }
}

/// Whether the streams of an archive can be written and read back.
#[verifier::opaque]
pub open spec fn streams_wf(archive: ArchiveView) -> bool {
    &&& archive.pack_crcs.len() == archive.pack_sizes.len()
    &&& archive.pack_sizes.len() <= u64::MAX
    &&& archive.blocks.len() <= u64::MAX
    &&& pipelines_wf(archive.blocks)
    &&& sizes_wf(archive.blocks)
    &&& divisions_wf(archive.blocks)
}

/// The streams of an archive as they are written, piece by piece.
pub proof fn lemma_streams_info_shape(archive: ArchiveView)
    ensures
        streams_info_bytes(archive) == seq![K_PACK_INFO] + (pack_info_bytes(archive) + (seq![
            K_UNPACK_INFO,
        ] + (unpack_info_bytes(archive.blocks) + (seq![K_SUB_STREAMS_INFO] + (
        sub_streams_info_bytes(archive.blocks) + seq![K_END]))))),
{
    assert(streams_info_bytes(archive) =~= seq![K_PACK_INFO] + (pack_info_bytes(archive) + (seq![
        K_UNPACK_INFO,
    ] + (unpack_info_bytes(archive.blocks) + (seq![K_SUB_STREAMS_INFO] + (sub_streams_info_bytes(
        archive.blocks,
    ) + seq![K_END]))))));
}

/// The streams of an archive are read from their three parts, each under its id, and
/// the end mark behind them.
proof fn lemma_streams_info_of_parts(
    bytes: Seq<u8>,
    at: int,
    a1: int,
    a2: int,
    a3: int,
    pack_pos: u64,
    pack_sizes: Seq<u64>,
    pack_crcs: Seq<Option<u32>>,
    bare: Seq<BlockView>,
    blocks: Seq<BlockView>,
)
    requires
        peek_is(bytes, at, K_PACK_INFO),
        p_pack_info(bytes, at + 1) == Ok::<((u64, Seq<u64>, Seq<Option<u32>>), int), Error>(
            ((pack_pos, pack_sizes, pack_crcs), a1),
        ),
        peek_is(bytes, a1, K_UNPACK_INFO),
        p_unpack_info(bytes, a1 + 1) == Ok::<(Seq<BlockView>, int), Error>((bare, a2)),
        peek_is(bytes, a2, K_SUB_STREAMS_INFO),
        p_sub_streams(bytes, a2 + 1, bare) == Ok::<(Seq<BlockView>, int), Error>((blocks, a3)),
        p_expect(bytes, a3, K_END) == Ok::<int, Error>(a3 + 1),
    ensures
        p_streams_info(bytes, at) == Ok::<(StreamsView, int), Error>(
            (StreamsView { pack_pos, pack_sizes, pack_crcs, blocks }, a3 + 1),
        ),
{
}

/// Where the streams of an archive stand, they are read.
#[verifier::rlimit(40)]
pub proof fn lemma_streams_info_read_back(bytes: Seq<u8>, at: int, archive: ArchiveView)
    requires
        streams_wf(archive),
        has(bytes, at, streams_info_bytes(archive)),
    ensures
        p_streams_info(bytes, at) == Ok::<(StreamsView, int), Error>(
            (
                StreamsView {
                    pack_pos: archive.pack_pos,
                    pack_sizes: archive.pack_sizes,
                    pack_crcs: archive.pack_crcs,
                    blocks: archive.blocks,
                },
                at + streams_info_bytes(archive).len(),
            ),
        ),
{
    reveal(streams_wf);
    let blocks = archive.blocks;
    let part1 = pack_info_bytes(archive);
    let part2 = unpack_info_bytes(blocks);
    let part3 = sub_streams_info_bytes(blocks);
    lemma_streams_info_shape(archive);
    lemma_peek(
        bytes,
        at,
        K_PACK_INFO,
        part1 + (seq![K_UNPACK_INFO] + (part2 + (seq![K_SUB_STREAMS_INFO] + (part3 + seq![K_END])))),
    );
    lemma_has_split(
        bytes,
        at + 1,
        part1,
        seq![K_UNPACK_INFO] + (part2 + (seq![K_SUB_STREAMS_INFO] + (part3 + seq![K_END]))),
    );
    let a1 = at + 1 + part1.len();
    lemma_peek(bytes, a1, K_UNPACK_INFO, part2 + (seq![K_SUB_STREAMS_INFO] + (part3 + seq![K_END])));
    lemma_has_split(bytes, a1 + 1, part2, seq![K_SUB_STREAMS_INFO] + (part3 + seq![K_END]));
    let a2 = a1 + 1 + part2.len();
    lemma_peek(bytes, a2, K_SUB_STREAMS_INFO, part3 + seq![K_END]);
    lemma_has_split(bytes, a2 + 1, part3, seq![K_END]);
    let a3 = a2 + 1 + part3.len();
    assert(p_pack_info(bytes, at + 1) == Ok::<((u64, Seq<u64>, Seq<Option<u32>>), int), Error>(
        ((archive.pack_pos, archive.pack_sizes, archive.pack_crcs), a1),
    )) by {
        lemma_pack_info_read_back(bytes, at + 1, archive);
    }
    assert(p_unpack_info(bytes, a1 + 1) == Ok::<(Seq<BlockView>, int), Error>(
        (undivided(blocks), a2),
    )) by {
        lemma_unpack_info_read_back(bytes, a1 + 1, blocks);
    }
    assert(p_sub_streams(bytes, a2 + 1, undivided(blocks)) == Ok::<(Seq<BlockView>, int), Error>(
        (blocks, a3),
    )) by {
        lemma_folders_len(blocks);
        lemma_sub_streams_len(blocks);
        lemma_has_range(bytes, a1 + 1, part2);
        lemma_has_range(bytes, a2 + 1, part3);
        lemma_sub_streams_read_back(bytes, a2 + 1, blocks);
    }
    assert(p_expect(bytes, a3, K_END) == Ok::<int, Error>(a3 + 1)) by {
        lemma_byte_read_back(bytes, a3, K_END);
    }
    assert(a3 + 1 == at + streams_info_bytes(archive).len());
    lemma_streams_info_of_parts(
        bytes,
        at,
        a1,
        a2,
        a3,
        archive.pack_pos,
        archive.pack_sizes,
        archive.pack_crcs,
        undivided(blocks),
        blocks,
    );
}

/// Code units written behind one another start with the bytes of the first.
pub proof fn lemma_units_front(unit: u16, rest: Seq<u16>)
    ensures
        units_bytes(seq![unit] + rest) == seq![(unit % 256) as u8, (unit / 256) as u8]
            + units_bytes(rest),
    decreases rest.len(),
{
    let all = seq![unit] + rest;
    if rest.len() == 0 {
        assert(all.drop_last() =~= Seq::<u16>::empty());
        assert(all.last() == unit);
        assert(units_bytes(all.drop_last()) =~= Seq::<u8>::empty());
        assert(units_bytes(rest) =~= Seq::<u8>::empty());
        assert(units_bytes(all) == units_bytes(all.drop_last()) + seq![
            (all.last() % 256) as u8,
            (all.last() / 256) as u8,
        ]);
        assert(units_bytes(all) =~= seq![(unit % 256) as u8, (unit / 256) as u8] + units_bytes(
            rest,
        ));
    } else {
        lemma_units_front(unit, rest.drop_last());
        assert(all.drop_last() =~= seq![unit] + rest.drop_last());
        assert(all.last() == rest.last());
        assert(units_bytes(all) =~= seq![(unit % 256) as u8, (unit / 256) as u8] + units_bytes(
            rest,
        ));
    }
}

/// Whether no code unit of `name` is zero.
pub open spec fn no_zero_unit(name: Seq<u16>) -> bool {
    forall|i: int| 0 <= i < name.len() ==> name[i] != 0
}

/// Where a name without a zero unit stands, followed by a zero unit, it is read.
pub proof fn lemma_name_read_back(data: Seq<u8>, at: int, name: Seq<u16>)
    requires
        no_zero_unit(name),
        has(data, at, units_bytes(name) + seq![0u8, 0u8]),
    ensures
        p_name(data, at) == Ok::<(Seq<u16>, int), Error>((name, at + 2 * name.len() + 2)),
        units_bytes(name).len() == 2 * name.len(),
    decreases name.len(),
{
    if name.len() == 0 {
        reveal(has);
        assert(units_bytes(name) + seq![0u8, 0u8] =~= seq![0u8, 0u8]);
        let piece = data.subrange(at, at + 2);
        assert(piece[0] == 0 && piece[1] == 0);
        assert(name =~= Seq::<u16>::empty());
    } else {
        let unit = name[0];
        let rest = name.drop_first();
        assert(name =~= seq![unit] + rest);
        lemma_units_front(unit, rest);
        let head = seq![(unit % 256) as u8, (unit / 256) as u8];
        assert(units_bytes(name) + seq![0u8, 0u8] =~= head + (units_bytes(rest) + seq![0u8, 0u8]));
        lemma_has_split(data, at, head, units_bytes(rest) + seq![0u8, 0u8]);
        assert(no_zero_unit(rest)) by {
            assert forall|i: int| 0 <= i < rest.len() implies rest[i] != 0 by {
                assert(rest[i] == name[i + 1]);
            }
        }
        lemma_name_read_back(data, at + 2, rest);
        assert(data[at] == (unit % 256) as u8 && data[at + 1] == (unit / 256) as u8) by {
            reveal(has);
            let piece = data.subrange(at, at + 2);
            assert(piece[0] == head[0] && piece[1] == head[1]);
        }
        lemma_has_range(data, at, head);
        assert(unit != 0);
        assert((data[at] + 256 * data[at + 1]) as u16 == unit);
    }
}

/// The names of `files`.
pub open spec fn names_of(files: Seq<EntryView>) -> Seq<Seq<u16>> {
    Seq::new(files.len(), |i: int| files[i].name)
}

/// Whether no name of `files` has a zero unit.
#[verifier::opaque]
pub open spec fn names_wf(files: Seq<EntryView>) -> bool {
    forall|i: int| 0 <= i < files.len() ==> no_zero_unit(#[trigger] files[i].name)
}

/// Where the names of files stand, they are read.
pub proof fn lemma_names_read_back(data: Seq<u8>, at: int, files: Seq<EntryView>)
    requires
        names_wf(files),
        has(data, at, names_bytes(files)),
    ensures
        p_names(data, at, files.len()) == Ok::<(Seq<Seq<u16>>, int), Error>(
            (names_of(files), at + names_bytes(files).len()),
        ),
        names_bytes(files).len() >= 2 * files.len(),
    decreases files.len(),
{
    if files.len() == 0 {
        reveal(has);
        assert(names_of(files) =~= Seq::<Seq<u16>>::empty());
    } else {
        let head = files.drop_last();
        let last = files.last();
        assert(names_wf(head) && no_zero_unit(last.name)) by {
            reveal(names_wf);
            assert forall|i: int| 0 <= i < head.len() implies no_zero_unit(
                #[trigger] head[i].name,
            ) by {
                assert(head[i] == files[i]);
            }
            assert(last == files[files.len() - 1]);
        }
        let h = names_bytes(head);
        assert(names_bytes(files) =~= h + (units_bytes(last.name) + seq![0u8, 0u8]));
        lemma_has_split(data, at, h, units_bytes(last.name) + seq![0u8, 0u8]);
        lemma_names_read_back(data, at, head);
        lemma_name_read_back(data, at + h.len(), last.name);
        assert(names_of(head).push(last.name) =~= names_of(files));
    }
}

/// The names of files, as the data of their property, are read.
pub proof fn lemma_names_data_read_back(files: Seq<EntryView>)
    requires
        names_wf(files),
    ensures
        p_names_data(seq![0u8] + names_bytes(files), files.len()) == Ok::<Seq<Seq<u16>>, Error>(
            names_of(files),
        ),
        names_bytes(files).len() >= 2 * files.len(),
{
    let data = seq![0u8] + names_bytes(files);
    assert(has(data, 0, data)) by {
        reveal(has);
        assert(data.subrange(0, data.len() as int) =~= data);
    }
    lemma_peek(data, 0, 0u8, names_bytes(files));
    lemma_names_read_back(data, 1, files);
}

/// A vector of bits, as the data of its property, is read.
pub proof fn lemma_flags_data_read_back(bits: Seq<bool>)
    ensures
        p_flags_data(packed(bits), bits.len()) == Ok::<Seq<bool>, Error>(bits),
{
    lemma_bits_round_trip(bits, Seq::empty());
    assert(packed(bits) + Seq::<u8>::empty() =~= packed(bits));
}

/// The data of a column as it is written.
pub open spec fn column_data(values: Seq<Option<u64>>, width: nat) -> Seq<u8> {
    defined_bytes(defined_of(values)) + seq![0u8] + values_bytes(values, width)
}

/// A column of values, as the data of its property, is read.
pub proof fn lemma_column_data_read_back(values: Seq<Option<u64>>, width: nat)
    requires
        values_fit(values, width),
    ensures
        p_column_data(column_data(values, width), values.len(), width) == Ok::<
            Seq<Option<u64>>,
            Error,
        >(values),
{
    let data = column_data(values, width);
    let part1 = defined_bytes(defined_of(values));
    let part3 = values_bytes(values, width);
    assert(data =~= part1 + (seq![0u8] + part3));
    assert(has(data, 0, data)) by {
        reveal(has);
        assert(data.subrange(0, data.len() as int) =~= data);
    }
    lemma_has_split(data, 0, part1, seq![0u8] + part3);
    lemma_has_split(data, part1.len() as int, seq![0u8], part3);
    lemma_defined_read_back(data, 0, defined_of(values));
    lemma_byte_read_back(data, part1.len() as int, 0u8);
    assert(values.take(values.len() as int) =~= values);
    lemma_values_read_back(
        data,
        part1.len() as int + 1,
        values,
        defined_of(values),
        width,
        values.len(),
    );
}

/// Where a property of the files stands, the properties from there on say what the
/// property says and then what the properties behind it say.
pub proof fn lemma_property_step(
    bytes: Seq<u8>,
    at: int,
    id: u8,
    data: Seq<u8>,
    count: nat,
    columns: FileColumns,
)
    requires
        id != K_END,
        bytes.len() <= u64::MAX,
        has(bytes, at, property_bytes(id, data)),
    ensures
        p_properties_of_files(bytes, at, count, columns) == (match with_property(
            columns,
            id,
            data,
            count,
        ) {
            Ok(next) => p_properties_of_files(
                bytes,
                at + property_bytes(id, data).len(),
                count,
                next,
            ),
            Err(e) => Err(e),
        }),
{
    lemma_has_range(bytes, at, property_bytes(id, data));
    assert(data.len() <= u64::MAX);
    let part2 = encoded(data.len() as u64);
    assert(property_bytes(id, data) =~= seq![id] + (part2 + data));
    lemma_peek(bytes, at, id, part2 + data);
    lemma_has_split(bytes, at + 1, part2, data);
    lemma_num_read_back(bytes, at + 1, data.len() as u64);
    let a2 = at + 1 + part2.len();
    lemma_has_range(bytes, a2, data);
    assert(bytes.subrange(a2, a2 + data.len()) == data) by {
        reveal(has);
    }
}

/// Where a property of the files stands that is written only where it says
/// something, the properties from there on say what it says, if it is there, and
/// then what the properties behind it say.
pub proof fn lemma_optional_step(
    bytes: Seq<u8>,
    at: int,
    id: u8,
    data: Seq<u8>,
    present: bool,
    count: nat,
    columns: FileColumns,
    updated: FileColumns,
)
    requires
        id != K_END,
        bytes.len() <= u64::MAX,
        present ==> has(bytes, at, property_bytes(id, data)) && with_property(
            columns,
            id,
            data,
            count,
        ) == Ok::<FileColumns, Error>(updated),
    ensures
        p_properties_of_files(bytes, at, count, columns) == p_properties_of_files(
            bytes,
            at + (if present {
                property_bytes(id, data).len()
            } else {
                0
            }),
            count,
            if present {
                updated
            } else {
                columns
            },
        ),
{
    if present {
        lemma_property_step(bytes, at, id, data, count, columns);
    }
}

/// As many of the first files have no stream as bits are set for them.
pub proof fn lemma_streamless_len(files: Seq<EntryView>, upto: int)
    requires
        0 <= upto <= files.len(),
    ensures
        count_set(empty_stream_bits(files).take(upto)) == streamless(files.take(upto)).len(),
    decreases upto,
{
    let bits = empty_stream_bits(files);
    if upto == 0 {
        assert(bits.take(0) =~= Seq::<bool>::empty());
        assert(files.take(0) =~= Seq::<EntryView>::empty());
    } else {
        lemma_streamless_len(files, upto - 1);
        assert(bits.take(upto).drop_last() =~= bits.take(upto - 1));
        assert(files.take(upto).drop_last() =~= files.take(upto - 1));
        assert(files.take(upto).last() == files[upto - 1]);
        assert(bits.take(upto).last() == bits[upto - 1]);
    }
}

/// The first files without a stream are the first of all files without a stream.
pub proof fn lemma_streamless_prefix(files: Seq<EntryView>, upto: int)
    requires
        0 <= upto <= files.len(),
    ensures
        streamless(files.take(upto)).len() <= streamless(files).len(),
        streamless(files).take(streamless(files.take(upto)).len() as int) == streamless(
            files.take(upto),
        ),
    decreases files.len() - upto,
{
    if upto == files.len() {
        assert(files.take(upto) =~= files);
        assert(streamless(files).take(streamless(files).len() as int) =~= streamless(files));
    } else {
        lemma_streamless_prefix(files, upto + 1);
        let more = files.take(upto + 1);
        let fewer = files.take(upto);
        assert(more.drop_last() =~= fewer);
        let all = streamless(files);
        assert(all.take(streamless(fewer).len() as int) =~= all.take(
            streamless(more).len() as int,
        ).take(streamless(fewer).len() as int));
        assert(streamless(more).take(streamless(fewer).len() as int) =~= streamless(fewer));
    }
}

/// A file without a stream is found among the files without a stream at the place
/// that the bits set before it count.
pub proof fn lemma_rank(files: Seq<EntryView>, index: int)
    requires
        0 <= index < files.len(),
        !files[index].has_stream,
    ensures
        count_set(empty_stream_bits(files).take(index)) < streamless(files).len(),
        streamless(files)[count_set(empty_stream_bits(files).take(index)) as int] == files[index],
{
    lemma_streamless_len(files, index);
    lemma_streamless_prefix(files, index + 1);
    let more = files.take(index + 1);
    assert(more.drop_last() =~= files.take(index));
    assert(more.last() == files[index]);
    let rank = streamless(files.take(index)).len() as int;
    assert(streamless(more)[rank] == files[index]);
    assert(streamless(files).take(streamless(more).len() as int)[rank] == streamless(files)[rank]);
}

/// Whether the entries can be written and read back: an entry that has a stream is
/// neither a directory nor an anti-item, and no name has a zero unit.
#[verifier::opaque]
pub open spec fn files_wf(files: Seq<EntryView>) -> bool {
    &&& files.len() <= u64::MAX
    &&& names_wf(files)
    &&& forall|i: int|
        0 <= i < files.len() && (#[trigger] files[i]).has_stream ==> !files[i].is_directory
            && !files[i].is_anti_item
}

/// The columns that the properties of `files`, as they are written, say.
pub open spec fn columns_of(files: Seq<EntryView>) -> FileColumns {
    FileColumns {
        empty_stream: if any_set(empty_stream_bits(files)) {
            empty_stream_bits(files)
        } else {
            Seq::new(files.len(), |i: int| false)
        },
        empty_file: if any_set(empty_file_bits(files)) {
            empty_file_bits(files)
        } else {
            Seq::empty()
        },
        anti: if any_set(anti_bits(files)) {
            anti_bits(files)
        } else {
            Seq::empty()
        },
        names: names_of(files),
        creation: if any_defined(creation_dates(files)) {
            creation_dates(files)
        } else {
            none_of(files.len())
        },
        access: if any_defined(access_dates(files)) {
            access_dates(files)
        } else {
            none_of(files.len())
        },
        modified: if any_defined(modified_dates(files)) {
            modified_dates(files)
        } else {
            none_of(files.len())
        },
        attributes: if any_defined(attributes(files)) {
            attributes(files)
        } else {
            none_of(files.len())
        },
    }
}

/// Bits of which none is set are the cleared bits.
pub proof fn lemma_clear(bits: Seq<bool>)
    requires
        !any_set(bits),
    ensures
        bits == Seq::new(bits.len(), |i: int| false),
{
    assert forall|i: int| 0 <= i < bits.len() implies !bits[i] by {
        if bits[i] {
            assert(any_set(bits));
        }
    }
    assert(bits =~= Seq::new(bits.len(), |i: int| false));
}

/// Values of which none is there are the missing values.
pub proof fn lemma_none<T>(values: Seq<Option<T>>)
    requires
        !any_defined(values),
    ensures
        values == none_of::<T>(values.len()),
{
    assert forall|i: int| 0 <= i < values.len() implies values[i] is None by {
        if values[i] is Some {
            assert(any_defined(values));
        }
    }
    assert(values =~= none_of::<T>(values.len()));
}

/// The columns that the properties of files say describe the files.
pub proof fn lemma_entries_of_columns(files: Seq<EntryView>)
    requires
        files_wf(files),
    ensures
        Seq::new(files.len(), |i: int| entry_of(columns_of(files), i)) == files,
{
    reveal(files_wf);
    let columns = columns_of(files);
    let bits = empty_stream_bits(files);
    if !any_set(bits) {
        lemma_clear(bits);
    }
    assert(columns.empty_stream == bits);
    lemma_streamless_len(files, files.len() as int);
    assert(bits.take(files.len() as int) =~= bits);
    assert(files.take(files.len() as int) =~= files);
    let set = count_set(bits);
    assert(set == streamless(files).len());
    if !any_set(empty_file_bits(files)) {
        lemma_clear(empty_file_bits(files));
    }
    if !any_set(anti_bits(files)) {
        lemma_clear(anti_bits(files));
    }
    assert(flags_or_clear(columns.empty_file, set) =~= empty_file_bits(files));
    assert(flags_or_clear(columns.anti, set) =~= anti_bits(files));
    if !any_defined(creation_dates(files)) {
        lemma_none(creation_dates(files));
    }
    if !any_defined(access_dates(files)) {
        lemma_none(access_dates(files));
    }
    if !any_defined(modified_dates(files)) {
        lemma_none(modified_dates(files));
    }
    if !any_defined(attributes(files)) {
        lemma_none(attributes(files));
    }
    assert forall|i: int| 0 <= i < files.len() implies entry_of(columns, i) == files[i] by {
        if !files[i].has_stream {
            lemma_rank(files, i);
        }
        assert(bits[i] == !files[i].has_stream);
        assert(columns.names[i] == files[i].name);
        assert(columns.creation[i] == files[i].creation_date);
        assert(columns.access[i] == files[i].access_date);
        assert(columns.modified[i] == files[i].last_modified_date);
        assert(columns.attributes[i] == attributes(files)[i]);
    }
    assert(Seq::new(files.len(), |i: int| entry_of(columns, i)) =~= files);
}

/// The columns after the first properties of `files`: those that say which files
/// have no stream, which of these are empty files and which anti-items.
pub open spec fn flag_columns(files: Seq<EntryView>) -> FileColumns {
    FileColumns {
        empty_stream: columns_of(files).empty_stream,
        empty_file: columns_of(files).empty_file,
        anti: columns_of(files).anti,
        ..blank_columns(files.len())
    }
}

/// Where the properties stand that say which files have no stream, which of these
/// are empty files and which anti-items, the properties go on behind them with what
/// they say.
pub proof fn lemma_flag_properties(bytes: Seq<u8>, at: int, files: Seq<EntryView>)
    requires
        bytes.len() <= u64::MAX,
        has(
            bytes,
            at,
            flags_bytes(K_EMPTY_STREAM, empty_stream_bits(files)) + (flags_bytes(
                K_EMPTY_FILE,
                empty_file_bits(files),
            ) + flags_bytes(K_ANTI, anti_bits(files))),
        ),
    ensures
        p_properties_of_files(bytes, at, files.len(), blank_columns(files.len()))
            == p_properties_of_files(
            bytes,
            at + flags_bytes(K_EMPTY_STREAM, empty_stream_bits(files)).len() + flags_bytes(
                K_EMPTY_FILE,
                empty_file_bits(files),
            ).len() + flags_bytes(K_ANTI, anti_bits(files)).len(),
            files.len(),
            flag_columns(files),
        ),
{
    let n = files.len();
    let es = empty_stream_bits(files);
    let ef = empty_file_bits(files);
    let an = anti_bits(files);
    let f1 = flags_bytes(K_EMPTY_STREAM, es);
    let f2 = flags_bytes(K_EMPTY_FILE, ef);
    let f3 = flags_bytes(K_ANTI, an);
    lemma_has_split(bytes, at, f1, f2 + f3);
    lemma_has_split(bytes, at + f1.len(), f2, f3);
    let c0 = blank_columns(n);
    let c1 = FileColumns { empty_stream: columns_of(files).empty_stream, ..c0 };
    let c2 = FileColumns { empty_file: columns_of(files).empty_file, ..c1 };
    let c3 = flag_columns(files);
    lemma_streamless_len(files, n as int);
    assert(es.take(n as int) =~= es);
    assert(files.take(n as int) =~= files);
    if !any_set(es) {
        lemma_clear(es);
    }
    assert(c1.empty_stream == es);
    assert(count_set(c1.empty_stream) == ef.len());
    lemma_bits_round_trip(es, Seq::empty());
    lemma_bits_round_trip(ef, Seq::empty());
    lemma_bits_round_trip(an, Seq::empty());
    assert(p_properties_of_files(bytes, at, n, c0) == p_properties_of_files(
        bytes,
        at + f1.len(),
        n,
        c1,
    )) by {
        lemma_flags_data_read_back(es);
        if any_set(es) {
            assert(with_property(c0, K_EMPTY_STREAM, packed(es), n) == Ok::<FileColumns, Error>(
                FileColumns { empty_stream: es, ..c0 },
            ));
        } else {
            assert(c1 == c0);
        }
        lemma_optional_step(
            bytes,
            at,
            K_EMPTY_STREAM,
            packed(es),
            any_set(es),
            n,
            c0,
            FileColumns { empty_stream: es, ..c0 },
        );
    }
    assert(p_properties_of_files(bytes, at + f1.len(), n, c1) == p_properties_of_files(
        bytes,
        at + f1.len() + f2.len(),
        n,
        c2,
    )) by {
        lemma_flags_data_read_back(ef);
        if any_set(ef) {
            assert(with_property(c1, K_EMPTY_FILE, packed(ef), n) == Ok::<FileColumns, Error>(
                FileColumns { empty_file: ef, ..c1 },
            ));
        } else {
            assert(c2 == c1);
        }
        lemma_optional_step(
            bytes,
            at + f1.len(),
            K_EMPTY_FILE,
            packed(ef),
            any_set(ef),
            n,
            c1,
            FileColumns { empty_file: ef, ..c1 },
        );
    }
    assert(p_properties_of_files(bytes, at + f1.len() + f2.len(), n, c2)
        == p_properties_of_files(bytes, at + f1.len() + f2.len() + f3.len(), n, c3)) by {
        lemma_flags_data_read_back(an);
        if any_set(an) {
            assert(with_property(c2, K_ANTI, packed(an), n) == Ok::<FileColumns, Error>(
                FileColumns { anti: an, ..c2 },
            ));
        } else {
            assert(c3 == c2);
        }
        lemma_optional_step(
            bytes,
            at + f1.len() + f2.len(),
            K_ANTI,
            packed(an),
            any_set(an),
            n,
            c2,
            FileColumns { anti: an, ..c2 },
        );
    }
}

/// The columns after the properties of `files` up to their names.
pub open spec fn named_columns(files: Seq<EntryView>) -> FileColumns {
    FileColumns { names: names_of(files), ..flag_columns(files) }
}

/// Where the property stands that holds the names, the properties go on behind it
/// with the names.
pub proof fn lemma_name_property(bytes: Seq<u8>, at: int, files: Seq<EntryView>)
    requires
        names_wf(files),
        bytes.len() <= u64::MAX,
        has(bytes, at, property_bytes(K_NAME, seq![0u8] + names_bytes(files))),
    ensures
        p_properties_of_files(bytes, at, files.len(), flag_columns(files))
            == p_properties_of_files(
            bytes,
            at + property_bytes(K_NAME, seq![0u8] + names_bytes(files)).len(),
            files.len(),
            named_columns(files),
        ),
        files.len() <= bytes.len(),
{
    let data = seq![0u8] + names_bytes(files);
    lemma_names_data_read_back(files);
    lemma_has_range(bytes, at, property_bytes(K_NAME, data));
    assert(with_property(flag_columns(files), K_NAME, data, files.len()) == Ok::<
        FileColumns,
        Error,
    >(named_columns(files)));
    lemma_property_step(bytes, at, K_NAME, data, files.len(), flag_columns(files));
}

/// Where a column of the files stands, the properties go on behind it with the
/// column, where it says anything.
pub proof fn lemma_column_property(
    bytes: Seq<u8>,
    at: int,
    id: u8,
    values: Seq<Option<u64>>,
    width: nat,
    columns: FileColumns,
    updated: FileColumns,
)
    requires
        values_fit(values, width),
        bytes.len() <= u64::MAX,
        has(bytes, at, column_bytes(id, values, width)),
        id != K_END,
        any_defined(values) ==> with_property(
            columns,
            id,
            column_data(values, width),
            values.len(),
        ) == (match p_column_data(column_data(values, width), values.len(), width) {
            Ok(read) => Ok::<FileColumns, Error>(updated),
            Err(e) => Err(e),
        }),
    ensures
        p_properties_of_files(bytes, at, values.len(), columns) == p_properties_of_files(
            bytes,
            at + column_bytes(id, values, width).len(),
            values.len(),
            if any_defined(values) {
                updated
            } else {
                columns
            },
        ),
{
    if any_defined(values) {
        lemma_column_data_read_back(values, width);
        lemma_has_range(bytes, at, column_bytes(id, values, width));
        lemma_property_step(bytes, at, id, column_data(values, width), values.len(), columns);
    }
}

/// Times fit eight bytes and attributes four.
pub proof fn lemma_columns_fit(files: Seq<EntryView>)
    ensures
        values_fit(creation_dates(files), 8),
        values_fit(access_dates(files), 8),
        values_fit(modified_dates(files), 8),
        values_fit(attributes(files), 4),
{
    lemma_weights();
}

/// Where the columns of times and attributes stand, followed by the end mark, the
/// properties end with what the columns say.
pub proof fn lemma_column_properties(bytes: Seq<u8>, at: int, files: Seq<EntryView>)
    requires
        bytes.len() <= u64::MAX,
        has(
            bytes,
            at,
            column_bytes(K_C_TIME, creation_dates(files), 8) + (column_bytes(
                K_A_TIME,
                access_dates(files),
                8,
            ) + (column_bytes(K_M_TIME, modified_dates(files), 8) + (column_bytes(
                K_WIN_ATTRIBUTES,
                attributes(files),
                4,
            ) + seq![K_END]))),
        ),
    ensures
        p_properties_of_files(bytes, at, files.len(), named_columns(files)) == Ok::<
            (FileColumns, int),
            Error,
        >(
            (
                columns_of(files),
                at + column_bytes(K_C_TIME, creation_dates(files), 8).len() + column_bytes(
                    K_A_TIME,
                    access_dates(files),
                    8,
                ).len() + column_bytes(K_M_TIME, modified_dates(files), 8).len() + column_bytes(
                    K_WIN_ATTRIBUTES,
                    attributes(files),
                    4,
                ).len() + 1,
            ),
        ),
{
    let n = files.len();
    let cr = creation_dates(files);
    let ac = access_dates(files);
    let mo = modified_dates(files);
    let attrs = attributes(files);
    let g1 = column_bytes(K_C_TIME, cr, 8);
    let g2 = column_bytes(K_A_TIME, ac, 8);
    let g3 = column_bytes(K_M_TIME, mo, 8);
    let g4 = column_bytes(K_WIN_ATTRIBUTES, attrs, 4);
    lemma_has_split(bytes, at, g1, g2 + (g3 + (g4 + seq![K_END])));
    lemma_has_split(bytes, at + g1.len(), g2, g3 + (g4 + seq![K_END]));
    lemma_has_split(bytes, at + g1.len() + g2.len(), g3, g4 + seq![K_END]);
    lemma_has_split(bytes, at + g1.len() + g2.len() + g3.len(), g4, seq![K_END]);
    lemma_columns_fit(files);
    let c4 = named_columns(files);
    let c5 = FileColumns { creation: columns_of(files).creation, ..c4 };
    let c6 = FileColumns { access: columns_of(files).access, ..c5 };
    let c7 = FileColumns { modified: columns_of(files).modified, ..c6 };
    let c8 = columns_of(files);
    assert(FileColumns { attributes: columns_of(files).attributes, ..c7 } == c8);
    let a5 = at + g1.len();
    let a6 = a5 + g2.len();
    let a7 = a6 + g3.len();
    let a8 = a7 + g4.len();
    assert(p_properties_of_files(bytes, at, n, c4) == p_properties_of_files(bytes, a5, n, c5))
        by {
        lemma_column_data_read_back(cr, 8);
        lemma_column_property(bytes, at, K_C_TIME, cr, 8, c4, FileColumns { creation: cr, ..c4 });
        if !any_defined(cr) {
            lemma_none(cr);
            assert(c5 == c4);
        }
    }
    assert(p_properties_of_files(bytes, a5, n, c5) == p_properties_of_files(bytes, a6, n, c6))
        by {
        lemma_column_data_read_back(ac, 8);
        lemma_column_property(bytes, a5, K_A_TIME, ac, 8, c5, FileColumns { access: ac, ..c5 });
        if !any_defined(ac) {
            lemma_none(ac);
            assert(c6 == c5);
        }
    }
    assert(p_properties_of_files(bytes, a6, n, c6) == p_properties_of_files(bytes, a7, n, c7))
        by {
        lemma_column_data_read_back(mo, 8);
        lemma_column_property(bytes, a6, K_M_TIME, mo, 8, c6, FileColumns { modified: mo, ..c6 });
        if !any_defined(mo) {
            lemma_none(mo);
            assert(c7 == c6);
        }
    }
    assert(p_properties_of_files(bytes, a7, n, c7) == p_properties_of_files(bytes, a8, n, c8))
        by {
        lemma_column_data_read_back(attrs, 4);
        lemma_column_property(
            bytes,
            a7,
            K_WIN_ATTRIBUTES,
            attrs,
            4,
            c7,
            FileColumns { attributes: attrs, ..c7 },
        );
        if !any_defined(attrs) {
            lemma_none(attrs);
            assert(FileColumns { attributes: columns_of(files).attributes, ..c7 } == c7);
        }
    }
    assert(p_properties_of_files(bytes, a8, n, c8) == Ok::<(FileColumns, int), Error>(
        (c8, a8 + 1),
    )) by {
        lemma_byte_read_back(bytes, a8, K_END);
    }
}

/// Ten pieces joined one after the other are the same however they are grouped.
pub proof fn lemma_regroup(
    part0: Seq<u8>,
    f1: Seq<u8>,
    f2: Seq<u8>,
    f3: Seq<u8>,
    pn: Seq<u8>,
    c1: Seq<u8>,
    c2: Seq<u8>,
    c3: Seq<u8>,
    c4: Seq<u8>,
    e: Seq<u8>,
)
    ensures
        part0 + f1 + f2 + f3 + pn + c1 + c2 + c3 + c4 + e == part0 + ((f1 + (f2 + f3)) + (pn + (c1 + (c2
            + (c3 + (c4 + e)))))),
{
    assert(part0 + f1 + f2 + f3 + pn + c1 + c2 + c3 + c4 + e =~= part0 + ((f1 + (f2 + f3)) + (pn + (c1 + (
    c2 + (c3 + (c4 + e)))))));
}

/// The entries as they are written, piece by piece.
#[verifier::rlimit(40)]
pub proof fn lemma_files_info_shape(files: Seq<EntryView>)
    ensures
        files_info_bytes(files) == encoded(files.len() as u64) + ((flags_bytes(
            K_EMPTY_STREAM,
            empty_stream_bits(files),
        ) + (flags_bytes(K_EMPTY_FILE, empty_file_bits(files)) + flags_bytes(
            K_ANTI,
            anti_bits(files),
        ))) + (property_bytes(K_NAME, seq![0u8] + names_bytes(files)) + (column_bytes(
            K_C_TIME,
            creation_dates(files),
            8,
        ) + (column_bytes(K_A_TIME, access_dates(files), 8) + (column_bytes(
            K_M_TIME,
            modified_dates(files),
            8,
        ) + (column_bytes(K_WIN_ATTRIBUTES, attributes(files), 4) + seq![K_END])))))),
{
    lemma_regroup(
        encoded(files.len() as u64),
        flags_bytes(K_EMPTY_STREAM, empty_stream_bits(files)),
        flags_bytes(K_EMPTY_FILE, empty_file_bits(files)),
        flags_bytes(K_ANTI, anti_bits(files)),
        property_bytes(K_NAME, seq![0u8] + names_bytes(files)),
        column_bytes(K_C_TIME, creation_dates(files), 8),
        column_bytes(K_A_TIME, access_dates(files), 8),
        column_bytes(K_M_TIME, modified_dates(files), 8),
        column_bytes(K_WIN_ATTRIBUTES, attributes(files), 4),
        seq![K_END],
    );
}

/// Where the entries of an archive stand, they are read.
#[verifier::rlimit(40)]
pub proof fn lemma_files_info_read_back(bytes: Seq<u8>, at: int, files: Seq<EntryView>)
    requires
        files_wf(files),
        bytes.len() <= u64::MAX,
        has(bytes, at, files_info_bytes(files)),
    ensures
        p_files_info(bytes, at) == Ok::<(Seq<EntryView>, int), Error>(
            (files, at + files_info_bytes(files).len()),
        ),
{
    let n = files.len();
    let part0 = encoded(n as u64);
    let flags = flags_bytes(K_EMPTY_STREAM, empty_stream_bits(files)) + (flags_bytes(
        K_EMPTY_FILE,
        empty_file_bits(files),
    ) + flags_bytes(K_ANTI, anti_bits(files)));
    let names = property_bytes(K_NAME, seq![0u8] + names_bytes(files));
    let columns = column_bytes(K_C_TIME, creation_dates(files), 8) + (column_bytes(
        K_A_TIME,
        access_dates(files),
        8,
    ) + (column_bytes(K_M_TIME, modified_dates(files), 8) + (column_bytes(
        K_WIN_ATTRIBUTES,
        attributes(files),
        4,
    ) + seq![K_END])));
    assert(names_wf(files) && n <= u64::MAX) by {
        reveal(files_wf);
    }
    lemma_files_info_shape(files);
    lemma_has_split(bytes, at, part0, flags + (names + columns));
    let a1 = at + part0.len();
    lemma_has_split(bytes, a1, flags, names + columns);
    let a2 = a1 + flags.len();
    lemma_has_split(bytes, a2, names, columns);
    let a3 = a2 + names.len();
    lemma_flag_properties(bytes, a1, files);
    lemma_name_property(bytes, a2, files);
    lemma_column_properties(bytes, a3, files);
    lemma_count_read_back(bytes, at, n);
    lemma_entries_of_columns(files);
}

/// Whether an archive can be written and read back.
#[verifier::opaque]
pub open spec fn archive_wf(archive: ArchiveView) -> bool {
    &&& streams_wf(archive)
    &&& files_wf(archive.files)
    &&& files_with_stream(archive.files) == files_in_blocks(archive.blocks)
    &&& archive.blocks.len() == 0 ==> archive.pack_pos == 0 && archive.pack_sizes.len() == 0
}

/// The streams of an archive as the header states them: nothing where the archive
/// has no blocks.
pub open spec fn streams_part(archive: ArchiveView) -> Seq<u8> {
    if archive.blocks.len() > 0 {
        seq![K_MAIN_STREAMS_INFO] + streams_info_bytes(archive)
    } else {
        Seq::empty()
    }
}

/// The entries of an archive as the header states them: nothing where the archive
/// has no entries.
pub open spec fn files_part(archive: ArchiveView) -> Seq<u8> {
    if archive.files.len() > 0 {
        seq![K_FILES_INFO] + files_info_bytes(archive.files)
    } else {
        Seq::empty()
    }
}

/// The end header of an archive as it is written, piece by piece.
pub proof fn lemma_header_shape(archive: ArchiveView)
    ensures
        header_bytes(archive) == seq![K_HEADER] + (streams_part(archive) + (files_part(archive)
            + seq![K_END])),
{
    assert(header_bytes(archive) =~= seq![K_HEADER] + (streams_part(archive) + (files_part(
        archive,
    ) + seq![K_END])));
}

/// Whether an archive can be written and read back, and its end header is no longer
/// than a number of 64 bits can say.
pub open spec fn writable(archive: ArchiveView) -> bool {
    archive_wf(archive) && header_bytes(archive).len() <= u64::MAX
}

/// Where the streams of an archive stand in its end header, behind the id of the
/// header, they are read.
pub proof fn lemma_streams_part_read_back(bytes: Seq<u8>, archive: ArchiveView)
    requires
        streams_wf(archive),
        archive.blocks.len() == 0 ==> archive.pack_pos == 0 && archive.pack_sizes.len() == 0,
        has(bytes, 1, streams_part(archive)),
        peek_is(bytes, 1 + streams_part(archive).len() as int, K_FILES_INFO) || peek_is(
            bytes,
            1 + streams_part(archive).len() as int,
            K_END,
        ),
    ensures
        !peek_is(bytes, 1, crate::header_spec::K_ARCHIVE_PROPERTIES),
        !peek_is(bytes, 1, crate::header_spec::K_ADDITIONAL_STREAMS_INFO),
        (if peek_is(bytes, 1, K_MAIN_STREAMS_INFO) {
            p_streams_info(bytes, 2)
        } else {
            Ok((no_streams(), 1))
        }) == Ok::<(StreamsView, int), Error>(
            (
                StreamsView {
                    pack_pos: archive.pack_pos,
                    pack_sizes: archive.pack_sizes,
                    pack_crcs: archive.pack_crcs,
                    blocks: archive.blocks,
                },
                1 + streams_part(archive).len() as int,
            ),
        ),
{
    if archive.blocks.len() > 0 {
        lemma_peek(bytes, 1, K_MAIN_STREAMS_INFO, streams_info_bytes(archive));
        lemma_streams_info_read_back(bytes, 2, archive);
    } else {
        reveal(streams_wf);
        assert(archive.blocks =~= Seq::<BlockView>::empty());
        assert(archive.pack_sizes =~= Seq::<u64>::empty());
        assert(archive.pack_crcs =~= Seq::<Option<u32>>::empty());
    }
}

/// Where the entries of an archive stand in its end header, they are read.
pub proof fn lemma_files_part_read_back(bytes: Seq<u8>, at: int, archive: ArchiveView)
    requires
        files_wf(archive.files),
        bytes.len() <= u64::MAX,
        has(bytes, at, files_part(archive)),
        peek_is(bytes, at + files_part(archive).len(), K_END),
    ensures
        (if peek_is(bytes, at, K_FILES_INFO) {
            p_files_info(bytes, at + 1)
        } else {
            Ok((Seq::<EntryView>::empty(), at))
        }) == Ok::<(Seq<EntryView>, int), Error>((archive.files, at + files_part(archive).len())),
        peek_is(bytes, at, K_FILES_INFO) || peek_is(bytes, at, K_END),
{
    if archive.files.len() > 0 {
        lemma_peek(bytes, at, K_FILES_INFO, files_info_bytes(archive.files));
        lemma_files_info_read_back(bytes, at + 1, archive.files);
    } else {
        assert(archive.files =~= Seq::<EntryView>::empty());
    }
}

/// What a header states, once its parts are known.
pub proof fn lemma_parsed_header_of_parts(
    bytes: Seq<u8>,
    streams: StreamsView,
    files: Seq<EntryView>,
    a2: int,
    a3: int,
)
    requires
        p_expect(bytes, 0, K_HEADER) == Ok::<int, Error>(1),
        !peek_is(bytes, 1, crate::header_spec::K_ARCHIVE_PROPERTIES),
        !peek_is(bytes, 1, crate::header_spec::K_ADDITIONAL_STREAMS_INFO),
        (if peek_is(bytes, 1, K_MAIN_STREAMS_INFO) {
            p_streams_info(bytes, 2)
        } else {
            Ok((no_streams(), 1))
        }) == Ok::<(StreamsView, int), Error>((streams, a2)),
        (if peek_is(bytes, a2, K_FILES_INFO) {
            p_files_info(bytes, a2 + 1)
        } else {
            Ok((Seq::<EntryView>::empty(), a2))
        }) == Ok::<(Seq<EntryView>, int), Error>((files, a3)),
        p_expect(bytes, a3, K_END) == Ok::<int, Error>(a3 + 1),
        a3 + 1 == bytes.len(),
        files_with_stream(files) == files_in_blocks(streams.blocks),
    ensures
        parsed_header(bytes) == Ok::<ArchiveView, Error>(
            ArchiveView {
                pack_pos: streams.pack_pos,
                pack_sizes: streams.pack_sizes,
                pack_crcs: streams.pack_crcs,
                blocks: streams.blocks,
                files,
            },
        ),
{
}

/// The parts of the end header of an archive stand in it one after the other.
pub proof fn lemma_header_parts(archive: ArchiveView)
    ensures
        has(header_bytes(archive), 0, seq![K_HEADER]),
        has(header_bytes(archive), 1, streams_part(archive)),
        has(header_bytes(archive), 1 + streams_part(archive).len() as int, files_part(archive)),
        has(
            header_bytes(archive),
            1 + streams_part(archive).len() as int + files_part(archive).len() as int,
            seq![K_END],
        ),
        header_bytes(archive).len() == 2 + streams_part(archive).len() + files_part(archive).len(),
{
    let bytes = header_bytes(archive);
    let s = streams_part(archive);
    let f = files_part(archive);
    lemma_header_shape(archive);
    assert(has(bytes, 0, bytes)) by {
        reveal(has);
        assert(bytes.subrange(0, bytes.len() as int) =~= bytes);
    }
    lemma_has_split(bytes, 0, seq![K_HEADER], s + (f + seq![K_END]));
    lemma_has_split(bytes, 1, s, f + seq![K_END]);
    lemma_has_split(bytes, 1 + s.len() as int, f, seq![K_END]);
}

/// The metadata of every archive that can be written is read back from its end
/// header as it was: the pack streams, the blocks with their coders, sizes and CRCs,
/// and the entries with their names, times and attributes.
#[verifier::rlimit(40)]
pub proof fn lemma_header_round_trip(archive: ArchiveView)
    requires
        writable(archive),
    ensures
        parsed_header(header_bytes(archive)) == Ok::<ArchiveView, Error>(archive),
{
    let bytes = header_bytes(archive);
    let a2: int = 1 + streams_part(archive).len() as int;
    let a3: int = a2 + files_part(archive).len();
    lemma_header_parts(archive);
    lemma_byte_read_back(bytes, 0, K_HEADER);
    lemma_byte_read_back(bytes, a3, K_END);
    assert(peek_is(bytes, a3, K_END));
    assert(streams_wf(archive) && files_wf(archive.files) && files_with_stream(archive.files)
        == files_in_blocks(archive.blocks) && (archive.blocks.len() == 0 ==> archive.pack_pos == 0
        && archive.pack_sizes.len() == 0)) by {
        reveal(archive_wf);
    }
    lemma_files_part_read_back(bytes, a2, archive);
    lemma_streams_part_read_back(bytes, archive);
    lemma_parsed_header_of_parts(
        bytes,
        StreamsView {
            pack_pos: archive.pack_pos,
            pack_sizes: archive.pack_sizes,
            pack_crcs: archive.pack_crcs,
            blocks: archive.blocks,
        },
        archive.files,
        a2,
        a3,
    );
}

} // verus!
