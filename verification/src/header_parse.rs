//! What the bytes of an end header mean: a parser written as mathematics, against
//! which the reader is proved.

use vstd::prelude::*;

use crate::archive::{ArchiveView, BindPair, BlockView, CoderView, EntryView};
use crate::bits::unpacked;
use crate::error::Error;
use crate::header_spec::{
    external, malformed, K_ADDITIONAL_STREAMS_INFO, K_ANTI, K_ARCHIVE_PROPERTIES, K_A_TIME,
    K_CODERS_UNPACK_SIZE, K_CRC, K_C_TIME, K_EMPTY_FILE, K_EMPTY_STREAM, K_END, K_FILES_INFO,
    K_FOLDER, K_HEADER, K_MAIN_STREAMS_INFO, K_M_TIME, K_NAME, K_NUM_UNPACK_STREAM, K_PACK_INFO,
    K_SIZE, K_SUB_STREAMS_INFO, K_UNPACK_INFO, K_WIN_ATTRIBUTES, MAX_CODERS,
};
use crate::le::le_value;
use crate::uint64::decoded;

verus! {

/// The byte at `at`.
pub open spec fn p_byte(bytes: Seq<u8>, at: int) -> Result<(u8, int), Error> {
    if 0 <= at < bytes.len() {
        Ok((bytes[at], at + 1))
    } else {
        Err(malformed())
    }
}

/// The variable-length number at `at`.
pub open spec fn p_num(bytes: Seq<u8>, at: int) -> Result<(u64, int), Error> {
    if 0 <= at <= bytes.len() {
        match decoded(bytes.skip(at)) {
            Some((value, taken)) => Ok((value, at + taken)),
            None => Err(malformed()),
        }
    } else {
        Err(malformed())
    }
}

/// The number at `at` that says how many items follow. No header holds more items
/// than it has bytes, so a larger number is refused.
pub open spec fn p_count(bytes: Seq<u8>, at: int) -> Result<(nat, int), Error> {
    match p_num(bytes, at) {
        Ok((value, next)) => if value <= bytes.len() {
            Ok((value as nat, next))
        } else {
            Err(malformed())
        },
        Err(e) => Err(e),
    }
}

/// The `count` variable-length numbers from `at` on.
pub open spec fn p_nums(bytes: Seq<u8>, at: int, count: nat) -> Result<(Seq<u64>, int), Error>
    decreases count,
{
    if count == 0 {
        if 0 <= at <= bytes.len() {
            Ok((Seq::empty(), at))
        } else {
            Err(malformed())
        }
    } else {
        match p_nums(bytes, at, (count - 1) as nat) {
            Ok((values, next)) => match p_num(bytes, next) {
                Ok((value, end)) => Ok((values.push(value), end)),
                Err(e) => Err(e),
            },
            Err(e) => Err(e),
        }
    }
}

/// The number in the `width` bytes at `at`, low byte first.
pub open spec fn p_le(bytes: Seq<u8>, at: int, width: nat) -> Result<(u64, int), Error> {
    if 0 <= at && at + width <= bytes.len() {
        Ok((le_value(bytes.subrange(at, at + width)) as u64, at + width))
    } else {
        Err(malformed())
    }
}

/// The vector of `count` bits at `at` of which "all set" is said in one byte.
pub open spec fn p_defined(bytes: Seq<u8>, at: int, count: nat) -> Result<(Seq<bool>, int), Error> {
    match p_byte(bytes, at) {
        Ok((all, next)) => if all != 0 {
            Ok((Seq::new(count, |i: int| true), next))
        } else if next + (count + 7) / 8 <= bytes.len() {
            Ok((unpacked(bytes.skip(next), count), next + (count + 7) / 8))
        } else {
            Err(malformed())
        },
        Err(e) => Err(e),
    }
}

/// For the first `count` bits of `defined`, the value of `width` bytes that stands
/// at `at` and behind for each bit that is set.
pub open spec fn p_values(
    bytes: Seq<u8>,
    at: int,
    defined: Seq<bool>,
    width: nat,
    count: nat,
) -> Result<(Seq<Option<u64>>, int), Error>
    decreases count,
{
    if count == 0 {
        if 0 <= at <= bytes.len() {
            Ok((Seq::empty(), at))
        } else {
            Err(malformed())
        }
    } else {
        match p_values(bytes, at, defined, width, (count - 1) as nat) {
            Ok((values, next)) => if defined[count - 1] {
                match p_le(bytes, next, width) {
                    Ok((value, end)) => Ok((values.push(Some(value)), end)),
                    Err(e) => Err(e),
                }
            } else {
                Ok((values.push(None), next))
            },
            Err(e) => Err(e),
        }
    }
}

/// Values of four bytes as CRCs.
pub open spec fn values_as_crcs(values: Seq<Option<u64>>) -> Seq<Option<u32>> {
    Seq::new(
        values.len(),
        |i: int|
            match values[i] {
                Some(v) => Some(v as u32),
                None => None,
            },
    )
}

/// The list of `count` CRCs at `at`, of which some may be missing.
pub open spec fn p_digests(bytes: Seq<u8>, at: int, count: nat) -> Result<
    (Seq<Option<u32>>, int),
    Error,
> {
    match p_defined(bytes, at, count) {
        Ok((defined, next)) => match p_values(bytes, next, defined, 4, count) {
            Ok((values, end)) => Ok((values_as_crcs(values), end)),
            Err(e) => Err(e),
        },
        Err(e) => Err(e),
    }
}

/// A list parser that has failed for some count fails alike for every larger count.
pub proof fn lemma_p_nums_fails_on(bytes: Seq<u8>, at: int, failed: nat, count: nat)
    requires
        p_nums(bytes, at, failed) is Err,
        failed <= count,
    ensures
        p_nums(bytes, at, count) == p_nums(bytes, at, failed),
    decreases count,
{
    if failed < count {
        lemma_p_nums_fails_on(bytes, at, failed, (count - 1) as nat);
    }
}

/// A list parser that has failed for some count fails alike for every larger count.
pub proof fn lemma_p_values_fails_on(
    bytes: Seq<u8>,
    at: int,
    defined: Seq<bool>,
    width: nat,
    failed: nat,
    count: nat,
)
    requires
        p_values(bytes, at, defined, width, failed) is Err,
        failed <= count,
    ensures
        p_values(bytes, at, defined, width, count) == p_values(bytes, at, defined, width, failed),
    decreases count,
{
    if failed < count {
        lemma_p_values_fails_on(bytes, at, defined, width, failed, (count - 1) as nat);
    }
}

/// What a list parser returns lies inside the bytes and not before where it began.
pub proof fn lemma_p_nums_range(bytes: Seq<u8>, at: int, count: nat)
    ensures
        p_nums(bytes, at, count) matches Ok((values, end)) ==> values.len() == count && 0 <= at
            <= end <= bytes.len(),
    decreases count,
{
    if count > 0 {
        lemma_p_nums_range(bytes, at, (count - 1) as nat);
    }
}

/// What a list parser returns lies inside the bytes and not before where it began.
pub proof fn lemma_p_values_range(
    bytes: Seq<u8>,
    at: int,
    defined: Seq<bool>,
    width: nat,
    count: nat,
)
    ensures
        p_values(bytes, at, defined, width, count) matches Ok((values, end)) ==> values.len()
            == count && 0 <= at <= end <= bytes.len(),
    decreases count,
{
    if count > 0 {
        lemma_p_values_range(bytes, at, defined, width, (count - 1) as nat);
    }
}

/// The `count` bytes from `at` on.
pub open spec fn p_bytes(bytes: Seq<u8>, at: int, count: nat) -> Result<(Seq<u8>, int), Error> {
    if 0 <= at && at + count <= bytes.len() {
        Ok((bytes.subrange(at, at + count), at + count))
    } else {
        Err(malformed())
    }
}

/// The byte at `at`, which has to be `id`.
pub open spec fn p_expect(bytes: Seq<u8>, at: int, id: u8) -> Result<int, Error> {
    match p_byte(bytes, at) {
        Ok((byte, next)) => if byte == id {
            Ok(next)
        } else {
            Err(malformed())
        },
        Err(e) => Err(e),
    }
}

/// `count` missing values.
pub open spec fn none_of<T>(count: nat) -> Seq<Option<T>> {
    Seq::new(count, |i: int| None)
}

/// The CRCs that may stand at `at` under their id, `count` of them, up to the end of
/// the structure: where the end stands at once, every CRC is missing.
pub open spec fn p_crcs_to_end(bytes: Seq<u8>, at: int, count: nat) -> Result<
    (Seq<Option<u32>>, int),
    Error,
> {
    match p_byte(bytes, at) {
        Ok((id, next)) => if id == K_END {
            Ok((none_of(count), next))
        } else if id == K_CRC {
            match p_digests(bytes, next, count) {
                Ok((crcs, behind)) => match p_expect(bytes, behind, K_END) {
                    Ok(end) => Ok((crcs, end)),
                    Err(e) => Err(e),
                },
                Err(e) => Err(e),
            }
        } else {
            Err(malformed())
        },
        Err(e) => Err(e),
    }
}

/// Where the pack streams lie: the position, the sizes and the CRCs.
pub open spec fn p_pack_info(bytes: Seq<u8>, at: int) -> Result<
    ((u64, Seq<u64>, Seq<Option<u32>>), int),
    Error,
> {
    match p_num(bytes, at) {
        Ok((pack_pos, a1)) => match p_count(bytes, a1) {
            Ok((count, a2)) => match p_expect(bytes, a2, K_SIZE) {
                Ok(a3) => match p_nums(bytes, a3, count) {
                    Ok((sizes, a4)) => match p_crcs_to_end(bytes, a4, count) {
                        Ok((crcs, end)) => Ok(((pack_pos, sizes, crcs), end)),
                        Err(e) => Err(e),
                    },
                    Err(e) => Err(e),
                },
                Err(e) => Err(e),
            },
            Err(e) => Err(e),
        },
        Err(e) => Err(e),
    }
}

/// The failure of a coder with alternative methods.
pub open spec fn alternative_methods() -> Error {
    Error::UnsupportedFeature("Alternative methods of a coder")
}

/// The numbers of input and output streams of a coder that is not simple; a coder
/// has no more of either than a block has coders.
pub open spec fn p_stream_counts(bytes: Seq<u8>, at: int) -> Result<((u64, u64), int), Error> {
    match p_num(bytes, at) {
        Ok((num_in, a1)) => match p_num(bytes, a1) {
            Ok((num_out, a2)) => if num_in <= MAX_CODERS && num_out <= MAX_CODERS {
                Ok(((num_in, num_out), a2))
            } else {
                Err(malformed())
            },
            Err(e) => Err(e),
        },
        Err(e) => Err(e),
    }
}

/// The properties of a coder: their length and their bytes.
pub open spec fn p_properties(bytes: Seq<u8>, at: int) -> Result<(Seq<u8>, int), Error> {
    match p_count(bytes, at) {
        Ok((size, a1)) => p_bytes(bytes, a1, size),
        Err(e) => Err(e),
    }
}

/// One coder.
pub open spec fn p_coder(bytes: Seq<u8>, at: int) -> Result<(CoderView, int), Error> {
    match p_byte(bytes, at) {
        Ok((flags, a1)) => if flags >= 0x40 {
            Err(alternative_methods())
        } else {
            match p_bytes(bytes, a1, (flags % 16) as nat) {
                Ok((method_id, a2)) => match (if (flags / 16) % 2 == 1 {
                    p_stream_counts(bytes, a2)
                } else {
                    Ok(((1u64, 1u64), a2))
                }) {
                    Ok(((num_in_streams, num_out_streams), a3)) => match (if (flags / 32) % 2 == 1 {
                        p_properties(bytes, a3)
                    } else {
                        Ok((Seq::<u8>::empty(), a3))
                    }) {
                        Ok((properties, end)) => Ok(
                            (
                                CoderView {
                                    method_id,
                                    num_in_streams,
                                    num_out_streams,
                                    properties,
                                },
                                end,
                            ),
                        ),
                        Err(e) => Err(e),
                    },
                    Err(e) => Err(e),
                },
                Err(e) => Err(e),
            }
        },
        Err(e) => Err(e),
    }
}

/// The `count` coders from `at` on.
pub open spec fn p_coders(bytes: Seq<u8>, at: int, count: nat) -> Result<
    (Seq<CoderView>, int),
    Error,
>
    decreases count,
{
    if count == 0 {
        if 0 <= at <= bytes.len() {
            Ok((Seq::empty(), at))
        } else {
            Err(malformed())
        }
    } else {
        match p_coders(bytes, at, (count - 1) as nat) {
            Ok((coders, next)) => match p_coder(bytes, next) {
                Ok((coder, end)) => Ok((coders.push(coder), end)),
                Err(e) => Err(e),
            },
            Err(e) => Err(e),
        }
    }
}

/// The `count` bind pairs from `at` on.
pub open spec fn p_bind_pairs(bytes: Seq<u8>, at: int, count: nat) -> Result<
    (Seq<BindPair>, int),
    Error,
>
    decreases count,
{
    if count == 0 {
        if 0 <= at <= bytes.len() {
            Ok((Seq::empty(), at))
        } else {
            Err(malformed())
        }
    } else {
        match p_bind_pairs(bytes, at, (count - 1) as nat) {
            Ok((pairs, next)) => match p_num(bytes, next) {
                Ok((in_index, a1)) => match p_num(bytes, a1) {
                    Ok((out_index, end)) => Ok((pairs.push(BindPair { in_index, out_index }), end)),
                    Err(e) => Err(e),
                },
                Err(e) => Err(e),
            },
            Err(e) => Err(e),
        }
    }
}

/// The number of input streams of `coders` together.
pub open spec fn total_in(coders: Seq<CoderView>) -> nat
    decreases coders.len(),
{
    if coders.len() == 0 {
        0
    } else {
        total_in(coders.drop_last()) + coders.last().num_in_streams as nat
    }
}

/// The number of output streams of `coders` together.
pub open spec fn total_out(coders: Seq<CoderView>) -> nat
    decreases coders.len(),
{
    if coders.len() == 0 {
        0
    } else {
        total_out(coders.drop_last()) + coders.last().num_out_streams as nat
    }
}

/// Whether a bind pair feeds the input stream `index`.
pub open spec fn feeds_in(pairs: Seq<BindPair>, index: int) -> bool {
    exists|k: int| 0 <= k < pairs.len() && pairs[k].in_index == index
}

/// Whether a bind pair takes the output stream `index`.
pub open spec fn takes_out(pairs: Seq<BindPair>, index: int) -> bool {
    exists|k: int| 0 <= k < pairs.len() && pairs[k].out_index == index
}

/// The first input stream from `from` on, below `total`, that no bind pair feeds.
pub open spec fn free_in_from(pairs: Seq<BindPair>, from: nat, total: nat) -> Option<u64>
    decreases total - from,
{
    if from >= total {
        None
    } else if !feeds_in(pairs, from as int) {
        Some(from as u64)
    } else {
        free_in_from(pairs, from + 1, total)
    }
}

/// The first output stream from `from` on, below `total`, that no bind pair takes.
pub open spec fn free_out_from(pairs: Seq<BindPair>, from: nat, total: nat) -> Option<u64>
    decreases total - from,
{
    if from >= total {
        None
    } else if !takes_out(pairs, from as int) {
        Some(from as u64)
    } else {
        free_out_from(pairs, from + 1, total)
    }
}

/// The pipeline of one block: its coders, its bind pairs, and the inputs that pack
/// streams feed. A block has at least one coder and one output that no bind pair
/// takes, and a bind pair for every other output.
pub open spec fn p_folder(bytes: Seq<u8>, at: int) -> Result<(BlockView, int), Error> {
    match p_num(bytes, at) {
        Ok((num_coders, a1)) => if num_coders == 0 || num_coders > MAX_CODERS {
            Err(malformed())
        } else {
            match p_coders(bytes, a1, num_coders as nat) {
                Ok((coders, a2)) => if total_out(coders) == 0 {
                    Err(malformed())
                } else {
                    match p_bind_pairs(bytes, a2, (total_out(coders) - 1) as nat) {
                        Ok((bind_pairs, a3)) => if total_in(coders) < bind_pairs.len() {
                            Err(malformed())
                        } else {
                            match (if total_in(coders) - bind_pairs.len() == 1 {
                                match free_in_from(bind_pairs, 0, total_in(coders)) {
                                    Some(index) => Ok((seq![index], a3)),
                                    None => Err(malformed()),
                                }
                            } else {
                                p_nums(bytes, a3, (total_in(coders) - bind_pairs.len()) as nat)
                            }) {
                                Ok((packed_streams, end)) => Ok(
                                    (
                                        BlockView {
                                            coders,
                                            bind_pairs,
                                            packed_streams,
                                            unpack_sizes: Seq::empty(),
                                            crc: None,
                                            substream_sizes: Seq::empty(),
                                            substream_crcs: Seq::empty(),
                                        },
                                        end,
                                    ),
                                ),
                                Err(e) => Err(e),
                            }
                        },
                        Err(e) => Err(e),
                    }
                },
                Err(e) => Err(e),
            }
        },
        Err(e) => Err(e),
    }
}

/// The pipelines of the `count` blocks from `at` on.
pub open spec fn p_folders(bytes: Seq<u8>, at: int, count: nat) -> Result<
    (Seq<BlockView>, int),
    Error,
>
    decreases count,
{
    if count == 0 {
        if 0 <= at <= bytes.len() {
            Ok((Seq::empty(), at))
        } else {
            Err(malformed())
        }
    } else {
        match p_folders(bytes, at, (count - 1) as nat) {
            Ok((blocks, next)) => match p_folder(bytes, next) {
                Ok((block, end)) => Ok((blocks.push(block), end)),
                Err(e) => Err(e),
            },
            Err(e) => Err(e),
        }
    }
}

/// The first `count` of `blocks`, each with the sizes of its output streams as they
/// stand from `at` on.
pub open spec fn p_unpack_sizes(bytes: Seq<u8>, at: int, blocks: Seq<BlockView>, count: nat) -> Result<
    (Seq<BlockView>, int),
    Error,
>
    decreases count,
{
    if count == 0 {
        if 0 <= at <= bytes.len() {
            Ok((Seq::empty(), at))
        } else {
            Err(malformed())
        }
    } else {
        match p_unpack_sizes(bytes, at, blocks, (count - 1) as nat) {
            Ok((sized, next)) => match p_nums(bytes, next, total_out(blocks[count - 1].coders)) {
                Ok((unpack_sizes, end)) => Ok(
                    (sized.push(BlockView { unpack_sizes, ..blocks[count - 1] }), end),
                ),
                Err(e) => Err(e),
            },
            Err(e) => Err(e),
        }
    }
}

/// `blocks`, each with the CRC that `crcs` has for it.
pub open spec fn with_crcs(blocks: Seq<BlockView>, crcs: Seq<Option<u32>>) -> Seq<BlockView> {
    Seq::new(blocks.len(), |i: int| BlockView { crc: crcs[i], ..blocks[i] })
}

/// The blocks: their pipelines, the sizes of their streams and their CRCs.
pub open spec fn p_unpack_info(bytes: Seq<u8>, at: int) -> Result<(Seq<BlockView>, int), Error> {
    match p_expect(bytes, at, K_FOLDER) {
        Ok(a1) => match p_count(bytes, a1) {
            Ok((count, a2)) => match p_byte(bytes, a2) {
                Ok((is_external, a3)) => if is_external != 0 {
                    Err(external())
                } else {
                    match p_folders(bytes, a3, count) {
                        Ok((folders, a4)) => match p_expect(bytes, a4, K_CODERS_UNPACK_SIZE) {
                            Ok(a5) => match p_unpack_sizes(bytes, a5, folders, count) {
                                Ok((sized, a6)) => match p_crcs_to_end(bytes, a6, count) {
                                    Ok((crcs, end)) => Ok((with_crcs(sized, crcs), end)),
                                    Err(e) => Err(e),
                                },
                                Err(e) => Err(e),
                            },
                            Err(e) => Err(e),
                        },
                        Err(e) => Err(e),
                    }
                },
                Err(e) => Err(e),
            },
            Err(e) => Err(e),
        },
        Err(e) => Err(e),
    }
}

/// A list parser that has failed for some count fails alike for every larger count.
pub proof fn lemma_p_coders_fails_on(bytes: Seq<u8>, at: int, failed: nat, count: nat)
    requires
        p_coders(bytes, at, failed) is Err,
        failed <= count,
    ensures
        p_coders(bytes, at, count) == p_coders(bytes, at, failed),
    decreases count,
{
    if failed < count {
        lemma_p_coders_fails_on(bytes, at, failed, (count - 1) as nat);
    }
}

/// A list parser that has failed for some count fails alike for every larger count.
pub proof fn lemma_p_bind_pairs_fails_on(bytes: Seq<u8>, at: int, failed: nat, count: nat)
    requires
        p_bind_pairs(bytes, at, failed) is Err,
        failed <= count,
    ensures
        p_bind_pairs(bytes, at, count) == p_bind_pairs(bytes, at, failed),
    decreases count,
{
    if failed < count {
        lemma_p_bind_pairs_fails_on(bytes, at, failed, (count - 1) as nat);
    }
}

/// A list parser that has failed for some count fails alike for every larger count.
pub proof fn lemma_p_folders_fails_on(bytes: Seq<u8>, at: int, failed: nat, count: nat)
    requires
        p_folders(bytes, at, failed) is Err,
        failed <= count,
    ensures
        p_folders(bytes, at, count) == p_folders(bytes, at, failed),
    decreases count,
{
    if failed < count {
        lemma_p_folders_fails_on(bytes, at, failed, (count - 1) as nat);
    }
}

/// A list parser that has failed for some count fails alike for every larger count.
pub proof fn lemma_p_unpack_sizes_fails_on(
    bytes: Seq<u8>,
    at: int,
    blocks: Seq<BlockView>,
    failed: nat,
    count: nat,
)
    requires
        p_unpack_sizes(bytes, at, blocks, failed) is Err,
        failed <= count,
    ensures
        p_unpack_sizes(bytes, at, blocks, count) == p_unpack_sizes(bytes, at, blocks, failed),
    decreases count,
{
    if failed < count {
        lemma_p_unpack_sizes_fails_on(bytes, at, blocks, failed, (count - 1) as nat);
    }
}

/// Coders that have no more streams each than a block has coders have no more
/// together than the square of that.
pub proof fn lemma_totals_bound(coders: Seq<CoderView>)
    requires
        forall|i: int|
            0 <= i < coders.len() ==> (#[trigger] coders[i]).num_in_streams <= MAX_CODERS
                && coders[i].num_out_streams <= MAX_CODERS,
    ensures
        total_in(coders) <= MAX_CODERS * coders.len(),
        total_out(coders) <= MAX_CODERS * coders.len(),
    decreases coders.len(),
{
    if coders.len() > 0 {
        assert forall|i: int| 0 <= i < coders.drop_last().len() implies (
        #[trigger] coders.drop_last()[i]).num_in_streams <= MAX_CODERS && coders.drop_last()[i].num_out_streams
            <= MAX_CODERS by {
            assert(coders.drop_last()[i] == coders[i]);
        }
        lemma_totals_bound(coders.drop_last());
        assert(coders.last() == coders[coders.len() - 1]);
    }
}

/// The numbers `values` added up.
pub open spec fn sum(values: Seq<u64>) -> nat
    decreases values.len(),
{
    if values.len() == 0 {
        0
    } else {
        sum(values.drop_last()) + values.last() as nat
    }
}

/// The number of file sizes that the header states for blocks of `counts` files:
/// for each block that has files, all but the last.
pub open spec fn stated_count(counts: Seq<u64>) -> nat
    decreases counts.len(),
{
    if counts.len() == 0 {
        0
    } else {
        stated_count(counts.drop_last()) + (if counts.last() == 0 {
            0nat
        } else {
            (counts.last() - 1) as nat
        })
    }
}

/// The number of CRCs that the header states for the files of the first `upto` of
/// `blocks`: none for a block of one file whose own CRC is declared, else one for
/// each file.
pub open spec fn unknown_crcs(blocks: Seq<BlockView>, counts: Seq<u64>, upto: nat) -> nat
    decreases upto,
{
    if upto == 0 {
        0
    } else {
        unknown_crcs(blocks, counts, (upto - 1) as nat) + (if counts[upto - 1] == 1 && blocks[upto
            - 1].crc is Some {
            0nat
        } else {
            counts[upto - 1] as nat
        })
    }
}

/// The size of the output of a block: that of its first output stream that no bind
/// pair takes.
pub open spec fn output_size(block: BlockView) -> Option<u64> {
    match free_out_from(block.bind_pairs, 0, block.unpack_sizes.len()) {
        Some(index) => Some(block.unpack_sizes[index as int]),
        None => None,
    }
}

/// A block with the division of its output among `count` files: the sizes of all
/// files but the last are `stated`, and the last file has what is left of the
/// output; their CRCs are `crcs`, or the CRC of the block where that is declared and
/// the block has one file.
pub open spec fn divided_block(
    block: BlockView,
    count: u64,
    stated: Seq<u64>,
    crcs: Seq<Option<u32>>,
) -> Result<BlockView, Error> {
    if count == 0 {
        Ok(BlockView { substream_sizes: Seq::empty(), substream_crcs: Seq::empty(), ..block })
    } else {
        match output_size(block) {
            Some(output) => if sum(stated) > output {
                Err(malformed())
            } else {
                Ok(
                    BlockView {
                        substream_sizes: stated.push((output - sum(stated)) as u64),
                        substream_crcs: if count == 1 && block.crc is Some {
                            seq![block.crc]
                        } else {
                            crcs
                        },
                        ..block
                    },
                )
            },
            None => Err(malformed()),
        }
    }
}

/// The first `upto` of `blocks`, each with the division of its output among its
/// files, as `counts`, `sizes` and `crcs` state it for all blocks.
pub open spec fn divided(
    blocks: Seq<BlockView>,
    counts: Seq<u64>,
    sizes: Seq<u64>,
    crcs: Seq<Option<u32>>,
    upto: nat,
) -> Result<Seq<BlockView>, Error>
    decreases upto,
{
    if upto == 0 {
        Ok(Seq::empty())
    } else {
        match divided(blocks, counts, sizes, crcs, (upto - 1) as nat) {
            Ok(done) => {
                let b = upto - 1;
                let size_from = stated_count(counts.take(b));
                let crc_from = unknown_crcs(blocks, counts, b as nat);
                match divided_block(
                    blocks[b],
                    counts[b],
                    sizes.subrange(
                        size_from as int,
                        size_from + (if counts[b] == 0 {
                            0
                        } else {
                            counts[b] - 1
                        }),
                    ),
                    crcs.subrange(crc_from as int, crc_from + counts[b]),
                ) {
                    Ok(block) => Ok(done.push(block)),
                    Err(e) => Err(e),
                }
            },
            Err(e) => Err(e),
        }
    }
}

/// `count` times the number 1.
pub open spec fn ones(count: nat) -> Seq<u64> {
    Seq::new(count, |i: int| 1u64)
}

/// Whether the byte at `at` is `id`.
pub open spec fn peek_is(bytes: Seq<u8>, at: int, id: u8) -> bool {
    0 <= at < bytes.len() && bytes[at] == id
}

/// How the output of each of `blocks` is divided among its files, from `at` on: the
/// numbers of files where they are stated, else one file for each block; the sizes
/// where they are stated, which they have to be where a block has several files; and
/// the CRCs where they are stated.
pub open spec fn p_sub_streams(bytes: Seq<u8>, at: int, blocks: Seq<BlockView>) -> Result<
    (Seq<BlockView>, int),
    Error,
> {
    match (if peek_is(bytes, at, K_NUM_UNPACK_STREAM) {
        p_nums(bytes, at + 1, blocks.len())
    } else {
        Ok((ones(blocks.len()), at))
    }) {
        Ok((counts, a1)) => if sum(counts) > bytes.len() {
            Err(malformed())
        } else {
            match (if peek_is(bytes, a1, K_SIZE) {
                p_nums(bytes, a1 + 1, stated_count(counts))
            } else if stated_count(counts) > 0 {
                Err(malformed())
            } else {
                Ok((Seq::<u64>::empty(), a1))
            }) {
                Ok((sizes, a2)) => match p_crcs_to_end(
                    bytes,
                    a2,
                    unknown_crcs(blocks, counts, blocks.len()),
                ) {
                    Ok((crcs, end)) => match divided(blocks, counts, sizes, crcs, blocks.len()) {
                        Ok(done) => Ok((done, end)),
                        Err(e) => Err(e),
                    },
                    Err(e) => Err(e),
                },
                Err(e) => Err(e),
            }
        },
        Err(e) => Err(e),
    }
}

/// The streams of an archive: where its pack streams lie, and its blocks.
pub struct StreamsView {
    pub pack_pos: u64,
    pub pack_sizes: Seq<u64>,
    pub pack_crcs: Seq<Option<u32>>,
    pub blocks: Seq<BlockView>,
}

/// The pack streams, the blocks and the division of their output, from `at` on; each
/// of the three may be missing. Blocks whose division is not stated hold one file
/// each.
pub open spec fn p_streams_info(bytes: Seq<u8>, at: int) -> Result<(StreamsView, int), Error> {
    match (if peek_is(bytes, at, K_PACK_INFO) {
        p_pack_info(bytes, at + 1)
    } else {
        Ok(((0u64, Seq::<u64>::empty(), Seq::<Option<u32>>::empty()), at))
    }) {
        Ok(((pack_pos, pack_sizes, pack_crcs), a1)) => match (if peek_is(bytes, a1, K_UNPACK_INFO) {
            p_unpack_info(bytes, a1 + 1)
        } else {
            Ok((Seq::<BlockView>::empty(), a1))
        }) {
            Ok((blocks, a2)) => match (if peek_is(bytes, a2, K_SUB_STREAMS_INFO) {
                p_sub_streams(bytes, a2 + 1, blocks)
            } else {
                match divided(
                    blocks,
                    ones(blocks.len()),
                    Seq::empty(),
                    none_of(unknown_crcs(blocks, ones(blocks.len()), blocks.len())),
                    blocks.len(),
                ) {
                    Ok(done) => Ok((done, a2)),
                    Err(e) => Err(e),
                }
            }) {
                Ok((done, a3)) => match p_expect(bytes, a3, K_END) {
                    Ok(end) => Ok(
                        (StreamsView { pack_pos, pack_sizes, pack_crcs, blocks: done }, end),
                    ),
                    Err(e) => Err(e),
                },
                Err(e) => Err(e),
            },
            Err(e) => Err(e),
        },
        Err(e) => Err(e),
    }
}

/// A division that has failed for some blocks fails alike for more blocks.
pub proof fn lemma_divided_fails_on(
    blocks: Seq<BlockView>,
    counts: Seq<u64>,
    sizes: Seq<u64>,
    crcs: Seq<Option<u32>>,
    failed: nat,
    upto: nat,
)
    requires
        divided(blocks, counts, sizes, crcs, failed) is Err,
        failed <= upto,
    ensures
        divided(blocks, counts, sizes, crcs, upto) == divided(blocks, counts, sizes, crcs, failed),
    decreases upto,
{
    if failed < upto {
        lemma_divided_fails_on(blocks, counts, sizes, crcs, failed, (upto - 1) as nat);
    }
}

/// The sum of the first of some numbers is no more than the sum of all.
pub proof fn lemma_sum_grows(values: Seq<u64>, upto: int)
    requires
        0 <= upto <= values.len(),
    ensures
        sum(values.take(upto)) <= sum(values),
    decreases values.len(),
{
    if upto == values.len() {
        assert(values.take(upto) =~= values);
    } else {
        lemma_sum_grows(values.drop_last(), upto);
        assert(values.drop_last().take(upto) =~= values.take(upto));
    }
}

/// The sizes stated for the first blocks are no more than those stated for all.
pub proof fn lemma_stated_count_grows(counts: Seq<u64>, upto: int)
    requires
        0 <= upto <= counts.len(),
    ensures
        stated_count(counts.take(upto)) <= stated_count(counts),
        stated_count(counts) <= sum(counts),
    decreases counts.len(),
{
    if upto == counts.len() {
        assert(counts.take(upto) =~= counts);
        if counts.len() > 0 {
            lemma_stated_count_grows(counts.drop_last(), upto - 1);
        }
    } else {
        lemma_stated_count_grows(counts.drop_last(), upto);
        assert(counts.drop_last().take(upto) =~= counts.take(upto));
    }
}

/// The CRCs stated for the first blocks are no more than those stated for all, which
/// are no more than there are files.
pub proof fn lemma_unknown_crcs_grows(blocks: Seq<BlockView>, counts: Seq<u64>, upto: nat, all: nat)
    requires
        upto <= all <= counts.len(),
    ensures
        unknown_crcs(blocks, counts, upto) <= unknown_crcs(blocks, counts, all),
        unknown_crcs(blocks, counts, all) <= sum(counts.take(all as int)),
    decreases all,
{
    if all > 0 {
        assert(counts.take(all as int).drop_last() =~= counts.take(all - 1));
        if upto < all {
            lemma_unknown_crcs_grows(blocks, counts, upto, (all - 1) as nat);
        } else {
            lemma_unknown_crcs_grows(blocks, counts, (upto - 1) as nat, (all - 1) as nat);
        }
    }
}

/// The name at `at`: the code units, each low byte first, up to a unit of zero.
pub open spec fn p_name(data: Seq<u8>, at: int) -> Result<(Seq<u16>, int), Error>
    decreases data.len() - at,
{
    if at < 0 || at + 2 > data.len() {
        Err(malformed())
    } else if data[at] == 0 && data[at + 1] == 0 {
        Ok((Seq::empty(), at + 2))
    } else {
        match p_name(data, at + 2) {
            Ok((rest, end)) => Ok((seq![(data[at] + 256 * data[at + 1]) as u16] + rest, end)),
            Err(e) => Err(e),
        }
    }
}

/// The `count` names from `at` on.
pub open spec fn p_names(data: Seq<u8>, at: int, count: nat) -> Result<(Seq<Seq<u16>>, int), Error>
    decreases count,
{
    if count == 0 {
        if 0 <= at <= data.len() {
            Ok((Seq::empty(), at))
        } else {
            Err(malformed())
        }
    } else {
        match p_names(data, at, (count - 1) as nat) {
            Ok((names, next)) => match p_name(data, next) {
                Ok((name, end)) => Ok((names.push(name), end)),
                Err(e) => Err(e),
            },
            Err(e) => Err(e),
        }
    }
}

/// The names of `count` files as the data of their property holds them: a byte of 0
/// and the names, which fill the data.
pub open spec fn p_names_data(data: Seq<u8>, count: nat) -> Result<Seq<Seq<u16>>, Error> {
    match p_byte(data, 0) {
        Ok((is_external, next)) => if is_external != 0 {
            Err(external())
        } else {
            match p_names(data, next, count) {
                Ok((names, end)) => if end == data.len() {
                    Ok(names)
                } else {
                    Err(malformed())
                },
                Err(e) => Err(e),
            }
        },
        Err(e) => Err(e),
    }
}

/// A column of `count` values of `width` bytes, of which some may be missing, as the
/// data of its property holds it: which are there, a byte of 0, and those.
pub open spec fn p_column_data(data: Seq<u8>, count: nat, width: nat) -> Result<
    Seq<Option<u64>>,
    Error,
> {
    match p_defined(data, 0, count) {
        Ok((defined, a1)) => match p_byte(data, a1) {
            Ok((is_external, a2)) => if is_external != 0 {
                Err(external())
            } else {
                match p_values(data, a2, defined, width, count) {
                    Ok((values, _)) => Ok(values),
                    Err(e) => Err(e),
                }
            },
            Err(e) => Err(e),
        },
        Err(e) => Err(e),
    }
}

/// A vector of `count` bits as the data of its property holds it.
pub open spec fn p_flags_data(data: Seq<u8>, count: nat) -> Result<Seq<bool>, Error> {
    if data.len() < (count + 7) / 8 {
        Err(malformed())
    } else {
        Ok(unpacked(data, count))
    }
}

/// The number of bits of `bits` that are set.
pub open spec fn count_set(bits: Seq<bool>) -> nat
    decreases bits.len(),
{
    if bits.len() == 0 {
        0
    } else {
        count_set(bits.drop_last()) + (if bits.last() {
            1nat
        } else {
            0nat
        })
    }
}

/// What the properties of the files say, column by column.
pub struct FileColumns {
    /// For each file, whether it has no stream.
    pub empty_stream: Seq<bool>,
    /// For each file without a stream, whether it is an empty file.
    pub empty_file: Seq<bool>,
    /// For each file without a stream, whether it is an anti-item.
    pub anti: Seq<bool>,
    pub names: Seq<Seq<u16>>,
    pub creation: Seq<Option<u64>>,
    pub access: Seq<Option<u64>>,
    pub modified: Seq<Option<u64>>,
    pub attributes: Seq<Option<u64>>,
}

/// The columns of `count` files of which no property says anything: every file has
/// a stream and an empty name, and no time or attributes.
pub open spec fn blank_columns(count: nat) -> FileColumns {
    FileColumns {
        empty_stream: Seq::new(count, |i: int| false),
        empty_file: Seq::empty(),
        anti: Seq::empty(),
        names: Seq::new(count, |i: int| Seq::<u16>::empty()),
        creation: none_of(count),
        access: none_of(count),
        modified: none_of(count),
        attributes: none_of(count),
    }
}

/// `bits` where it has `count` bits, else `count` bits that are not set.
pub open spec fn flags_or_clear(bits: Seq<bool>, count: nat) -> Seq<bool> {
    if bits.len() == count {
        bits
    } else {
        Seq::new(count, |i: int| false)
    }
}

/// The columns after the property `id` with the data `data` for `count` files.
/// Properties that are not known say nothing.
pub open spec fn with_property(columns: FileColumns, id: u8, data: Seq<u8>, count: nat) -> Result<
    FileColumns,
    Error,
> {
    if id == K_EMPTY_STREAM {
        match p_flags_data(data, count) {
            Ok(bits) => Ok(FileColumns { empty_stream: bits, ..columns }),
            Err(e) => Err(e),
        }
    } else if id == K_EMPTY_FILE {
        match p_flags_data(data, count_set(columns.empty_stream)) {
            Ok(bits) => Ok(FileColumns { empty_file: bits, ..columns }),
            Err(e) => Err(e),
        }
    } else if id == K_ANTI {
        match p_flags_data(data, count_set(columns.empty_stream)) {
            Ok(bits) => Ok(FileColumns { anti: bits, ..columns }),
            Err(e) => Err(e),
        }
    } else if id == K_NAME {
        match p_names_data(data, count) {
            Ok(names) => Ok(FileColumns { names, ..columns }),
            Err(e) => Err(e),
        }
    } else if id == K_C_TIME {
        match p_column_data(data, count, 8) {
            Ok(values) => Ok(FileColumns { creation: values, ..columns }),
            Err(e) => Err(e),
        }
    } else if id == K_A_TIME {
        match p_column_data(data, count, 8) {
            Ok(values) => Ok(FileColumns { access: values, ..columns }),
            Err(e) => Err(e),
        }
    } else if id == K_M_TIME {
        match p_column_data(data, count, 8) {
            Ok(values) => Ok(FileColumns { modified: values, ..columns }),
            Err(e) => Err(e),
        }
    } else if id == K_WIN_ATTRIBUTES {
        match p_column_data(data, count, 4) {
            Ok(values) => Ok(FileColumns { attributes: values, ..columns }),
            Err(e) => Err(e),
        }
    } else {
        Ok(columns)
    }
}

/// The columns after the properties from `at` on, up to the end of the properties.
pub open spec fn p_properties_of_files(
    bytes: Seq<u8>,
    at: int,
    count: nat,
    columns: FileColumns,
) -> Result<(FileColumns, int), Error>
    decreases bytes.len() - at,
{
    match p_byte(bytes, at) {
        Ok((id, a1)) => if id == K_END {
            Ok((columns, a1))
        } else {
            match p_num(bytes, a1) {
                Ok((size, a2)) => if a2 <= a1 || a2 + size > bytes.len() {
                    Err(malformed())
                } else {
                    match with_property(columns, id, bytes.subrange(a2, a2 + size), count) {
                        Ok(next) => p_properties_of_files(bytes, a2 + size, count, next),
                        Err(e) => Err(e),
                    }
                },
                Err(e) => Err(e),
            }
        },
        Err(e) => Err(e),
    }
}

/// The entry of index `index` that the columns describe. A file without a stream is
/// a directory unless it is said to be an empty file.
pub open spec fn entry_of(columns: FileColumns, index: int) -> EntryView {
    let rank = count_set(columns.empty_stream.take(index)) as int;
    let streamless = columns.empty_stream[index];
    let empty_file = flags_or_clear(columns.empty_file, count_set(columns.empty_stream));
    let anti = flags_or_clear(columns.anti, count_set(columns.empty_stream));
    EntryView {
        name: columns.names[index],
        has_stream: !streamless,
        is_directory: streamless && !empty_file[rank],
        is_anti_item: streamless && anti[rank],
        creation_date: columns.creation[index],
        access_date: columns.access[index],
        last_modified_date: columns.modified[index],
        windows_attributes: match columns.attributes[index] {
            Some(a) => Some(a as u32),
            None => None,
        },
    }
}

/// The entries from `at` on: their number and their properties.
pub open spec fn p_files_info(bytes: Seq<u8>, at: int) -> Result<(Seq<EntryView>, int), Error> {
    match p_count(bytes, at) {
        Ok((count, a1)) => match p_properties_of_files(bytes, a1, count, blank_columns(count)) {
            Ok((columns, end)) => Ok((Seq::new(count, |i: int| entry_of(columns, i)), end)),
            Err(e) => Err(e),
        },
        Err(e) => Err(e),
    }
}

/// The properties of the archive from `at` on, which say nothing that is read: each
/// is skipped, up to the end of the properties.
pub open spec fn p_archive_properties(bytes: Seq<u8>, at: int) -> Result<int, Error>
    decreases bytes.len() - at,
{
    match p_byte(bytes, at) {
        Ok((id, a1)) => if id == K_END {
            Ok(a1)
        } else {
            match p_num(bytes, a1) {
                Ok((size, a2)) => if a2 <= a1 || a2 + size > bytes.len() {
                    Err(malformed())
                } else {
                    p_archive_properties(bytes, a2 + size)
                },
                Err(e) => Err(e),
            }
        },
        Err(e) => Err(e),
    }
}

/// The number of files that `blocks` hold together.
pub open spec fn files_in_blocks(blocks: Seq<BlockView>) -> nat
    decreases blocks.len(),
{
    if blocks.len() == 0 {
        0
    } else {
        files_in_blocks(blocks.drop_last()) + blocks.last().substream_sizes.len()
    }
}

/// The number of `files` that have a stream.
pub open spec fn files_with_stream(files: Seq<EntryView>) -> nat
    decreases files.len(),
{
    if files.len() == 0 {
        0
    } else {
        files_with_stream(files.drop_last()) + (if files.last().has_stream {
            1nat
        } else {
            0nat
        })
    }
}

/// The failure of a header that states additional streams.
pub open spec fn additional_streams() -> Error {
    Error::UnsupportedFeature("Additional streams")
}

/// The streams of an archive that has none.
pub open spec fn no_streams() -> StreamsView {
    StreamsView {
        pack_pos: 0,
        pack_sizes: Seq::empty(),
        pack_crcs: Seq::empty(),
        blocks: Seq::empty(),
    }
}

/// The metadata that the end header `bytes` states.
///
/// A header starts with its id. The properties of the archive, the streams and the
/// entries follow in this order, each only where the archive has any, and the end
/// mark closes the header, which has to fill `bytes`. As many entries have a stream
/// as the blocks hold files.
pub open spec fn parsed_header(bytes: Seq<u8>) -> Result<ArchiveView, Error> {
    match p_expect(bytes, 0, K_HEADER) {
        Ok(a0) => match (if peek_is(bytes, a0, K_ARCHIVE_PROPERTIES) {
            p_archive_properties(bytes, a0 + 1)
        } else {
            Ok(a0)
        }) {
            Ok(a1) => if peek_is(bytes, a1, K_ADDITIONAL_STREAMS_INFO) {
                Err(additional_streams())
            } else {
                match (if peek_is(bytes, a1, K_MAIN_STREAMS_INFO) {
                    p_streams_info(bytes, a1 + 1)
                } else {
                    Ok((no_streams(), a1))
                }) {
                    Ok((streams, a2)) => match (if peek_is(bytes, a2, K_FILES_INFO) {
                        p_files_info(bytes, a2 + 1)
                    } else {
                        Ok((Seq::<EntryView>::empty(), a2))
                    }) {
                        Ok((files, a3)) => match p_expect(bytes, a3, K_END) {
                            Ok(end) => if end != bytes.len() || files_with_stream(files)
                                != files_in_blocks(streams.blocks) {
                                Err(malformed())
                            } else {
                                Ok(
                                    ArchiveView {
                                        pack_pos: streams.pack_pos,
                                        pack_sizes: streams.pack_sizes,
                                        pack_crcs: streams.pack_crcs,
                                        blocks: streams.blocks,
                                        files,
                                    },
                                )
                            },
                            Err(e) => Err(e),
                        },
                        Err(e) => Err(e),
                    },
                    Err(e) => Err(e),
                }
            },
            Err(e) => Err(e),
        },
        Err(e) => Err(e),
    }
}

/// A list parser that has failed for some count fails alike for every larger count.
pub proof fn lemma_p_names_fails_on(data: Seq<u8>, at: int, failed: nat, count: nat)
    requires
        p_names(data, at, failed) is Err,
        failed <= count,
    ensures
        p_names(data, at, count) == p_names(data, at, failed),
    decreases count,
{
    if failed < count {
        lemma_p_names_fails_on(data, at, failed, (count - 1) as nat);
    }
}

/// A name that was read lies inside the data, behind where it began.
pub proof fn lemma_p_name_range(data: Seq<u8>, at: int)
    ensures
        p_name(data, at) matches Ok((_, end)) ==> 0 <= at < end <= data.len(),
    decreases data.len() - at,
{
    if !(at < 0 || at + 2 > data.len()) && !(data[at] == 0 && data[at + 1] == 0) {
        lemma_p_name_range(data, at + 2);
    }
}

/// As many names are read as are asked for.
pub proof fn lemma_p_names_range(data: Seq<u8>, at: int, count: nat)
    ensures
        p_names(data, at, count) matches Ok((names, end)) ==> names.len() == count && 0 <= at
            <= end <= data.len(),
    decreases count,
{
    if count > 0 {
        lemma_p_names_range(data, at, (count - 1) as nat);
        match p_names(data, at, (count - 1) as nat) {
            Ok((_, next)) => {
                lemma_p_name_range(data, next);
            },
            Err(_) => {},
        }
    }
}

/// No more bits are set than there are bits.
pub proof fn lemma_count_set_bound(bits: Seq<bool>, upto: int)
    requires
        0 <= upto <= bits.len(),
    ensures
        count_set(bits.take(upto)) <= upto,
        count_set(bits.take(upto)) <= count_set(bits),
    decreases bits.len(),
{
    if upto == bits.len() {
        assert(bits.take(upto) =~= bits);
        if bits.len() > 0 {
            lemma_count_set_bound(bits.drop_last(), upto - 1);
            assert(bits.drop_last().take(upto - 1) =~= bits.drop_last());
        }
    } else {
        lemma_count_set_bound(bits.drop_last(), upto);
        assert(bits.drop_last().take(upto) =~= bits.take(upto));
    }
}

} // verus!
