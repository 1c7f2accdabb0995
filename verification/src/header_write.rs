//! Writing the end header.

use vstd::prelude::*;

use crate::archive::{Archive, ArchiveEntry, Block, EntryView};
use crate::bits::write_bits;
use crate::buf::append;
use crate::coder::Coder;
use crate::header_spec::{
    access_dates, all_set, all_single, anti_bits, any_defined, any_set, attributes,
    bind_pairs_bytes, block_crcs, coder_bytes, coders_bytes, column_bytes, crcs_as_values,
    creation_dates, defined_bytes, defined_of, digests_bytes, empty_file_bits, empty_stream_bits,
    files_info_bytes, flags_bytes, folder_bytes, folders_bytes, header_bytes, modified_dates,
    names_bytes, none_shared, nums, pack_info_bytes, property_bytes, stated_crcs, stated_sizes,
    streams_info_bytes, sub_streams_info_bytes, substream_counts, units_bytes, unpack_info_bytes,
    unpack_sizes_bytes, values_bytes, K_ANTI, K_A_TIME, K_CODERS_UNPACK_SIZE, K_CRC, K_C_TIME,
    K_EMPTY_FILE, K_EMPTY_STREAM, K_END, K_FILES_INFO, K_FOLDER, K_HEADER, K_MAIN_STREAMS_INFO,
    K_M_TIME, K_NAME, K_NUM_UNPACK_STREAM, K_PACK_INFO, K_SIZE, K_SUB_STREAMS_INFO, K_UNPACK_INFO,
    K_WIN_ATTRIBUTES,
};
use crate::le::{u32_to_le, u64_to_le};
use crate::uint64::write_u64;

verus! {

/// Appends the numbers `values` to `out`, each as a variable-length number.
pub fn write_nums(out: &mut Vec<u8>, values: &[u64])
    ensures
        final(out)@ == old(out)@ + nums(values@),
{
    let mut i: usize = 0;
    assert(out@ =~= old(out)@ + nums(values@.take(0)));
    while i < values.len()
        invariant
            i <= values.len(),
            out@ == old(out)@ + nums(values@.take(i as int)),
        decreases values.len() - i,
    {
        write_u64(out, values[i]);
        assert(values@.take(i + 1).drop_last() =~= values@.take(i as int));
        assert(out@ =~= old(out)@ + nums(values@.take(i + 1)));
        i += 1;
    }
    assert(values@.take(values.len() as int) =~= values@);
}

/// Appends a vector of bits of which "all set" is said in one byte.
pub fn write_defined(out: &mut Vec<u8>, bits: &[bool])
    ensures
        final(out)@ == old(out)@ + defined_bytes(bits@),
{
    let mut all: bool = true;
    let mut i: usize = 0;
    while i < bits.len()
        invariant
            i <= bits.len(),
            all == all_set(bits@.take(i as int)),
        decreases bits.len() - i,
    {
        if !bits[i] {
            all = false;
        }
        proof {
            let before = bits@.take(i as int);
            let after = bits@.take(i + 1);
            if all_set(after) {
                assert forall|k: int| 0 <= k < before.len() implies before[k] by {
                    assert(after[k]);
                }
                assert(after[i as int]);
            }
            if all_set(before) && bits@[i as int] {
                assert forall|k: int| 0 <= k < after.len() implies after[k] by {
                    if k < i {
                        assert(before[k]);
                    }
                }
            }
        }
        i += 1;
    }
    assert(bits@.take(bits.len() as int) =~= bits@);
    if all {
        out.push(1);
        assert(out@ =~= old(out)@ + defined_bytes(bits@));
    } else {
        out.push(0);
        write_bits(out, bits);
        assert(out@ =~= old(out)@ + defined_bytes(bits@));
    }
}

/// Appends those of `values` that are there, each in `width` bytes, low byte first;
/// `width` is 4 or 8.
pub fn write_values(out: &mut Vec<u8>, values: &[Option<u64>], width: usize)
    requires
        width == 4 || width == 8,
        width == 4 ==> forall|i: int|
            0 <= i < values@.len() ==> (#[trigger] values@[i] matches Some(v) ==> v <= u32::MAX),
    ensures
        final(out)@ == old(out)@ + values_bytes(values@, width as nat),
{
    let mut i: usize = 0;
    assert(out@ =~= old(out)@ + values_bytes(values@.take(0), width as nat));
    while i < values.len()
        invariant
            i <= values.len(),
            width == 4 || width == 8,
            width == 4 ==> forall|i: int|
                0 <= i < values@.len() ==> (#[trigger] values@[i] matches Some(v) ==> v
                    <= u32::MAX),
            out@ == old(out)@ + values_bytes(values@.take(i as int), width as nat),
        decreases values.len() - i,
    {
        match values[i] {
            Some(v) => {
                if width == 4 {
                    append(out, u32_to_le(v as u32).as_slice());
                } else {
                    append(out, u64_to_le(v).as_slice());
                }
            },
            None => {},
        }
        assert(values@.take(i + 1).drop_last() =~= values@.take(i as int));
        assert(out@ =~= old(out)@ + values_bytes(values@.take(i + 1), width as nat));
        i += 1;
    }
    assert(values@.take(values.len() as int) =~= values@);
}

/// Which of `values` are there, and the values as the values of a column.
fn split_crcs(crcs: &[Option<u32>]) -> (split: (Vec<bool>, Vec<Option<u64>>, bool))
    ensures
        split.0@ == defined_of(crcs@),
        split.1@ == crcs_as_values(crcs@),
        split.2 == any_defined(crcs@),
        forall|i: int| 0 <= i < split.1@.len() ==> (#[trigger] split.1@[i] matches Some(v) ==> v
            <= u32::MAX),
{
    let mut defined: Vec<bool> = Vec::new();
    let mut values: Vec<Option<u64>> = Vec::new();
    let mut any: bool = false;
    let mut i: usize = 0;
    while i < crcs.len()
        invariant
            i <= crcs.len(),
            defined@ == defined_of(crcs@.take(i as int)),
            values@ == crcs_as_values(crcs@.take(i as int)),
            any == any_defined(crcs@.take(i as int)),
            forall|k: int| 0 <= k < values@.len() ==> (#[trigger] values@[k] matches Some(v) ==> v
                <= u32::MAX),
        decreases crcs.len() - i,
    {
        let ghost before = crcs@.take(i as int);
        let ghost after = crcs@.take(i + 1);
        match crcs[i] {
            Some(c) => {
                defined.push(true);
                values.push(Some(c as u64));
                any = true;
                assert(after[i as int] is Some);
            },
            None => {
                defined.push(false);
                values.push(None);
                proof {
                    if any_defined(after) {
                        let k = choose|k: int| 0 <= k < after.len() && after[k] is Some;
                        assert(before[k] is Some);
                    }
                    if any_defined(before) {
                        let k = choose|k: int| 0 <= k < before.len() && before[k] is Some;
                        assert(after[k] is Some);
                    }
                }
            },
        }
        assert(defined@ =~= defined_of(after));
        assert(values@ =~= crcs_as_values(after));
        i += 1;
    }
    assert(crcs@.take(crcs.len() as int) =~= crcs@);
    (defined, values, any)
}

/// Appends the CRCs `crcs` under the id of CRCs where any is declared.
fn write_optional_digests(out: &mut Vec<u8>, crcs: &[Option<u32>])
    ensures
        final(out)@ == old(out)@ + (if any_defined(crcs@) {
            seq![K_CRC] + digests_bytes(crcs@)
        } else {
            Seq::empty()
        }),
{
    let (defined, values, any) = split_crcs(crcs);
    if any {
        out.push(K_CRC);
        write_defined(out, defined.as_slice());
        write_values(out, values.as_slice(), 4);
        assert(out@ =~= old(out)@ + (seq![K_CRC] + digests_bytes(crcs@)));
    } else {
        assert(out@ =~= old(out)@ + Seq::<u8>::empty());
    }
}

/// Appends where the pack streams lie and how long they are.
pub fn write_pack_info(out: &mut Vec<u8>, archive: &Archive)
    ensures
        final(out)@ == old(out)@ + pack_info_bytes(archive@),
{
    write_u64(out, archive.pack_pos);
    write_u64(out, archive.pack_sizes.len() as u64);
    out.push(K_SIZE);
    write_nums(out, archive.pack_sizes.as_slice());
    write_optional_digests(out, archive.pack_crcs.as_slice());
    out.push(K_END);
    assert(out@ =~= old(out)@ + pack_info_bytes(archive@));
}

/// Appends one coder.
pub fn write_coder(out: &mut Vec<u8>, coder: &Coder)
    requires
        coder.method_id.len() <= 15,
    ensures
        final(out)@ == old(out)@ + coder_bytes(coder@),
{
    let simple: bool = coder.num_in_streams == 1 && coder.num_out_streams == 1;
    let mut flags: u8 = coder.method_id.len() as u8;
    if !simple {
        flags = flags + 0x10;
    }
    if coder.properties.len() > 0 {
        flags = flags + 0x20;
    }
    out.push(flags);
    append(out, coder.method_id.as_slice());
    if !simple {
        write_u64(out, coder.num_in_streams);
        write_u64(out, coder.num_out_streams);
    }
    if coder.properties.len() > 0 {
        write_u64(out, coder.properties.len() as u64);
        append(out, coder.properties.as_slice());
    }
    assert(out@ =~= old(out)@ + coder_bytes(coder@));
}

/// Appends the pipeline of one block.
pub fn write_folder(out: &mut Vec<u8>, block: &Block)
    requires
        forall|i: int| 0 <= i < block.coders@.len() ==> (#[trigger] block.coders@[i]).method_id.len()
            <= 15,
    ensures
        final(out)@ == old(out)@ + folder_bytes(block@),
{
    write_u64(out, block.coders.len() as u64);
    let ghost start = out@;
    let mut i: usize = 0;
    assert(out@ =~= start + coders_bytes(block@.coders.take(0)));
    while i < block.coders.len()
        invariant
            i <= block.coders.len(),
            forall|k: int|
                0 <= k < block.coders@.len() ==> (#[trigger] block.coders@[k]).method_id.len()
                    <= 15,
            out@ == start + coders_bytes(block@.coders.take(i as int)),
        decreases block.coders.len() - i,
    {
        write_coder(out, &block.coders[i]);
        assert(block@.coders.take(i + 1).drop_last() =~= block@.coders.take(i as int));
        assert(block@.coders.take(i + 1).last() == block.coders@[i as int]@);
        assert(out@ =~= start + coders_bytes(block@.coders.take(i + 1)));
        i += 1;
    }
    assert(block@.coders.take(block.coders.len() as int) =~= block@.coders);
    let ghost coded = out@;
    let mut j: usize = 0;
    assert(out@ =~= coded + bind_pairs_bytes(block@.bind_pairs.take(0)));
    while j < block.bind_pairs.len()
        invariant
            j <= block.bind_pairs.len(),
            out@ == coded + bind_pairs_bytes(block@.bind_pairs.take(j as int)),
        decreases block.bind_pairs.len() - j,
    {
        write_u64(out, block.bind_pairs[j].in_index);
        write_u64(out, block.bind_pairs[j].out_index);
        assert(block@.bind_pairs.take(j + 1).drop_last() =~= block@.bind_pairs.take(j as int));
        assert(out@ =~= coded + bind_pairs_bytes(block@.bind_pairs.take(j + 1)));
        j += 1;
    }
    assert(block@.bind_pairs.take(block.bind_pairs.len() as int) =~= block@.bind_pairs);
    if block.packed_streams.len() != 1 {
        write_nums(out, block.packed_streams.as_slice());
    }
    assert(out@ =~= old(out)@ + folder_bytes(block@));
}

/// The views of the first `count` of `blocks`.
pub open spec fn block_views(blocks: Seq<Block>, count: int) -> Seq<crate::archive::BlockView> {
    Seq::new(count as nat, |i: int| blocks[i]@)
}

/// Whether the ids of all coders of `blocks` fit the four bits that state their
/// length.
#[verifier::opaque]
pub open spec fn ids_fit(blocks: Seq<Block>) -> bool {
    forall|b: int, i: int|
        0 <= b < blocks.len() && 0 <= i < blocks[b].coders@.len() ==> (
        #[trigger] blocks[b].coders@[i]).method_id.len() <= 15
}

/// Tells whether the ids of all coders of `blocks` fit the four bits that state
/// their length.
pub fn ids_within(blocks: &Vec<Block>) -> (fit: bool)
    ensures
        fit == ids_fit(blocks@),
{
    let mut b: usize = 0;
    while b < blocks.len()
        invariant
            b <= blocks.len(),
            forall|x: int, i: int|
                0 <= x < b && 0 <= i < blocks@[x].coders@.len() ==> (
                #[trigger] blocks@[x].coders@[i]).method_id.len() <= 15,
        decreases blocks.len() - b,
    {
        let coders = &blocks[b].coders;
        let mut i: usize = 0;
        while i < coders.len()
            invariant
                i <= coders.len(),
                b < blocks.len(),
                *coders == blocks@[b as int].coders,
                forall|k: int| 0 <= k < i ==> (#[trigger] coders@[k]).method_id.len() <= 15,
            decreases coders.len() - i,
        {
            if coders[i].method_id.len() > 15 {
                proof {
                    reveal(ids_fit);
                    assert(blocks@[b as int].coders@[i as int].method_id.len() > 15);
                }
                return false;
            }
            i += 1;
        }
        b += 1;
    }
    proof {
        reveal(ids_fit);
    }
    true
}

/// Appends the pipelines of the blocks, one after the other.
fn write_folders(out: &mut Vec<u8>, blocks: &Vec<Block>)
    requires
        ids_fit(blocks@),
    ensures
        final(out)@ == old(out)@ + folders_bytes(block_views(blocks@, blocks@.len() as int)),
{
    let ghost views = block_views(blocks@, blocks@.len() as int);
    let mut i: usize = 0;
    assert(out@ =~= old(out)@ + folders_bytes(views.take(0)));
    while i < blocks.len()
        invariant
            i <= blocks.len(),
            ids_fit(blocks@),
            views == block_views(blocks@, blocks@.len() as int),
            out@ == old(out)@ + folders_bytes(views.take(i as int)),
        decreases blocks.len() - i,
    {
        assert forall|k: int| 0 <= k < blocks@[i as int].coders@.len() implies (
        #[trigger] blocks@[i as int].coders@[k]).method_id.len() <= 15 by {
            reveal(ids_fit);
        }
        write_folder(out, &blocks[i]);
        assert(views.take(i + 1).drop_last() =~= views.take(i as int));
        assert(views.take(i + 1).last() == blocks@[i as int]@);
        assert(out@ =~= old(out)@ + folders_bytes(views.take(i + 1)));
        i += 1;
    }
    assert(views.take(blocks.len() as int) =~= views);
}

/// Appends the sizes of the output streams of all coders of the blocks, and returns
/// the CRCs of the blocks.
fn write_unpack_sizes(out: &mut Vec<u8>, blocks: &Vec<Block>) -> (crcs: Vec<Option<u32>>)
    ensures
        final(out)@ == old(out)@ + unpack_sizes_bytes(block_views(blocks@, blocks@.len() as int)),
        crcs@ == block_crcs(block_views(blocks@, blocks@.len() as int)),
{
    let ghost views = block_views(blocks@, blocks@.len() as int);
    let mut j: usize = 0;
    let mut crcs: Vec<Option<u32>> = Vec::new();
    assert(out@ =~= old(out)@ + unpack_sizes_bytes(views.take(0)));
    assert(crcs@ =~= block_crcs(views.take(0)));
    while j < blocks.len()
        invariant
            j <= blocks.len(),
            views == block_views(blocks@, blocks@.len() as int),
            out@ == old(out)@ + unpack_sizes_bytes(views.take(j as int)),
            crcs@ == block_crcs(views.take(j as int)),
        decreases blocks.len() - j,
    {
        write_nums(out, blocks[j].unpack_sizes.as_slice());
        crcs.push(blocks[j].crc);
        assert(views.take(j + 1).drop_last() =~= views.take(j as int));
        assert(views.take(j + 1).last() == blocks@[j as int]@);
        assert(out@ =~= old(out)@ + unpack_sizes_bytes(views.take(j + 1)));
        assert(crcs@ =~= block_crcs(views.take(j + 1)));
        j += 1;
    }
    assert(views.take(blocks.len() as int) =~= views);
    crcs
}

/// Appends the pipelines of the blocks, the sizes of their streams and their CRCs.
#[verifier::rlimit(40)]
pub fn write_unpack_info(out: &mut Vec<u8>, blocks: &Vec<Block>)
    requires
        ids_fit(blocks@),
    ensures
        final(out)@ == old(out)@ + unpack_info_bytes(block_views(blocks@, blocks@.len() as int)),
{
    let ghost views = block_views(blocks@, blocks@.len() as int);
    let ghost head = seq![K_FOLDER] + crate::uint64::encoded(blocks.len() as u64) + seq![0u8];
    out.push(K_FOLDER);
    write_u64(out, blocks.len() as u64);
    out.push(0);
    assert(out@ =~= old(out)@ + head);
    let ghost s1 = out@;
    write_folders(out, blocks);
    let ghost s2 = out@;
    out.push(K_CODERS_UNPACK_SIZE);
    let ghost s3 = out@;
    let crcs = write_unpack_sizes(out, blocks);
    let ghost s4 = out@;
    write_optional_digests(out, crcs.as_slice());
    let ghost s5 = out@;
    out.push(K_END);
    proof {
        let folders = folders_bytes(views);
        let sizes = unpack_sizes_bytes(views);
        let digests = if any_defined(block_crcs(views)) {
            seq![K_CRC] + digests_bytes(block_crcs(views))
        } else {
            Seq::<u8>::empty()
        };
        assert(s2 == s1 + folders);
        assert(s3 == s2.push(K_CODERS_UNPACK_SIZE));
        assert(s4 == s3 + sizes);
        assert(s5 == s4 + digests);
        assert(out@ == s5.push(K_END));
        assert(unpack_info_bytes(views) == head + folders + seq![K_CODERS_UNPACK_SIZE] + sizes
            + digests + seq![K_END]);
        lemma_join(old(out)@, head, folders, K_CODERS_UNPACK_SIZE, sizes, digests, K_END);
    }
}

/// Pieces appended one after the other are the whole appended at once.
proof fn lemma_join(
    start: Seq<u8>,
    a: Seq<u8>,
    b: Seq<u8>,
    x: u8,
    c: Seq<u8>,
    d: Seq<u8>,
    y: u8,
)
    ensures
        ((((start + a) + b).push(x) + c) + d).push(y) == start + (a + b + seq![x] + c + d + seq![
            y,
        ]),
{
    assert(((((start + a) + b).push(x) + c) + d).push(y) =~= start + (a + b + seq![x] + c + d
        + seq![y]));
}

/// Appends how the output of each block is divided among its files.
pub fn write_sub_streams_info(out: &mut Vec<u8>, blocks: &Vec<Block>)
    ensures
        final(out)@ == old(out)@ + sub_streams_info_bytes(
            block_views(blocks@, blocks@.len() as int),
        ),
{
    let ghost views = block_views(blocks@, blocks@.len() as int);
    let mut counts: Vec<u64> = Vec::new();
    let mut sizes: Vec<u64> = Vec::new();
    let mut crcs: Vec<Option<u32>> = Vec::new();
    let mut single: bool = true;
    let mut unshared: bool = true;
    let mut i: usize = 0;
    assert(stated_sizes(views.take(0)) =~= Seq::<u64>::empty());
    assert(stated_crcs(views.take(0)) =~= Seq::<Option<u32>>::empty());
    while i < blocks.len()
        invariant
            i <= blocks.len(),
            views == block_views(blocks@, blocks@.len() as int),
            counts@ == substream_counts(views.take(i as int)),
            sizes@ == stated_sizes(views.take(i as int)),
            crcs@ == stated_crcs(views.take(i as int)),
            single == all_single(views.take(i as int)),
            unshared == none_shared(views.take(i as int)),
        decreases blocks.len() - i,
    {
        let block = &blocks[i];
        let n: usize = block.substream_sizes.len();
        let ghost before = views.take(i as int);
        let ghost after = views.take(i + 1);
        assert(after.drop_last() =~= before);
        assert(after.last() == block@);
        counts.push(n as u64);
        if n != 1 {
            single = false;
        }
        if n > 1 {
            unshared = false;
        }
        proof {
            if all_single(after) {
                assert forall|k: int| 0 <= k < before.len() implies before[k].substream_sizes.len()
                    == 1 by {
                    assert(after[k] == before[k]);
                }
                assert(after[i as int].substream_sizes.len() == 1);
            }
            if all_single(before) && n == 1 {
                assert forall|k: int| 0 <= k < after.len() implies after[k].substream_sizes.len()
                    == 1 by {
                    if k < i {
                        assert(after[k] == before[k]);
                    }
                }
            }
            if none_shared(after) {
                assert forall|k: int| 0 <= k < before.len() implies before[k].substream_sizes.len()
                    <= 1 by {
                    assert(after[k] == before[k]);
                }
                assert(after[i as int].substream_sizes.len() <= 1);
            }
            if none_shared(before) && n <= 1 {
                assert forall|k: int| 0 <= k < after.len() implies after[k].substream_sizes.len()
                    <= 1 by {
                    if k < i {
                        assert(after[k] == before[k]);
                    }
                }
            }
        }
        if n > 0 {
            let mut s: usize = 0;
            let ghost had = sizes@;
            while s < n - 1
                invariant
                    s <= n - 1,
                    n == block.substream_sizes.len(),
                    sizes@ == had + block.substream_sizes@.take(s as int),
                decreases n - 1 - s,
            {
                sizes.push(block.substream_sizes[s]);
                assert(sizes@ =~= had + block.substream_sizes@.take(s + 1));
                s += 1;
            }
            assert(block.substream_sizes@.take(n - 1) =~= block@.substream_sizes.drop_last());
        }
        let known: bool = n == 1 && block.crc.is_some();
        if !known {
            let mut k: usize = 0;
            let ghost had = crcs@;
            while k < block.substream_crcs.len()
                invariant
                    k <= block.substream_crcs.len(),
                    crcs@ == had + block.substream_crcs@.take(k as int),
                decreases block.substream_crcs.len() - k,
            {
                crcs.push(block.substream_crcs[k]);
                assert(crcs@ =~= had + block.substream_crcs@.take(k + 1));
                k += 1;
            }
            assert(block.substream_crcs@.take(block.substream_crcs.len() as int)
                =~= block.substream_crcs@);
        }
        assert(counts@ =~= substream_counts(after));
        assert(sizes@ =~= stated_sizes(after));
        assert(crcs@ =~= stated_crcs(after));
        i += 1;
    }
    assert(views.take(blocks.len() as int) =~= views);
    if !single {
        out.push(K_NUM_UNPACK_STREAM);
        write_nums(out, counts.as_slice());
    }
    if !unshared {
        out.push(K_SIZE);
        write_nums(out, sizes.as_slice());
    }
    write_optional_digests(out, crcs.as_slice());
    out.push(K_END);
    assert(out@ =~= old(out)@ + sub_streams_info_bytes(views));
}

/// Appends the pack streams, the blocks and the division of their output.
pub fn write_streams_info(out: &mut Vec<u8>, archive: &Archive)
    requires
        ids_fit(archive.blocks@),
    ensures
        final(out)@ == old(out)@ + streams_info_bytes(archive@),
{
    assert(archive@.blocks =~= block_views(archive.blocks@, archive.blocks@.len() as int));
    out.push(K_PACK_INFO);
    write_pack_info(out, archive);
    out.push(K_UNPACK_INFO);
    write_unpack_info(out, &archive.blocks);
    out.push(K_SUB_STREAMS_INFO);
    write_sub_streams_info(out, &archive.blocks);
    out.push(K_END);
    assert(out@ =~= old(out)@ + streams_info_bytes(archive@));
}

/// Appends a property of the files: its id, the length of its data, and the data.
pub fn write_property(out: &mut Vec<u8>, id: u8, data: &[u8])
    ensures
        final(out)@ == old(out)@ + property_bytes(id, data@),
{
    out.push(id);
    write_u64(out, data.len() as u64);
    append(out, data);
    assert(out@ =~= old(out)@ + property_bytes(id, data@));
}

/// Whether any bit of `bits` is set.
fn has_set_bit(bits: &[bool]) -> (any: bool)
    ensures
        any == any_set(bits@),
{
    let mut i: usize = 0;
    while i < bits.len()
        invariant
            i <= bits.len(),
            forall|k: int| 0 <= k < i ==> !bits@[k],
        decreases bits.len() - i,
    {
        if bits[i] {
            return true;
        }
        i += 1;
    }
    false
}

/// Appends a vector of bits as a property, where any bit is set.
pub fn write_flags(out: &mut Vec<u8>, id: u8, bits: &[bool])
    ensures
        final(out)@ == old(out)@ + flags_bytes(id, bits@),
{
    if has_set_bit(bits) {
        let mut data: Vec<u8> = Vec::new();
        write_bits(&mut data, bits);
        assert(data@ =~= crate::bits::packed(bits@));
        write_property(out, id, data.as_slice());
    } else {
        assert(out@ =~= old(out)@ + flags_bytes(id, bits@));
    }
}

/// Whether any of `values` is there, and which are there.
fn split_values(values: &[Option<u64>]) -> (split: (Vec<bool>, bool))
    ensures
        split.0@ == defined_of(values@),
        split.1 == any_defined(values@),
{
    let mut defined: Vec<bool> = Vec::new();
    let mut any: bool = false;
    let mut i: usize = 0;
    while i < values.len()
        invariant
            i <= values.len(),
            defined@ == defined_of(values@.take(i as int)),
            any == any_defined(values@.take(i as int)),
        decreases values.len() - i,
    {
        let ghost before = values@.take(i as int);
        let ghost after = values@.take(i + 1);
        match values[i] {
            Some(_) => {
                defined.push(true);
                any = true;
                assert(after[i as int] is Some);
            },
            None => {
                defined.push(false);
                proof {
                    if any_defined(after) {
                        let k = choose|k: int| 0 <= k < after.len() && after[k] is Some;
                        assert(before[k] is Some);
                    }
                    if any_defined(before) {
                        let k = choose|k: int| 0 <= k < before.len() && before[k] is Some;
                        assert(after[k] is Some);
                    }
                }
            },
        }
        assert(defined@ =~= defined_of(after));
        i += 1;
    }
    assert(values@.take(values.len() as int) =~= values@);
    (defined, any)
}

/// Appends a column of values of which some may be missing, as a property, where any
/// is there; `width` is 4 or 8.
pub fn write_column(out: &mut Vec<u8>, id: u8, values: &[Option<u64>], width: usize)
    requires
        width == 4 || width == 8,
        width == 4 ==> forall|i: int|
            0 <= i < values@.len() ==> (#[trigger] values@[i] matches Some(v) ==> v <= u32::MAX),
    ensures
        final(out)@ == old(out)@ + column_bytes(id, values@, width as nat),
{
    let (defined, any) = split_values(values);
    if any {
        let mut data: Vec<u8> = Vec::new();
        write_defined(&mut data, defined.as_slice());
        data.push(0);
        write_values(&mut data, values, width);
        assert(data@ =~= defined_bytes(defined_of(values@)) + seq![0u8] + values_bytes(
            values@,
            width as nat,
        ));
        write_property(out, id, data.as_slice());
    } else {
        assert(out@ =~= old(out)@ + column_bytes(id, values@, width as nat));
    }
}

/// Appends the code units `units`, each low byte first.
pub fn write_units(out: &mut Vec<u8>, units: &[u16])
    ensures
        final(out)@ == old(out)@ + units_bytes(units@),
{
    let mut i: usize = 0;
    assert(out@ =~= old(out)@ + units_bytes(units@.take(0)));
    while i < units.len()
        invariant
            i <= units.len(),
            out@ == old(out)@ + units_bytes(units@.take(i as int)),
        decreases units.len() - i,
    {
        out.push((units[i] % 256) as u8);
        out.push((units[i] / 256) as u8);
        assert(units@.take(i + 1).drop_last() =~= units@.take(i as int));
        assert(out@ =~= old(out)@ + units_bytes(units@.take(i + 1)));
        i += 1;
    }
    assert(units@.take(units.len() as int) =~= units@);
}

/// The views of the first `count` of `files`.
pub open spec fn entry_views(files: Seq<ArchiveEntry>, count: int) -> Seq<EntryView> {
    Seq::new(count as nat, |i: int| files[i]@)
}

/// The columns of the entries, as the header states them.
struct Columns {
    empty_stream: Vec<bool>,
    empty_file: Vec<bool>,
    anti: Vec<bool>,
    names: Vec<u8>,
    creation: Vec<Option<u64>>,
    access: Vec<Option<u64>>,
    modified: Vec<Option<u64>>,
    attributes: Vec<Option<u64>>,
}

impl Columns {
    /// The columns are those of `files`.
    spec fn are_of(&self, files: Seq<EntryView>) -> bool {
        &&& self.empty_stream@ == empty_stream_bits(files)
        &&& self.empty_file@ == empty_file_bits(files)
        &&& self.anti@ == anti_bits(files)
        &&& self.names@ == seq![0u8] + names_bytes(files)
        &&& self.creation@ == creation_dates(files)
        &&& self.access@ == access_dates(files)
        &&& self.modified@ == modified_dates(files)
        &&& self.attributes@ == attributes(files)
        &&& forall|i: int|
            0 <= i < self.attributes@.len() ==> (#[trigger] self.attributes@[i] matches Some(v)
                ==> v <= u32::MAX)
    }
}

/// Gathers the columns of `files`.
fn columns_of(files: &Vec<ArchiveEntry>) -> (columns: Columns)
    ensures
        columns.are_of(entry_views(files@, files@.len() as int)),
{
    let ghost views = entry_views(files@, files@.len() as int);
    let mut columns = Columns {
        empty_stream: Vec::new(),
        empty_file: Vec::new(),
        anti: Vec::new(),
        names: Vec::new(),
        creation: Vec::new(),
        access: Vec::new(),
        modified: Vec::new(),
        attributes: Vec::new(),
    };
    columns.names.push(0);
    let mut i: usize = 0;
    proof {
        assert(columns.empty_stream@ =~= empty_stream_bits(views.take(0)));
        assert(columns.empty_file@ =~= empty_file_bits(views.take(0)));
        assert(columns.anti@ =~= anti_bits(views.take(0)));
        assert(columns.names@ =~= seq![0u8] + names_bytes(views.take(0)));
        assert(columns.creation@ =~= creation_dates(views.take(0)));
        assert(columns.access@ =~= access_dates(views.take(0)));
        assert(columns.modified@ =~= modified_dates(views.take(0)));
        assert(columns.attributes@ =~= attributes(views.take(0)));
    }
    while i < files.len()
        invariant
            i <= files.len(),
            views == entry_views(files@, files@.len() as int),
            columns.are_of(views.take(i as int)),
        decreases files.len() - i,
    {
        let file = &files[i];
        let ghost before = views.take(i as int);
        let ghost after = views.take(i + 1);
        proof {
            assert(after.drop_last() =~= before);
            assert(after.last() == file@);
        }
        columns.empty_stream.push(!file.has_stream);
        if !file.has_stream {
            columns.empty_file.push(!file.is_directory);
            columns.anti.push(file.is_anti_item);
        }
        write_units(&mut columns.names, file.name.as_slice());
        columns.names.push(0);
        columns.names.push(0);
        columns.creation.push(file.creation_date);
        columns.access.push(file.access_date);
        columns.modified.push(file.last_modified_date);
        columns.attributes.push(
            match file.windows_attributes {
                Some(a) => Some(a as u64),
                None => None,
            },
        );
        proof {
            assert(columns.empty_stream@ =~= empty_stream_bits(after));
            assert(columns.empty_file@ =~= empty_file_bits(after));
            assert(columns.anti@ =~= anti_bits(after));
            assert(columns.names@ =~= seq![0u8] + names_bytes(after));
            assert(columns.creation@ =~= creation_dates(after));
            assert(columns.access@ =~= access_dates(after));
            assert(columns.modified@ =~= modified_dates(after));
            assert(columns.attributes@ =~= attributes(after));
        }
        i += 1;
    }
    assert(views.take(files.len() as int) =~= views);
    columns
}

/// Appends the entries.
#[verifier::rlimit(40)]
pub fn write_files_info(out: &mut Vec<u8>, files: &Vec<ArchiveEntry>)
    ensures
        final(out)@ == old(out)@ + files_info_bytes(entry_views(files@, files@.len() as int)),
{
    let ghost views = entry_views(files@, files@.len() as int);
    let columns = columns_of(files);
    let ghost part0 = crate::uint64::encoded(files.len() as u64);
    let ghost part1 = flags_bytes(K_EMPTY_STREAM, empty_stream_bits(views));
    let ghost part2 = flags_bytes(K_EMPTY_FILE, empty_file_bits(views));
    let ghost part3 = flags_bytes(K_ANTI, anti_bits(views));
    let ghost part4 = property_bytes(K_NAME, seq![0u8] + names_bytes(views));
    let ghost part5 = column_bytes(K_C_TIME, creation_dates(views), 8);
    let ghost part6 = column_bytes(K_A_TIME, access_dates(views), 8);
    let ghost part7 = column_bytes(K_M_TIME, modified_dates(views), 8);
    let ghost part8 = column_bytes(K_WIN_ATTRIBUTES, attributes(views), 4);
    let ghost start = out@;
    write_u64(out, files.len() as u64);
    write_flags(out, K_EMPTY_STREAM, columns.empty_stream.as_slice());
    assert(out@ == start + part0 + part1);
    write_flags(out, K_EMPTY_FILE, columns.empty_file.as_slice());
    write_flags(out, K_ANTI, columns.anti.as_slice());
    assert(out@ == start + part0 + part1 + part2 + part3);
    write_property(out, K_NAME, columns.names.as_slice());
    write_column(out, K_C_TIME, columns.creation.as_slice(), 8);
    assert(out@ == start + part0 + part1 + part2 + part3 + part4 + part5);
    write_column(out, K_A_TIME, columns.access.as_slice(), 8);
    write_column(out, K_M_TIME, columns.modified.as_slice(), 8);
    assert(out@ == start + part0 + part1 + part2 + part3 + part4 + part5 + part6 + part7);
    write_column(out, K_WIN_ATTRIBUTES, columns.attributes.as_slice(), 4);
    out.push(K_END);
    assert(out@ == start + part0 + part1 + part2 + part3 + part4 + part5 + part6 + part7 + part8 + seq![K_END]) by {
        assert(out@ =~= start + part0 + part1 + part2 + part3 + part4 + part5 + part6 + part7 + part8 + seq![K_END]);
    }
    proof {
        lemma_join_ten(start, part0, part1, part2, part3, part4, part5, part6, part7, part8, seq![K_END]);
    }
}

/// Pieces appended one after the other are the whole appended at once.
proof fn lemma_join_ten(
    start: Seq<u8>,
    part0: Seq<u8>,
    part1: Seq<u8>,
    part2: Seq<u8>,
    part3: Seq<u8>,
    part4: Seq<u8>,
    part5: Seq<u8>,
    part6: Seq<u8>,
    part7: Seq<u8>,
    part8: Seq<u8>,
    part9: Seq<u8>,
)
    ensures
        start + part0 + part1 + part2 + part3 + part4 + part5 + part6 + part7 + part8 + part9 == start + (part0 + part1 + part2 + part3 + part4
            + part5 + part6 + part7 + part8 + part9),
{
    assert(start + part0 + part1 + part2 + part3 + part4 + part5 + part6 + part7 + part8 + part9 =~= start + (part0 + part1 + part2 + part3
        + part4 + part5 + part6 + part7 + part8 + part9));
}

/// The end header of `archive`.
pub fn write_header(archive: &Archive) -> (bytes: Vec<u8>)
    requires
        ids_fit(archive.blocks@),
    ensures
        bytes@ == header_bytes(archive@),
{
    let mut out: Vec<u8> = Vec::new();
    out.push(K_HEADER);
    let ghost s1 = out@;
    if archive.blocks.len() > 0 {
        out.push(K_MAIN_STREAMS_INFO);
        write_streams_info(&mut out, archive);
    }
    let ghost s2 = out@;
    if archive.files.len() > 0 {
        out.push(K_FILES_INFO);
        write_files_info(&mut out, &archive.files);
    }
    let ghost s3 = out@;
    out.push(K_END);
    proof {
        assert(archive@.files =~= entry_views(archive.files@, archive.files@.len() as int));
        let a = if archive@.blocks.len() > 0 {
            seq![K_MAIN_STREAMS_INFO] + streams_info_bytes(archive@)
        } else {
            Seq::<u8>::empty()
        };
        let b = if archive@.files.len() > 0 {
            seq![K_FILES_INFO] + files_info_bytes(archive@.files)
        } else {
            Seq::<u8>::empty()
        };
        assert(s2 =~= s1 + a);
        assert(s3 =~= s2 + b);
        assert(s3.push(K_END) =~= seq![K_HEADER] + a + b + seq![K_END]);
    }
    out
}

} // verus!
