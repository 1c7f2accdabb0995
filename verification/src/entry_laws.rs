//! Laws of the places of entries: an entry has its bytes at one place at most, the
//! places follow the order of the entries, and a block is read from its own pack
//! stream alone.

use vstd::prelude::*;

use crate::archive::{ArchiveView, BlockView, EntryView};
use crate::archive_laws::{
    lemma_last_pack_is_found, lemma_packs_of_prefix, lemma_written_block_keeps_archive, tracks,
    written_block,
};
use crate::collect::{
    can_be_packed, lemma_written_block_reads_back, unpack_sizes_of, with_block, with_streams,
    with_written_block,
};
use crate::container::{
    archive_bytes, lemma_archive_round_trip, lemma_assembled_is_located, opened, EndHeaderView,
};
use crate::crc::crc32;
use crate::entries::{entry_content, is_entry_read, stated_of};
use crate::error::Error;
use crate::header_laws::archive_wf;
use crate::header_parse::files_in_blocks;
use crate::header_spec::{header_bytes, MAX_CODERS};
use crate::options::EncoderConfiguration;
use crate::pipeline::encoded_from;
use crate::pipeline_laws::{
    chain_gives_back, lemma_block_decodes_to_data, lemma_copies_give_back, lemma_own_block_decodes,
};
use crate::reader::{
    entries_of_block, flat, is_block_read, is_first_place_of, is_place_of, lemma_first_place,
    lemma_flat_len, lemma_stream_files_len, pack_crc_of, pack_of, pack_range_of, packs_in_blocks,
    place_of, stream_files,
};

verus! {

/// The entries that have a stream are listed in their order, each once, and each is
/// an entry of the archive.
pub proof fn lemma_stream_files_ascend(files: Seq<EntryView>)
    ensures
        forall|i: int, j: int|
            0 <= i < j < stream_files(files).len() ==> #[trigger] stream_files(files)[i]
                < #[trigger] stream_files(files)[j],
        forall|i: int|
            0 <= i < stream_files(files).len() ==> 0 <= #[trigger] stream_files(files)[i]
                < files.len(),
    decreases files.len(),
{
    if files.len() > 0 {
        let before = stream_files(files.drop_last());
        let all = stream_files(files);
        lemma_stream_files_ascend(files.drop_last());
        assert forall|i: int| 0 <= i < all.len() implies 0 <= #[trigger] all[i] < files.len() by {
            if i < before.len() {
                assert(all[i] == before[i]);
            }
        }
        assert forall|i: int, j: int| 0 <= i < j < all.len() implies #[trigger] all[i]
            < #[trigger] all[j] by {
            assert(all[i] == before[i]);
            if j < before.len() {
                assert(all[j] == before[j]);
            }
        }
    }
}

/// More blocks hold no fewer files.
pub proof fn lemma_files_grow(blocks: Seq<BlockView>, fewer: int, more: int)
    requires
        0 <= fewer <= more <= blocks.len(),
    ensures
        files_in_blocks(blocks.take(fewer)) <= files_in_blocks(blocks.take(more)),
    decreases more - fewer,
{
    if fewer < more {
        lemma_files_grow(blocks, fewer, more - 1);
        assert(blocks.take(more).drop_last() =~= blocks.take(more - 1));
    }
}

/// Where the file `place` of the block `block` stands among the entries that have a
/// stream.
pub open spec fn rank_of(archive: ArchiveView, block: int, place: int) -> int {
    files_in_blocks(archive.blocks.take(block)) + place
}

/// The place of an entry is the entry's place among those that have a stream.
proof fn lemma_place_rank(archive: ArchiveView, file: int, block: int, place: int)
    requires
        is_place_of(archive, file, block, place),
    ensures
        0 <= rank_of(archive, block, place) < files_in_blocks(archive.blocks.take(block + 1)),
        rank_of(archive, block, place) < stream_files(archive.files).len(),
        stream_files(archive.files)[rank_of(archive, block, place)] == file,
{
    lemma_files_grow(archive.blocks, block, block + 1);
}

/// Places in a later block stand behind those of an earlier one.
proof fn lemma_ranks_ascend(
    archive: ArchiveView,
    block_a: int,
    place_a: int,
    block_b: int,
    place_b: int,
)
    requires
        0 <= block_a < block_b < archive.blocks.len(),
        rank_of(archive, block_a, place_a) < files_in_blocks(archive.blocks.take(block_a + 1)),
        0 <= place_b,
    ensures
        rank_of(archive, block_a, place_a) < rank_of(archive, block_b, place_b),
{
    lemma_files_grow(archive.blocks, block_a + 1, block_b);
}

/// An entry has its bytes in one block at most, and at one place of the block.
pub proof fn lemma_one_place(
    archive: ArchiveView,
    file: int,
    block_a: int,
    place_a: int,
    block_b: int,
    place_b: int,
)
    requires
        is_place_of(archive, file, block_a, place_a),
        is_place_of(archive, file, block_b, place_b),
    ensures
        block_a == block_b,
        place_a == place_b,
{
    lemma_stream_files_ascend(archive.files);
    lemma_place_rank(archive, file, block_a, place_a);
    lemma_place_rank(archive, file, block_b, place_b);
    if block_a < block_b {
        lemma_ranks_ascend(archive, block_a, place_a, block_b, place_b);
    }
    if block_b < block_a {
        lemma_ranks_ascend(archive, block_b, place_b, block_a, place_a);
    }
}

/// The place at which an entry has its bytes is the place that reading looks for.
pub proof fn lemma_place_is_found(archive: ArchiveView, file: int, block: int, place: int)
    requires
        is_place_of(archive, file, block, place),
    ensures
        is_first_place_of(archive, file, block, place),
        place_of(archive, file) == Some((block, place)),
        0 <= file < archive.files.len(),
{
    assert forall|b: int, p: int| #[trigger] is_place_of(archive, file, b, p) implies block < b || (
    block == b && place <= p) by {
        lemma_one_place(archive, file, block, place, b, p);
    }
    lemma_first_place(archive, file, block, place);
    lemma_stream_files_ascend(archive.files);
    lemma_place_rank(archive, file, block, place);
}

/// The places follow the order of the entries: of two entries that have bytes, the
/// later one has them in the same block at a later place, or in a later block. So
/// reading the entries in their order meets each block once, and the blocks in their
/// order.
pub proof fn lemma_places_follow_the_entries(
    archive: ArchiveView,
    file_a: int,
    block_a: int,
    place_a: int,
    file_b: int,
    block_b: int,
    place_b: int,
)
    requires
        is_place_of(archive, file_a, block_a, place_a),
        is_place_of(archive, file_b, block_b, place_b),
        file_a < file_b,
    ensures
        block_a < block_b || (block_a == block_b && place_a < place_b),
{
    lemma_stream_files_ascend(archive.files);
    lemma_place_rank(archive, file_a, block_a, place_a);
    lemma_place_rank(archive, file_b, block_b, place_b);
    let rank_a = rank_of(archive, block_a, place_a);
    let rank_b = rank_of(archive, block_b, place_b);
    if rank_b < rank_a {
        assert(stream_files(archive.files)[rank_b] < stream_files(archive.files)[rank_a]);
    }
    assert(rank_a < rank_b);
    if block_b < block_a {
        lemma_ranks_ascend(archive, block_b, place_b, block_a, place_a);
    }
}

/// The entries of a block are entries of the archive that follow each other in the
/// order of the archive.
pub proof fn lemma_block_entries_ascend(archive: ArchiveView, block: int)
    requires
        0 <= block < archive.blocks.len(),
        files_in_blocks(archive.blocks.take(block + 1)) <= stream_files(archive.files).len(),
    ensures
        forall|p: int, q: int|
            0 <= p < q < entries_of_block(archive, block).len() ==> #[trigger] entries_of_block(
                archive,
                block,
            )[p] < #[trigger] entries_of_block(archive, block)[q],
        forall|p: int|
            0 <= p < entries_of_block(archive, block).len() ==> is_place_of(
                archive,
                #[trigger] entries_of_block(archive, block)[p],
                block,
                p,
            ),
{
    lemma_stream_files_ascend(archive.files);
    lemma_files_grow(archive.blocks, block, block + 1);
}

/// A block is read from its own pack stream alone: archives of bytes that are the
/// same where the pack stream of the block lies read the block alike, whatever
/// stands before and behind.
pub proof fn lemma_block_reads_its_pack_only(
    out: Result<Vec<u8>, Error>,
    bytes: Seq<u8>,
    other: Seq<u8>,
    archive: ArchiveView,
    block: int,
    password: Seq<u8>,
    max_mem_limit_kb: usize,
    threads: u32,
)
    requires
        pack_range_of(archive, block) matches Some((offset, size)) && 32 + offset + size
            <= bytes.len() && 32 + offset + size <= other.len() && bytes.subrange(
            32 + offset,
            32 + offset + size,
        ) == other.subrange(32 + offset, 32 + offset + size),
    ensures
        pack_of(bytes, archive, block) == pack_of(other, archive, block),
        is_block_read(out, bytes, archive, block, password, max_mem_limit_kb, threads)
            == is_block_read(out, other, archive, block, password, max_mem_limit_kb, threads),
{
}

/// Entries that all have a stream, behind other entries, are listed behind those of
/// the others that have one.
pub proof fn lemma_stream_files_add(files: Seq<EntryView>, more: Seq<EntryView>)
    requires
        forall|i: int| 0 <= i < more.len() ==> (#[trigger] more[i]).has_stream,
    ensures
        stream_files(files + more) == stream_files(files) + Seq::new(
            more.len(),
            |i: int| files.len() + i,
        ),
    decreases more.len(),
{
    let added = Seq::new(more.len(), |i: int| files.len() + i);
    if more.len() == 0 {
        assert(files + more =~= files);
        assert(stream_files(files) + added =~= stream_files(files));
    } else {
        let fewer = more.drop_last();
        lemma_stream_files_add(files, fewer);
        assert((files + more).drop_last() =~= files + fewer);
        assert((files + more).last() == more.last());
        assert(stream_files(files + more) =~= stream_files(files) + added);
    }
}

/// The entries of the block that was written last have their bytes in that block,
/// each at its place among the entries that were written.
pub proof fn lemma_written_entry_has_its_place(
    archive: ArchiveView,
    methods: Seq<EncoderConfiguration>,
    entries: Seq<EntryView>,
    contents: Seq<Seq<u8>>,
    place: int,
)
    requires
        archive_wf(archive),
        contents.len() == entries.len(),
        0 <= place < entries.len(),
    ensures
        place_of(
            with_written_block(archive, methods, entries, contents),
            archive.files.len() + place,
        ) == Some((archive.blocks.len() as int, place)),
{
    let after = with_written_block(archive, methods, entries, contents);
    let last = archive.blocks.len() as int;
    let added = with_streams(entries);
    reveal(archive_wf);
    lemma_stream_files_len(archive.files);
    lemma_stream_files_add(archive.files, added);
    assert(after.files == archive.files + added);
    assert(after.blocks.take(last) =~= archive.blocks);
    assert(after.blocks.take(last + 1) =~= after.blocks);
    assert(after.blocks.drop_last() =~= archive.blocks);
    assert(files_in_blocks(after.blocks) == files_in_blocks(archive.blocks) + entries.len());
    assert(is_place_of(after, archive.files.len() + place, last, place));
    lemma_place_is_found(after, archive.files.len() + place, last, place);
}

/// The archive states, for every entry of the block that was written last, the size
/// and the CRC of the content that the entry was written with.
pub proof fn lemma_written_entry_is_stated(
    archive: ArchiveView,
    methods: Seq<EncoderConfiguration>,
    entries: Seq<EntryView>,
    contents: Seq<Seq<u8>>,
    place: int,
)
    requires
        archive_wf(archive),
        contents.len() == entries.len(),
        0 <= place < entries.len(),
    ensures
        stated_of(
            with_written_block(archive, methods, entries, contents),
            archive.files.len() + place,
        ) == (contents[place].len() as u64, Some(crc32(contents[place]))),
{
    let after = with_written_block(archive, methods, entries, contents);
    lemma_written_entry_has_its_place(archive, methods, entries, contents, place);
    assert(after.blocks[archive.blocks.len() as int] == written_block(methods, contents));
}

/// Every entry of the block that was written last is read back with the content it
/// was written with, wherever reading gives its content: the archive is opened with
/// the metadata that was collected, the entry is found in the block, and what is cut
/// out of the output of the block is the content. This holds wherever a decoder is
/// made for each coder of the chain and gives back what the encoder was given.
pub proof fn lemma_written_entry_is_read_back(
    archive: ArchiveView,
    pack: Seq<u8>,
    methods: Seq<EncoderConfiguration>,
    entries: Seq<EntryView>,
    contents: Seq<Seq<u8>>,
    place: int,
    password: Seq<u8>,
    max_mem_limit_kb: usize,
    threads: u32,
)
    requires
        archive_wf(archive),
        tracks(archive, pack),
        archive.blocks.len() < u64::MAX,
        archive.pack_sizes.len() < u64::MAX,
        archive.files.len() + entries.len() <= u64::MAX,
        1 <= methods.len() <= MAX_CODERS,
        chain_gives_back(methods, password, max_mem_limit_kb, threads),
        forall|k: int|
            0 <= k <= methods.len() ==> (#[trigger] encoded_from(methods, flat(contents), k)).len()
                <= usize::MAX,
        can_be_packed(entries, contents),
        0 <= place < entries.len(),
        (pack + encoded_from(methods, flat(contents), 0)).len() <= u64::MAX,
        header_bytes(with_written_block(archive, methods, entries, contents)).len() <= u64::MAX,
    ensures
        ({
            let after = with_written_block(archive, methods, entries, contents);
            let packs = pack + encoded_from(methods, flat(contents), 0);
            let bytes = archive_bytes(packs, header_bytes(after));
            &&& opened(bytes) == Ok::<EndHeaderView, Error>(EndHeaderView::Plain(after))
            &&& entry_content(
                bytes,
                after,
                archive.files.len() + place,
                password,
                max_mem_limit_kb,
                threads,
            ) matches Some(data) ==> data == contents[place]
        }),
{
    let data = flat(contents);
    let packed = encoded_from(methods, data, 0);
    let after = with_written_block(archive, methods, entries, contents);
    let packs = pack + packed;
    let last = archive.blocks.len() as int;
    let made = written_block(methods, contents);
    assert(after.blocks[last] == made);
    lemma_written_entry_has_its_place(archive, methods, entries, contents, place);
    lemma_written_block_keeps_archive(archive, methods, entries, contents);
    lemma_archive_round_trip(packs, after);
    lemma_last_pack_is_found(archive, pack, methods, entries, contents, header_bytes(after));
    lemma_flat_len(contents);
    lemma_block_decodes_to_data(methods, data, made, password, max_mem_limit_kb, threads);
    lemma_written_block_reads_back(
        methods,
        unpack_sizes_of(methods, data),
        crc32(data),
        contents,
        place,
    );
}

/// Every entry of a block that was written last through coders of the method Copy
/// is read back with the content it was written with, and no codec of another crate
/// has a say in it.
pub proof fn lemma_copied_entry_is_read_back(
    archive: ArchiveView,
    pack: Seq<u8>,
    methods: Seq<EncoderConfiguration>,
    entries: Seq<EntryView>,
    contents: Seq<Seq<u8>>,
    place: int,
    password: Seq<u8>,
    max_mem_limit_kb: usize,
    threads: u32,
)
    requires
        archive_wf(archive),
        tracks(archive, pack),
        archive.blocks.len() < u64::MAX,
        archive.pack_sizes.len() < u64::MAX,
        archive.files.len() + entries.len() <= u64::MAX,
        1 <= methods.len() <= MAX_CODERS,
        forall|i: int|
            0 <= i < methods.len() ==> (#[trigger] methods[i]).method
                == crate::method::EncoderMethod::Copy,
        flat(contents).len() <= usize::MAX,
        can_be_packed(entries, contents),
        0 <= place < entries.len(),
        (pack + flat(contents)).len() <= u64::MAX,
        header_bytes(with_written_block(archive, methods, entries, contents)).len() <= u64::MAX,
    ensures
        ({
            let after = with_written_block(archive, methods, entries, contents);
            let bytes = archive_bytes(pack + flat(contents), header_bytes(after));
            &&& opened(bytes) == Ok::<EndHeaderView, Error>(EndHeaderView::Plain(after))
            &&& entry_content(
                bytes,
                after,
                archive.files.len() + place,
                password,
                max_mem_limit_kb,
                threads,
            ) == Some(contents[place])
        }),
{
    let data = flat(contents);
    let after = with_written_block(archive, methods, entries, contents);
    let last = archive.blocks.len() as int;
    let made = written_block(methods, contents);
    assert(after.blocks[last] == made);
    lemma_copies_give_back(methods, data, made, password, max_mem_limit_kb, threads);
    assert(encoded_from(methods, data, 0) == data);
    lemma_written_entry_has_its_place(archive, methods, entries, contents, place);
    lemma_written_block_keeps_archive(archive, methods, entries, contents);
    lemma_archive_round_trip(pack + data, after);
    lemma_last_pack_is_found(archive, pack, methods, entries, contents, header_bytes(after));
    lemma_flat_len(contents);
    lemma_own_block_decodes(methods, data, made, password, max_mem_limit_kb, threads);
    lemma_written_block_reads_back(
        methods,
        unpack_sizes_of(methods, data),
        crc32(data),
        contents,
        place,
    );
}

/// An entry that was there before a block was written has its place where it had
/// it, and none where it had none.
pub proof fn lemma_earlier_place_stays(
    archive: ArchiveView,
    methods: Seq<EncoderConfiguration>,
    entries: Seq<EntryView>,
    contents: Seq<Seq<u8>>,
    file: int,
)
    requires
        archive_wf(archive),
        contents.len() == entries.len(),
        0 <= file < archive.files.len(),
    ensures
        place_of(with_written_block(archive, methods, entries, contents), file) == place_of(
            archive,
            file,
        ),
        place_of(archive, file) matches Some((block, place)) ==> 0 <= block
            < archive.blocks.len(),
{
    let after = with_written_block(archive, methods, entries, contents);
    let last = archive.blocks.len() as int;
    let added = with_streams(entries);
    reveal(archive_wf);
    lemma_stream_files_len(archive.files);
    lemma_stream_files_add(archive.files, added);
    assert(after.files == archive.files + added);
    assert(after.blocks.drop_last() =~= archive.blocks);
    assert(after.blocks.take(last) =~= archive.blocks);
    assert(after.blocks.take(last + 1) =~= after.blocks);
    assert forall|b: int, p: int| #[trigger]
        is_place_of(after, file, b, p) == is_place_of(archive, file, b, p) by {
        if 0 <= b < last {
            lemma_files_grow(archive.blocks, b, b + 1);
            lemma_files_grow(archive.blocks, b + 1, last);
            assert(archive.blocks.take(last) =~= archive.blocks);
            assert(after.blocks.take(b) =~= archive.blocks.take(b));
            assert(after.blocks.take(b + 1) =~= archive.blocks.take(b + 1));
        }
    }
    if exists|b: int, p: int| is_place_of(archive, file, b, p) {
        let (b, p) = choose|b: int, p: int| is_place_of(archive, file, b, p);
        assert(is_place_of(after, file, b, p));
        lemma_place_is_found(archive, file, b, p);
        lemma_place_is_found(after, file, b, p);
    } else {
        assert forall|b: int, p: int| !is_first_place_of(archive, file, b, p) by {
            assert(!is_place_of(archive, file, b, p));
        }
        assert forall|b: int, p: int| !is_first_place_of(after, file, b, p) by {
            assert(!is_place_of(archive, file, b, p));
        }
    }
}

/// A range of the first of two runs of bytes that stand one after the other behind
/// 32 bytes is a range of what stands there.
proof fn lemma_region(bytes: Seq<u8>, pack: Seq<u8>, rest: Seq<u8>, offset: int, size: int)
    requires
        0 <= offset,
        0 <= size,
        offset + size <= pack.len(),
        32 + pack.len() + rest.len() <= bytes.len(),
        bytes.subrange(32, 32 + (pack + rest).len() as int) == pack + rest,
    ensures
        bytes.subrange(32 + offset, 32 + offset + size) == pack.subrange(offset, offset + size),
{
    let all = pack + rest;
    let region = bytes.subrange(32, 32 + all.len() as int);
    assert(bytes.subrange(32 + offset, 32 + offset + size) =~= region.subrange(
        offset,
        offset + size,
    ));
    assert(all.subrange(offset, offset + size) =~= pack.subrange(offset, offset + size));
}

/// Bytes of the pack streams of an archive stand in the archive behind the start
/// header, whatever pack streams and end header follow them.
pub proof fn lemma_pack_region(
    pack: Seq<u8>,
    rest: Seq<u8>,
    header: Seq<u8>,
    offset: int,
    size: int,
)
    requires
        0 <= offset,
        0 <= size,
        offset + size <= pack.len(),
        (pack + rest).len() <= u64::MAX,
        header.len() <= u64::MAX,
    ensures
        archive_bytes(pack + rest, header).subrange(32 + offset, 32 + offset + size)
            == pack.subrange(offset, offset + size),
        32 + offset + size <= archive_bytes(pack + rest, header).len(),
{
    lemma_assembled_is_located(pack + rest, header);
    lemma_region(archive_bytes(pack + rest, header), pack, rest, offset, size);
}

/// The pack stream of a block that was there before another block was taken is
/// stated where it was, with the CRC it had, and lies within the pack streams that
/// were written before.
pub proof fn lemma_earlier_range_stays(
    archive: ArchiveView,
    pack: Seq<u8>,
    more: BlockView,
    files: Seq<EntryView>,
    pack_size: u64,
    pack_crc: u32,
    block: int,
)
    requires
        tracks(archive, pack),
        0 <= block < archive.blocks.len(),
        pack_range_of(archive, block) is Some,
    ensures
        pack_range_of(with_block(archive, more, files, pack_size, pack_crc), block)
            == pack_range_of(archive, block),
        pack_crc_of(with_block(archive, more, files, pack_size, pack_crc), block) == pack_crc_of(
            archive,
            block,
        ),
        pack_range_of(archive, block) matches Some((offset, size)) && offset + size <= pack.len(),
{
    let taken = with_block(archive, more, files, pack_size, pack_crc);
    let index = packs_in_blocks(archive.blocks, block as nat) as int;
    lemma_packs_of_prefix(archive.blocks, more, block as nat);
    assert(taken.pack_sizes.take(index) =~= archive.pack_sizes.take(index));
    crate::header_parse::lemma_sum_grows(archive.pack_sizes, index + 1);
    assert(archive.pack_sizes.take(index + 1).drop_last() =~= archive.pack_sizes.take(index));
}

/// The pack stream of a block that was there before another block was taken is
/// found where it was, whatever end header the archive is written with.
pub proof fn lemma_earlier_pack_stays(
    archive: ArchiveView,
    pack: Seq<u8>,
    more: BlockView,
    files: Seq<EntryView>,
    packed: Seq<u8>,
    before: Seq<u8>,
    after: Seq<u8>,
    block: int,
)
    requires
        tracks(archive, pack),
        0 <= block < archive.blocks.len(),
        pack_range_of(archive, block) is Some,
        (pack + packed).len() <= u64::MAX,
        before.len() <= u64::MAX,
        after.len() <= u64::MAX,
    ensures
        pack_of(
            archive_bytes(pack + packed, after),
            with_block(archive, more, files, packed.len() as u64, crc32(packed)),
            block,
        ) == pack_of(archive_bytes(pack, before), archive, block),
{
    let (offset, size) = pack_range_of(archive, block)->0;
    lemma_earlier_range_stays(
        archive,
        pack,
        more,
        files,
        packed.len() as u64,
        crc32(packed),
        block,
    );
    lemma_pack_region(pack, packed, after, offset as int, size as int);
    lemma_pack_region(pack, Seq::empty(), before, offset as int, size as int);
    assert(pack + Seq::<u8>::empty() =~= pack);
}

/// An entry that was there before a block was written is read as it was: its
/// content is the same once the block is written and the archive has its new end
/// header. So every entry of an archive that is written block by block is read back
/// as the entry of the block that was written last is.
pub proof fn lemma_earlier_entry_stays(
    archive: ArchiveView,
    pack: Seq<u8>,
    methods: Seq<EncoderConfiguration>,
    entries: Seq<EntryView>,
    contents: Seq<Seq<u8>>,
    file: int,
    before: Seq<u8>,
    after: Seq<u8>,
    password: Seq<u8>,
    max_mem_limit_kb: usize,
    threads: u32,
)
    requires
        archive_wf(archive),
        tracks(archive, pack),
        contents.len() == entries.len(),
        0 <= file < archive.files.len(),
        forall|b: int| 0 <= b < archive.blocks.len() ==> pack_range_of(archive, b) is Some,
        (pack + encoded_from(methods, flat(contents), 0)).len() <= u64::MAX,
        before.len() <= u64::MAX,
        after.len() <= u64::MAX,
    ensures
        entry_content(
            archive_bytes(pack + encoded_from(methods, flat(contents), 0), after),
            with_written_block(archive, methods, entries, contents),
            file,
            password,
            max_mem_limit_kb,
            threads,
        ) == entry_content(
            archive_bytes(pack, before),
            archive,
            file,
            password,
            max_mem_limit_kb,
            threads,
        ),
{
    let packed = encoded_from(methods, flat(contents), 0);
    let taken = with_written_block(archive, methods, entries, contents);
    lemma_earlier_place_stays(archive, methods, entries, contents, file);
    match place_of(archive, file) {
        None => {},
        Some((block, place)) => {
            lemma_earlier_pack_stays(
                archive,
                pack,
                written_block(methods, contents),
                with_streams(entries),
                packed,
                before,
                after,
                block,
            );
            assert(taken.blocks[block] == archive.blocks[block]);
        },
    }
}

/// Whatever the password, a block whose CRC is declared gives no output with
/// another CRC: a wrong password gives a failure, never other bytes in silence.
pub proof fn lemma_read_output_passes(
    out: Result<Vec<u8>, Error>,
    bytes: Seq<u8>,
    archive: ArchiveView,
    block: int,
    password: Seq<u8>,
    max_mem_limit_kb: usize,
    threads: u32,
)
    requires
        is_block_read(out, bytes, archive, block, password, max_mem_limit_kb, threads),
    ensures
        out matches Ok(output) ==> (archive.blocks[block].crc matches Some(crc) ==> crc32(output@)
            == crc),
{
}

/// Whatever the password, an entry whose CRC is declared is read with no bytes of
/// another CRC.
pub proof fn lemma_read_entry_passes(
    out: Result<Vec<u8>, Error>,
    bytes: Seq<u8>,
    archive: ArchiveView,
    file: int,
    password: Seq<u8>,
    max_mem_limit_kb: usize,
    threads: u32,
)
    requires
        is_entry_read(out, bytes, archive, file, password, max_mem_limit_kb, threads),
    ensures
        out matches Ok(data) ==> (place_of(archive, file) matches Some((block, place)) ==> (0
            <= place < archive.blocks[block].substream_crcs.len() ==> (
        archive.blocks[block].substream_crcs[place] matches Some(crc) ==> crc32(data@) == crc))),
{
}

} // verus!
