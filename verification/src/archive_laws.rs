//! What holds of an archive as a whole while it is written block by block: the
//! block that was written last is read back from the bytes of the archive as it was
//! written.

use vstd::prelude::*;

use crate::archive::{ArchiveView, BlockView, EntryView};
use crate::collect::{
    can_be_packed, crcs_of, declared, lemma_block_keeps_archive, lemma_written_block_reads_back,
    unpack_sizes_of, with_block, with_entry, with_streams, with_written_block,
};
use crate::container::{
    archive_bytes, lemma_archive_round_trip, lemma_assembled_is_located, opened, EndHeaderView,
};
use crate::crc::crc32;
use crate::error::Error;
use crate::frames::is_codec_failure;
use crate::header_laws::archive_wf;
use crate::header_parse::sum;
use crate::header_spec::{header_bytes, MAX_CODERS};
use crate::options::EncoderConfiguration;
use crate::pipeline::{decoded_block, encoded_from, is_decoded, is_fixed_block};
use crate::pipeline_laws::{chain_gives_back, lemma_block_decodes_to_data, lemma_block_round_trip};
use crate::reader::{
    block_entry_of, flat, is_block_read, lemma_flat_len, lengths, pack_crc_of, pack_of,
    pack_range_of, packs_in_blocks,
};
use crate::writer::chain_block_of;

verus! {

/// Whether the metadata of an archive that is being written keeps track of the pack
/// streams `pack` written so far: the pack streams that it states are as long
/// together as `pack`, and it states one for each pack stream of its blocks.
pub open spec fn tracks(archive: ArchiveView, pack: Seq<u8>) -> bool {
    &&& archive.pack_pos + sum(archive.pack_sizes) == pack.len()
    &&& packs_in_blocks(archive.blocks, archive.blocks.len()) == archive.pack_sizes.len()
    &&& archive.pack_crcs.len() == archive.pack_sizes.len()
}

/// The first blocks take the same pack streams whatever block follows them.
pub proof fn lemma_packs_of_prefix(blocks: Seq<BlockView>, more: BlockView, upto: nat)
    requires
        upto <= blocks.len(),
    ensures
        packs_in_blocks(blocks.push(more), upto) == packs_in_blocks(blocks, upto),
    decreases upto,
{
    if upto > 0 {
        lemma_packs_of_prefix(blocks, more, (upto - 1) as nat);
        assert(blocks.push(more)[upto - 1] == blocks[upto - 1]);
    }
}

/// An archive that takes an entry without content keeps track of the pack streams.
pub proof fn lemma_entry_keeps_track(archive: ArchiveView, pack: Seq<u8>, entry: EntryView)
    requires
        tracks(archive, pack),
    ensures
        tracks(with_entry(archive, entry), pack),
{
}

/// An archive that takes a written block keeps track of the pack streams, to which
/// the pack stream of the block is added.
pub proof fn lemma_block_keeps_track(
    archive: ArchiveView,
    pack: Seq<u8>,
    methods: Seq<EncoderConfiguration>,
    entries: Seq<EntryView>,
    contents: Seq<Seq<u8>>,
)
    requires
        tracks(archive, pack),
        encoded_from(methods, flat(contents), 0).len() <= u64::MAX,
    ensures
        tracks(
            with_written_block(archive, methods, entries, contents),
            pack + encoded_from(methods, flat(contents), 0),
        ),
{
    let after = with_written_block(archive, methods, entries, contents);
    let count = archive.blocks.len();
    lemma_packs_of_prefix(archive.blocks, after.blocks[count as int], count);
    assert(after.pack_sizes.drop_last() =~= archive.pack_sizes);
    assert(after.blocks.len() == count + 1);
    assert(after.blocks[count as int].packed_streams.len() == 1);
}

/// An archive that can be written and read back can still be, once a block was
/// written for entries that can be packed.
pub proof fn lemma_written_block_keeps_archive(
    archive: ArchiveView,
    methods: Seq<EncoderConfiguration>,
    entries: Seq<EntryView>,
    contents: Seq<Seq<u8>>,
)
    requires
        archive_wf(archive),
        archive.blocks.len() < u64::MAX,
        archive.pack_sizes.len() < u64::MAX,
        archive.files.len() + entries.len() <= u64::MAX,
        1 <= methods.len() <= MAX_CODERS,
        can_be_packed(entries, contents),
    ensures
        archive_wf(with_written_block(archive, methods, entries, contents)),
{
    let data = flat(contents);
    let packed = encoded_from(methods, data, 0);
    let made = chain_block_of(
        methods,
        unpack_sizes_of(methods, data),
        Some(crc32(data)),
        lengths(contents),
        declared(crcs_of(contents)),
    );
    lemma_flat_len(contents);
    assert(encoded_from(methods, data, methods.len() as int) == data);
    if contents.len() == 1 {
        assert(contents.drop_last() =~= Seq::<Seq<u8>>::empty());
        assert(flat(contents.drop_last()) =~= Seq::<u8>::empty());
        assert(contents.last() == contents[0]);
        assert(data =~= contents[0]);
    }
    let files = with_streams(entries);
    assert forall|i: int| 0 <= i < files.len() implies (#[trigger] files[i]).has_stream
        && !files[i].is_directory && !files[i].is_anti_item && crate::header_laws::no_zero_unit(
        files[i].name,
    ) by {
        assert(contents[i].len() <= u64::MAX);
    }
    lemma_block_keeps_archive(
        archive,
        methods,
        made,
        files,
        packed.len() as u64,
        crc32(packed),
    );
}

/// The pack stream of a block that an archive has taken last is found behind the
/// pack streams before it, and passes against its CRC.
pub proof fn lemma_taken_pack_is_found(
    archive: ArchiveView,
    pack: Seq<u8>,
    block: BlockView,
    files: Seq<EntryView>,
    packed: Seq<u8>,
    header: Seq<u8>,
)
    requires
        tracks(archive, pack),
        block.packed_streams.len() == 1,
        (pack + packed).len() <= u64::MAX,
        header.len() <= u64::MAX,
    ensures
        pack_of(
            archive_bytes(pack + packed, header),
            with_block(archive, block, files, packed.len() as u64, crc32(packed)),
            archive.blocks.len() as int,
        ) == Ok::<Seq<u8>, Error>(packed),
{
    let after = with_block(archive, block, files, packed.len() as u64, crc32(packed));
    let packs = pack + packed;
    let last = archive.blocks.len() as int;
    let bytes = archive_bytes(packs, header);
    lemma_assembled_is_located(packs, header);
    lemma_packs_of_prefix(archive.blocks, block, archive.blocks.len());
    let index = archive.pack_sizes.len() as int;
    assert(after.pack_sizes.take(index) =~= archive.pack_sizes);
    assert(after.blocks.len() == last + 1);
    assert(packs_in_blocks(after.blocks, last as nat) == index);
    assert(pack_range_of(after, last) == Some((pack.len() as u64, packed.len() as u64)));
    assert(pack_crc_of(after, last) == Some(crc32(packed)));
    let region = bytes.subrange(32, 32 + packs.len() as int);
    assert(bytes.subrange(32 + pack.len() as int, 32 + pack.len() + packed.len() as int)
        =~= region.subrange(pack.len() as int, packs.len() as int));
    assert(packs.subrange(pack.len() as int, packs.len() as int) =~= packed);
}

/// The pack stream of the block that was written last is found behind the pack
/// streams before it, and passes against its CRC.
pub proof fn lemma_last_pack_is_found(
    archive: ArchiveView,
    pack: Seq<u8>,
    methods: Seq<EncoderConfiguration>,
    entries: Seq<EntryView>,
    contents: Seq<Seq<u8>>,
    header: Seq<u8>,
)
    requires
        tracks(archive, pack),
        (pack + encoded_from(methods, flat(contents), 0)).len() <= u64::MAX,
        header.len() <= u64::MAX,
    ensures
        pack_of(
            archive_bytes(pack + encoded_from(methods, flat(contents), 0), header),
            with_written_block(archive, methods, entries, contents),
            archive.blocks.len() as int,
        ) == Ok::<Seq<u8>, Error>(encoded_from(methods, flat(contents), 0)),
{
    lemma_taken_pack_is_found(
        archive,
        pack,
        written_block(methods, contents),
        with_streams(entries),
        encoded_from(methods, flat(contents), 0),
        header,
    );
}

/// A block that a chain made for contents decodes to the contents, one after the
/// other, and each entry is cut out of them with the content it was written with.
pub proof fn lemma_decoded_block_gives_contents(
    out: Result<Vec<u8>, Error>,
    methods: Seq<EncoderConfiguration>,
    contents: Seq<Seq<u8>>,
    password: Seq<u8>,
    max_mem_limit_kb: usize,
    threads: u32,
)
    requires
        1 <= methods.len() <= MAX_CODERS,
        chain_gives_back(methods, password, max_mem_limit_kb, threads),
        forall|k: int|
            0 <= k <= methods.len() ==> (#[trigger] encoded_from(methods, flat(contents), k)).len()
                <= usize::MAX,
        forall|i: int| 0 <= i < contents.len() ==> (#[trigger] contents[i]).len() <= u64::MAX,
        flat(contents).len() <= u64::MAX,
        is_fixed_block(written_block(methods, contents), threads),
        is_decoded(
            out,
            written_block(methods, contents),
            encoded_from(methods, flat(contents), 0),
            password,
            max_mem_limit_kb,
            threads,
        ),
    ensures
        out matches Ok(output) ==> {
            &&& output@ == flat(contents)
            &&& forall|place: int|
                0 <= place < contents.len() ==> #[trigger] block_entry_of(
                    written_block(methods, contents),
                    output@,
                    place,
                ) == Ok::<Seq<u8>, Error>(contents[place])
        },
        out matches Err(e) ==> is_codec_failure(e),
{
    let data = flat(contents);
    let made = written_block(methods, contents);
    lemma_block_round_trip(out, methods, data, made, password, max_mem_limit_kb, threads);
    assert forall|place: int| 0 <= place < contents.len() implies #[trigger] block_entry_of(
        made,
        data,
        place,
    ) == Ok::<Seq<u8>, Error>(contents[place]) by {
        lemma_written_block_reads_back(
            methods,
            unpack_sizes_of(methods, data),
            crc32(data),
            contents,
            place,
        );
    }
}

/// The block that a chain stands for in an archive when it has written entries of
/// the contents `contents`.
pub open spec fn written_block(
    methods: Seq<EncoderConfiguration>,
    contents: Seq<Seq<u8>>,
) -> BlockView {
    chain_block_of(
        methods,
        unpack_sizes_of(methods, flat(contents)),
        Some(crc32(flat(contents))),
        lengths(contents),
        declared(crcs_of(contents)),
    )
}

/// The block that was written last is read back as it was written: the archive is
/// opened with the metadata that was collected, the pack stream of the block is
/// found where it was written and passes against its CRC, the block decodes to the
/// contents of its entries, one after the other, and each entry is cut out of them
/// with the content it was written with; unless a codec of another crate reports a
/// failure. This holds wherever a decoder is made for each coder of the chain and
/// gives back what the encoder was given, and what the decoders give is fixed by
/// their input.
#[verifier::rlimit(40)]
pub proof fn lemma_written_block_is_read_back(
    out: Result<Vec<u8>, Error>,
    archive: ArchiveView,
    pack: Seq<u8>,
    methods: Seq<EncoderConfiguration>,
    entries: Seq<EntryView>,
    contents: Seq<Seq<u8>>,
    password: Seq<u8>,
    max_mem_limit_kb: usize,
    threads: u32,
)
    requires
        archive_wf(archive),
        tracks(archive, pack),
        archive.blocks.len() < u64::MAX,
        archive.pack_sizes.len() < u64::MAX,
        archive.files.len() + entries.len() <= u64::MAX,
        1 <= methods.len() <= MAX_CODERS,
        chain_gives_back(methods, password, max_mem_limit_kb, threads),
        forall|k: int|
            0 <= k <= methods.len() ==> (#[trigger] encoded_from(methods, flat(contents), k)).len()
                <= usize::MAX,
        can_be_packed(entries, contents),
        is_fixed_block(written_block(methods, contents), threads),
        ({
            let after = with_written_block(archive, methods, entries, contents);
            let packs = pack + encoded_from(methods, flat(contents), 0);
            &&& packs.len() <= u64::MAX
            &&& header_bytes(after).len() <= u64::MAX
            &&& is_block_read(
                out,
                archive_bytes(packs, header_bytes(after)),
                after,
                archive.blocks.len() as int,
                password,
                max_mem_limit_kb,
                threads,
            )
        }),
    ensures
        ({
            let after = with_written_block(archive, methods, entries, contents);
            let packs = pack + encoded_from(methods, flat(contents), 0);
            &&& opened(archive_bytes(packs, header_bytes(after))) == Ok::<EndHeaderView, Error>(
                EndHeaderView::Plain(after),
            )
            &&& after.blocks[archive.blocks.len() as int] == written_block(methods, contents)
            &&& out matches Ok(output) ==> {
                &&& output@ == flat(contents)
                &&& forall|place: int|
                    0 <= place < contents.len() ==> #[trigger] block_entry_of(
                        written_block(methods, contents),
                        output@,
                        place,
                    ) == Ok::<Seq<u8>, Error>(contents[place])
            }
            &&& out matches Err(e) ==> is_codec_failure(e)
        }),
{
    let packed = encoded_from(methods, flat(contents), 0);
    let after = with_written_block(archive, methods, entries, contents);
    let packs = pack + packed;
    let last = archive.blocks.len() as int;
    let made = written_block(methods, contents);
    assert(after.blocks[last] == made);
    lemma_written_block_keeps_archive(archive, methods, entries, contents);
    lemma_archive_round_trip(packs, after);
    lemma_last_pack_is_found(archive, pack, methods, entries, contents, header_bytes(after));
    lemma_flat_len(contents);
    lemma_block_decodes_to_data(
        methods,
        flat(contents),
        made,
        password,
        max_mem_limit_kb,
        threads,
    );
    if decoded_block(made, packed, password, max_mem_limit_kb, threads) is None {
        lemma_decoded_block_gives_contents(
            out,
            methods,
            contents,
            password,
            max_mem_limit_kb,
            threads,
        );
    } else {
        assert forall|place: int| 0 <= place < contents.len() implies #[trigger] block_entry_of(
            made,
            flat(contents),
            place,
        ) == Ok::<Seq<u8>, Error>(contents[place]) by {
            lemma_written_block_reads_back(
                methods,
                unpack_sizes_of(methods, flat(contents)),
                crc32(flat(contents)),
                contents,
                place,
            );
        }
    }
}

} // verus!
