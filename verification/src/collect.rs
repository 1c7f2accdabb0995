//! Collecting the metadata of an archive while it is written: entries and blocks are
//! taken one after the other, and what has been taken can always be written and
//! read back.

use vstd::prelude::*;

use crate::archive::{Archive, ArchiveEntry, ArchiveView, BlockView, EntryView};
use crate::compress::{
    block_inv, blocks_of, blocks_view, group_entries, lemma_blocks_within_cap,
    lemma_no_blocks_without_bytes,
};
use crate::crc::{crc32, crc32_of};
use crate::encoder::config_refusal;
use crate::error::Error;
use crate::header_laws::{
    archive_wf, division_wf, divisions_wf, files_wf, names_wf, no_zero_unit, pipeline_wf,
    pipelines_wf, sizes_wf, streams_wf,
};
use crate::header_parse::{files_with_stream, sum};
use crate::header_spec::MAX_CODERS;
use crate::lemmas::lemma_simple_totals;
use crate::options::EncoderConfiguration;
use crate::pipeline::{
    all_own_methods, encode_block, encoded_from, encodes_from, first_bad_method,
    lemma_own_chain_encodes,
};
use crate::reader::{
    block_entry_of, divides, flat, lemma_entries_read_back, lemma_flat_len, lengths, sum_before,
};
use crate::writer::{
    bad_chain, bad_sizes, chain_block, chain_block_of, lemma_chain_block, methods_wf,
};

verus! {

/// The failure of a name that holds a zero unit: it would end the name where it is
/// read.
pub open spec fn bad_name() -> Error {
    Error::Other("A name holds a zero unit")
}

/// The failure of a block that does not hold what its entries state.
pub open spec fn bad_block() -> Error {
    Error::Other("A block does not hold what its entries state")
}

/// An archive without blocks and entries.
pub fn empty_archive() -> (archive: Archive)
    ensures
        archive@.pack_pos == 0,
        archive@.pack_sizes.len() == 0,
        archive@.pack_crcs.len() == 0,
        archive@.blocks.len() == 0,
        archive@.files.len() == 0,
        archive_wf(archive@),
{
    let archive = Archive {
        pack_pos: 0,
        pack_sizes: Vec::new(),
        pack_crcs: Vec::new(),
        blocks: Vec::new(),
        files: Vec::new(),
    };
    proof {
        reveal(archive_wf);
        reveal(streams_wf);
        reveal(pipelines_wf);
        reveal(sizes_wf);
        reveal(divisions_wf);
        reveal(files_wf);
        reveal(names_wf);
    }
    archive
}

/// Tells whether no code unit of `name` is zero.
pub fn name_is_clean(name: &Vec<u16>) -> (clean: bool)
    ensures
        clean == no_zero_unit(name@),
{
    let mut i: usize = 0;
    while i < name.len()
        invariant
            i <= name.len(),
            forall|k: int| 0 <= k < i ==> name@[k] != 0,
        decreases name.len() - i,
    {
        if name[i] == 0 {
            return false;
        }
        i += 1;
    }
    true
}

/// The archive with one more entry.
pub open spec fn with_entry(archive: ArchiveView, entry: EntryView) -> ArchiveView {
    ArchiveView { files: archive.files.push(entry), ..archive }
}

/// The archive with one more block: its pack stream, and its files in their order.
pub open spec fn with_block(
    archive: ArchiveView,
    block: BlockView,
    files: Seq<EntryView>,
    pack_size: u64,
    pack_crc: u32,
) -> ArchiveView {
    ArchiveView {
        pack_pos: archive.pack_pos,
        pack_sizes: archive.pack_sizes.push(pack_size),
        pack_crcs: archive.pack_crcs.push(Some(pack_crc)),
        blocks: archive.blocks.push(block),
        files: archive.files + files,
    }
}

/// The entries as those of a block: each has a stream.
pub open spec fn with_streams(entries: Seq<EntryView>) -> Seq<EntryView> {
    Seq::new(entries.len(), |i: int| EntryView { has_stream: true, ..entries[i] })
}

/// The CRCs, each declared.
pub open spec fn declared(crcs: Seq<u32>) -> Seq<Option<u32>> {
    Seq::new(crcs.len(), |i: int| Some(crcs[i]))
}

/// Whether an entry can be a file of a block: it has bytes, is neither a directory
/// nor an anti-item, and its name holds no zero unit.
pub open spec fn entry_fits(entry: EntryView, size: u64) -> bool {
    &&& size > 0
    &&& !entry.is_directory
    &&& !entry.is_anti_item
    &&& no_zero_unit(entry.name)
}

/// Whether a block holds what its entries state: there is at least one entry, each
/// has a size and a CRC and can be a file of a block, the sizes add up to the size
/// of the output of the block, and the CRC of the one file of a block is that of
/// the block.
pub open spec fn block_fits(
    entries: Seq<EntryView>,
    sizes: Seq<u64>,
    crcs: Seq<u32>,
    unpack_sizes: Seq<u64>,
    content_crc: u32,
) -> bool {
    &&& entries.len() >= 1
    &&& sizes.len() == entries.len()
    &&& crcs.len() == entries.len()
    &&& forall|i: int| 0 <= i < entries.len() ==> entry_fits(#[trigger] entries[i], sizes[i])
    &&& unpack_sizes.len() >= 1
    &&& sum(sizes) == unpack_sizes.last()
    &&& entries.len() == 1 ==> crcs[0] == content_crc
}

/// The views of entries.
pub open spec fn views_of(entries: Seq<ArchiveEntry>) -> Seq<EntryView> {
    Seq::new(entries.len(), |i: int| entries[i]@)
}

/// Takes an entry without content into an archive: a directory, an empty file or an
/// anti-item. The entry is taken without a stream; one whose name holds a zero unit
/// is refused.
pub fn push_entry(archive: &mut Archive, entry: ArchiveEntry) -> (taken: Result<(), Error>)
    ensures
        no_zero_unit(entry.name@) ==> taken is Ok && final(archive)@ == with_entry(
            old(archive)@,
            (EntryView { has_stream: false, ..entry@ }),
        ),
        !no_zero_unit(entry.name@) ==> taken == Err::<(), Error>(bad_name()) && *final(archive)
            == *old(archive),
        archive_wf(old(archive)@) ==> archive_wf(final(archive)@),
{
    if !name_is_clean(&entry.name) {
        return Err(Error::other("A name holds a zero unit"));
    }
    let mut staged = entry;
    staged.has_stream = false;
    archive.files.push(staged);
    let files: usize = archive.files.len();
    proof {
        let before = old(archive)@;
        let after = archive@;
        assert(after.files.len() == files);
        assert(after.files =~= before.files.push(staged@));
        assert(after.blocks =~= before.blocks);
        assert(after == with_entry(before, staged@));
        if archive_wf(before) {
            reveal(archive_wf);
            reveal(files_wf);
            reveal(names_wf);
            assert(after.files.drop_last() =~= before.files);
            assert forall|i: int| 0 <= i < after.files.len() implies no_zero_unit(
                #[trigger] after.files[i].name,
            ) && !after.files[i].has_stream || (i < before.files.len() && after.files[i]
                == before.files[i]) by {
                if i < before.files.len() {
                    assert(after.files[i] == before.files[i]);
                }
            }
            assert(files_wf(after.files));
            assert(streams_wf(after)) by {
                reveal(streams_wf);
            }
        }
    }
    Ok(())
}

/// Entries that all have a stream count as many files with a stream as they are.
pub proof fn lemma_files_with_stream_adds(files: Seq<EntryView>, more: Seq<EntryView>)
    requires
        forall|i: int| 0 <= i < more.len() ==> (#[trigger] more[i]).has_stream,
    ensures
        files_with_stream(files + more) == files_with_stream(files) + more.len(),
    decreases more.len(),
{
    if more.len() == 0 {
        assert(files + more =~= files);
    } else {
        lemma_files_with_stream_adds(files, more.drop_last());
        assert((files + more).drop_last() =~= files + more.drop_last());
        assert((files + more).last() == more.last());
    }
}

/// Tells whether the entries can be the files of a block with the sizes given.
fn entries_fit(entries: &Vec<ArchiveEntry>, sizes: &Vec<u64>) -> (fit: bool)
    requires
        entries@.len() == sizes@.len(),
    ensures
        fit == forall|i: int|
            0 <= i < entries@.len() ==> entry_fits(#[trigger] views_of(entries@)[i], sizes@[i]),
{
    let mut i: usize = 0;
    while i < entries.len()
        invariant
            i <= entries.len() == sizes.len(),
            forall|k: int| 0 <= k < i ==> entry_fits(#[trigger] views_of(entries@)[k], sizes@[k]),
        decreases entries.len() - i,
    {
        let entry = &entries[i];
        if sizes[i] == 0 || entry.is_directory || entry.is_anti_item || !name_is_clean(
            &entry.name,
        ) {
            assert(!entry_fits(views_of(entries@)[i as int], sizes@[i as int]));
            return false;
        }
        i += 1;
    }
    true
}

/// The CRCs, each declared.
fn declare(crcs: &Vec<u32>) -> (made: Vec<Option<u32>>)
    ensures
        made@ == declared(crcs@),
{
    let mut made: Vec<Option<u32>> = Vec::new();
    let mut i: usize = 0;
    while i < crcs.len()
        invariant
            i <= crcs.len(),
            made@.len() == i,
            forall|k: int| 0 <= k < i ==> made@[k] == Some(crcs@[k]),
        decreases crcs.len() - i,
    {
        made.push(Some(crcs[i]));
        i += 1;
    }
    assert(made@ =~= declared(crcs@));
    made
}

/// Gives each of the entries a stream.
fn give_streams(entries: &mut Vec<ArchiveEntry>)
    ensures
        views_of(final(entries)@) == with_streams(views_of(old(entries)@)),
{
    let mut i: usize = 0;
    while i < entries.len()
        invariant
            i <= entries.len() == old(entries).len(),
            forall|k: int|
                0 <= k < i ==> (#[trigger] entries@[k])@ == (EntryView {
                    has_stream: true,
                    ..old(entries)@[k]@
                }),
            forall|k: int| i <= k < entries.len() ==> entries@[k] == old(entries)@[k],
        decreases entries.len() - i,
    {
        entries[i].has_stream = true;
        i += 1;
    }
    assert(views_of(entries@) =~= with_streams(views_of(old(entries)@)));
}

/// Takes a block into an archive: the block that the chain `methods` has written,
/// with its pack stream of `pack_size` bytes and the CRC `pack_crc`, and the
/// entries whose bytes it holds, in their order.
///
/// `unpack_sizes` has for each coder the size of what its decoder gives, `sizes`
/// and `crcs` have the size and the CRC of each entry, and `content_crc` is the CRC
/// of the output of the block. A chain of no coders or too many, sizes that are not
/// one for each coder, and a block that does not hold what its entries state are
/// refused, and the archive is left as it was.
pub fn push_block(
    archive: &mut Archive,
    methods: &Vec<EncoderConfiguration>,
    entries: Vec<ArchiveEntry>,
    sizes: Vec<u64>,
    crcs: Vec<u32>,
    unpack_sizes: Vec<u64>,
    content_crc: u32,
    pack_size: u64,
    pack_crc: u32,
) -> (taken: Result<(), Error>)
    requires
        methods_wf(methods@),
    ensures
        methods@.len() == 0 || methods@.len() > MAX_CODERS ==> taken == Err::<(), Error>(
            bad_chain(),
        ),
        1 <= methods@.len() <= MAX_CODERS && unpack_sizes@.len() != methods@.len() ==> taken
            == Err::<(), Error>(bad_sizes()),
        1 <= methods@.len() <= MAX_CODERS && unpack_sizes@.len() == methods@.len() && !block_fits(
            views_of(entries@),
            sizes@,
            crcs@,
            unpack_sizes@,
            content_crc,
        ) ==> taken == Err::<(), Error>(bad_block()),
        1 <= methods@.len() <= MAX_CODERS && unpack_sizes@.len() == methods@.len() && block_fits(
            views_of(entries@),
            sizes@,
            crcs@,
            unpack_sizes@,
            content_crc,
        ) ==> taken is Ok && final(archive)@ == with_block(
            old(archive)@,
            chain_block_of(
                methods@,
                unpack_sizes@,
                Some(content_crc),
                sizes@,
                declared(crcs@),
            ),
            with_streams(views_of(entries@)),
            pack_size,
            pack_crc,
        ),
        taken is Err ==> *final(archive) == *old(archive),
        archive_wf(old(archive)@) ==> archive_wf(final(archive)@),
{
    let count: usize = methods.len();
    if count == 0 || count > MAX_CODERS as usize {
        return Err(Error::other("A block needs between 1 and 32 coders"));
    }
    if unpack_sizes.len() != count {
        return Err(Error::other("Sizes and coders, or sizes and CRCs, do not match"));
    }
    let files: usize = entries.len();
    if files == 0 || sizes.len() != files || crcs.len() != files {
        return Err(Error::other("A block does not hold what its entries state"));
    }
    if !entries_fit(&entries, &sizes) {
        return Err(Error::other("A block does not hold what its entries state"));
    }
    assert(sizes@.take(files as int) =~= sizes@);
    match sum_before(&sizes, files, 0) {
        Some(total) => {
            if total != unpack_sizes[count - 1] {
                return Err(Error::other("A block does not hold what its entries state"));
            }
        },
        None => {
            return Err(Error::other("A block does not hold what its entries state"));
        },
    }
    if files == 1 && crcs[0] != content_crc {
        return Err(Error::other("A block does not hold what its entries state"));
    }
    let ghost given = views_of(entries@);
    let ghost stated = sizes@;
    let ghost outputs = unpack_sizes@;
    let file_crcs = declare(&crcs);
    let block = match chain_block(methods, unpack_sizes, Some(content_crc), sizes, file_crcs) {
        Ok(block) => block,
        Err(e) => {
            return Err(e);
        },
    };
    let mut entries = entries;
    give_streams(&mut entries);
    let ghost staged = views_of(entries@);
    archive.files.append(&mut entries);
    archive.blocks.push(block);
    archive.pack_sizes.push(pack_size);
    archive.pack_crcs.push(Some(pack_crc));
    let all_files: usize = archive.files.len();
    let all_blocks: usize = archive.blocks.len();
    let all_packs: usize = archive.pack_sizes.len();
    proof {
        let before = old(archive)@;
        let after = archive@;
        assert(after.blocks.len() == all_blocks);
        assert(after.pack_sizes.len() == all_packs);
        assert(after.files.len() == all_files);
        assert(after.files =~= before.files + staged);
        assert(after.blocks =~= before.blocks.push(block@));
        assert(after == with_block(before, block@, staged, pack_size, pack_crc));
        if archive_wf(before) {
            lemma_block_keeps_archive(before, methods@, block@, staged, pack_size, pack_crc);
        }
    }
    Ok(())
}

/// An archive that can be written and read back can still be, once it has taken a
/// block that a chain has made and the files of the block.
pub proof fn lemma_block_keeps_archive(
    archive: ArchiveView,
    methods: Seq<EncoderConfiguration>,
    block: BlockView,
    files: Seq<EntryView>,
    pack_size: u64,
    pack_crc: u32,
)
    requires
        archive_wf(archive),
        archive.blocks.len() < u64::MAX,
        archive.pack_sizes.len() < u64::MAX,
        archive.files.len() + files.len() <= u64::MAX,
        1 <= methods.len() <= MAX_CODERS,
        block == chain_block_of(
            methods,
            block.unpack_sizes,
            block.crc,
            block.substream_sizes,
            block.substream_crcs,
        ),
        block.unpack_sizes.len() == methods.len(),
        block.substream_sizes.len() == files.len(),
        block.substream_crcs.len() == files.len(),
        files.len() >= 1,
        sum(block.substream_sizes) == block.unpack_sizes.last(),
        files.len() == 1 && block.crc is Some ==> block.substream_crcs[0] == block.crc,
        forall|i: int|
            0 <= i < files.len() ==> (#[trigger] files[i]).has_stream && !files[i].is_directory
                && !files[i].is_anti_item && no_zero_unit(files[i].name),
    ensures
        archive_wf(with_block(archive, block, files, pack_size, pack_crc)),
{
    reveal(archive_wf);
    reveal(streams_wf);
    reveal(pipelines_wf);
    reveal(sizes_wf);
    reveal(divisions_wf);
    reveal(files_wf);
    reveal(names_wf);
    let after = with_block(archive, block, files, pack_size, pack_crc);
    lemma_chain_block(block, methods);
    lemma_simple_totals(block.coders);
    assert(division_wf(block));
    assert forall|i: int| 0 <= i < after.blocks.len() implies pipeline_wf(
        #[trigger] after.blocks[i],
    ) && division_wf(after.blocks[i]) && after.blocks[i].unpack_sizes.len()
        == crate::header_parse::total_out(after.blocks[i].coders) by {
        if i < archive.blocks.len() {
            assert(after.blocks[i] == archive.blocks[i]);
        }
    }
    assert(after.blocks.drop_last() =~= archive.blocks);
    lemma_files_with_stream_adds(archive.files, files);
    assert(streams_wf(after));
    assert(files_wf(after.files));
}

/// The CRCs of the contents of files.
pub open spec fn crcs_of(contents: Seq<Seq<u8>>) -> Seq<u32> {
    Seq::new(contents.len(), |i: int| crc32(contents[i]))
}

/// The block that is taken for files of the contents `contents`, stated with their
/// lengths and CRCs, gives each file its content back wherever the coders of the
/// block give back what was written through them: the output of the block is then
/// the contents, one after the other.
pub proof fn lemma_written_block_reads_back(
    methods: Seq<EncoderConfiguration>,
    unpack_sizes: Seq<u64>,
    content_crc: u32,
    contents: Seq<Seq<u8>>,
    place: int,
)
    requires
        forall|i: int| 0 <= i < contents.len() ==> (#[trigger] contents[i]).len() <= u64::MAX,
        flat(contents).len() <= u64::MAX,
        0 <= place < contents.len(),
    ensures
        block_entry_of(
            chain_block_of(
                methods,
                unpack_sizes,
                Some(content_crc),
                lengths(contents),
                declared(crcs_of(contents)),
            ),
            flat(contents),
            place,
        ) == Ok::<Seq<u8>, Error>(contents[place]),
{
    let block = chain_block_of(
        methods,
        unpack_sizes,
        Some(content_crc),
        lengths(contents),
        declared(crcs_of(contents)),
    );
    assert(divides(block, contents));
    lemma_entries_read_back(block, contents, place);
}

/// The contents as sequences of bytes.
pub open spec fn content_views(contents: Seq<Vec<u8>>) -> Seq<Seq<u8>> {
    Seq::new(contents.len(), |i: int| contents[i]@)
}

/// For each coder of a chain that encodes `data`, the number of bytes that its
/// decoder has to give: what the coder was given to encode.
pub open spec fn unpack_sizes_of(methods: Seq<EncoderConfiguration>, data: Seq<u8>) -> Seq<u64> {
    Seq::new(methods.len(), |i: int| encoded_from(methods, data, i + 1).len() as u64)
}

/// Whether entries with the contents `contents` can be the files of one block: there
/// is at least one, each has a content of its own that is not empty, is neither a
/// directory nor an anti-item and has a name without a zero unit, and the contents
/// together are no more than 64 bits can count.
pub open spec fn can_be_packed(entries: Seq<EntryView>, contents: Seq<Seq<u8>>) -> bool {
    &&& entries.len() >= 1
    &&& contents.len() == entries.len()
    &&& forall|i: int|
        0 <= i < entries.len() ==> (#[trigger] contents[i]).len() <= u64::MAX && entry_fits(
            entries[i],
            contents[i].len() as u64,
        )
    &&& flat(contents).len() <= u64::MAX
}

/// Whether entries with the contents `contents` are what one block is written for:
/// there is at least one, and each has a content of its own that is not empty, is
/// neither a directory nor an anti-item and has a name without a zero unit.
pub open spec fn fit_a_block(entries: Seq<EntryView>, contents: Seq<Seq<u8>>) -> bool {
    &&& entries.len() >= 1
    &&& contents.len() == entries.len()
    &&& forall|i: int|
        0 <= i < entries.len() ==> (#[trigger] contents[i]).len() > 0 && !entries[i].is_directory
            && !entries[i].is_anti_item && no_zero_unit(entries[i].name)
}

/// Whether entries with the contents `contents` are what a group is written for:
/// each has a content of its own and a name without a zero unit, and those that
/// have bytes are neither directories nor anti-items.
pub open spec fn fit_a_group(entries: Seq<EntryView>, contents: Seq<Seq<u8>>) -> bool {
    &&& contents.len() == entries.len()
    &&& forall|i: int|
        0 <= i < entries.len() ==> no_zero_unit((#[trigger] entries[i]).name) && (
        contents[i].len() > 0 ==> !entries[i].is_directory && !entries[i].is_anti_item)
}

/// Whether a block is written for entries of the contents `contents`: the chain has
/// between 1 and 32 methods, an encoder is made for each, the codec of each takes
/// what it is given, and the entries fit a block.
pub open spec fn block_writes(
    methods: Seq<EncoderConfiguration>,
    entries: Seq<EntryView>,
    contents: Seq<Seq<u8>>,
) -> bool {
    &&& 1 <= methods.len() <= MAX_CODERS
    &&& first_bad_method(methods, 0) is None
    &&& encodes_from(methods, flat(contents), 0)
    &&& fit_a_block(entries, contents)
}

/// Whether a group of entries of the contents `contents` is written: each of its
/// blocks is written, and the entries without content have names without a zero
/// unit.
pub open spec fn group_writes(
    methods: Seq<EncoderConfiguration>,
    solid: bool,
    entries: Seq<EntryView>,
    contents: Seq<Seq<u8>>,
) -> bool {
    let plan = blocks_of(solid, lengths(contents));
    &&& contents.len() == entries.len()
    &&& forall|b: int|
        0 <= b < plan.len() ==> block_writes(
            methods,
            chosen(entries, #[trigger] plan[b]),
            chosen(contents, plan[b]),
        )
    &&& forall|i: int|
        0 <= i < entries.len() && (#[trigger] contents[i]).len() == 0 ==> no_zero_unit(
            entries[i].name,
        )
}

/// Whether none of the contents has bytes.
pub open spec fn no_content(contents: Seq<Seq<u8>>) -> bool {
    forall|i: int| 0 <= i < contents.len() ==> (#[trigger] contents[i]).len() == 0
}

/// Whether a chain of methods is one that encodes without a codec of another crate:
/// it has between 1 and 32 methods, an encoder is made for each, and each is Copy or
/// AES.
pub open spec fn is_own_chain(methods: Seq<EncoderConfiguration>) -> bool {
    &&& 1 <= methods.len() <= MAX_CODERS
    &&& first_bad_method(methods, 0) is None
    &&& all_own_methods(methods)
}

/// The archive with one more block, written by the chain `methods` for entries of
/// the contents `contents`.
pub open spec fn with_written_block(
    archive: ArchiveView,
    methods: Seq<EncoderConfiguration>,
    entries: Seq<EntryView>,
    contents: Seq<Seq<u8>>,
) -> ArchiveView {
    let data = flat(contents);
    let packed = encoded_from(methods, data, 0);
    with_block(
        archive,
        chain_block_of(
            methods,
            unpack_sizes_of(methods, data),
            Some(crc32(data)),
            lengths(contents),
            declared(crcs_of(contents)),
        ),
        with_streams(entries),
        packed.len() as u64,
        crc32(packed),
    )
}

/// The contents one after the other, with the length and the CRC of each.
fn gather(contents: &Vec<Vec<u8>>) -> (found: (Vec<u8>, Vec<u64>, Vec<u32>))
    ensures
        found.0@ == flat(content_views(contents@)),
        found.1@ == lengths(content_views(contents@)),
        found.2@ == crcs_of(content_views(contents@)),
        forall|j: int|
            0 <= j < contents@.len() ==> (#[trigger] content_views(contents@)[j]).len()
                <= usize::MAX,
{
    let ghost views = content_views(contents@);
    let mut data: Vec<u8> = Vec::new();
    let mut sizes: Vec<u64> = Vec::new();
    let mut crcs: Vec<u32> = Vec::new();
    let mut i: usize = 0;
    assert(views.take(0) =~= Seq::<Seq<u8>>::empty());
    while i < contents.len()
        invariant
            i <= contents.len(),
            views == content_views(contents@),
            data@ == flat(views.take(i as int)),
            sizes@.len() == i,
            crcs@.len() == i,
            forall|j: int| 0 <= j < i ==> sizes@[j] == views[j].len() as u64,
            forall|j: int| 0 <= j < i ==> crcs@[j] == crc32(views[j]),
            forall|j: int| 0 <= j < i ==> (#[trigger] views[j]).len() <= usize::MAX,
        decreases contents.len() - i,
    {
        let content = contents[i].as_slice();
        assert(content@ == views[i as int]);
        crate::buf::append(&mut data, content);
        sizes.push(content.len() as u64);
        crcs.push(crc32_of(content));
        proof {
            assert(views.take(i + 1).drop_last() =~= views.take(i as int));
            assert(views.take(i + 1).last() == views[i as int]);
        }
        i += 1;
    }
    assert(views.take(contents.len() as int) =~= views);
    assert(sizes@ =~= lengths(views));
    assert(crcs@ =~= crcs_of(views));
    (data, sizes, crcs)
}

/// Writes a block: the contents of the entries, one after the other, are encoded
/// through the chain `methods`, the pack stream joins `pack`, and the archive takes
/// the block and its entries with the sizes and the CRCs of what was written.
///
/// A chain with a method for which no encoder is made is refused, and so is what
/// [`push_block`] refuses. A chain that encodes without a codec of another crate
/// writes every block whose entries fit it. Where writing fails, the archive and the
/// pack streams are left as they were.
pub fn write_block(
    archive: &mut Archive,
    pack: &mut Vec<u8>,
    methods: &Vec<EncoderConfiguration>,
    entries: Vec<ArchiveEntry>,
    contents: &Vec<Vec<u8>>,
) -> (written: Result<(), Error>)
    requires
        methods_wf(methods@),
    ensures
        archive_wf(old(archive)@) ==> archive_wf(final(archive)@),
        written is Err ==> *final(archive) == *old(archive) && final(pack)@ == old(pack)@,
        first_bad_method(methods@, 0) matches Some(i) ==> written == Err::<(), Error>(
            config_refusal(methods@[i])->0,
        ),
        written is Ok ==> {
            &&& final(pack)@ == old(pack)@ + encoded_from(
                methods@,
                flat(content_views(contents@)),
                0,
            )
            &&& final(archive)@ == with_written_block(
                old(archive)@,
                methods@,
                views_of(entries@),
                content_views(contents@),
            )
        },
        written is Ok <==> block_writes(
            methods@,
            views_of(entries@),
            content_views(contents@),
        ),
        is_own_chain(methods@) && fit_a_block(views_of(entries@), content_views(contents@))
            ==> written is Ok,
{
    let (data, sizes, crcs) = gather(contents);
    let ghost views = content_views(contents@);
    let total: usize = data.len();
    let (packed, unpack_sizes) = match encode_block(methods, data.as_slice()) {
        Ok(encoded) => encoded,
        Err(e) => {
            return Err(e);
        },
    };
    let content_crc = crc32_of(data.as_slice());
    let pack_crc = crc32_of(packed.as_slice());
    proof {
        assert(unpack_sizes@ =~= unpack_sizes_of(methods@, data@));
        if block_fits(views_of(entries@), sizes@, crcs@, unpack_sizes@, content_crc) {
            assert forall|i: int| 0 <= i < views.len() implies (#[trigger] views[i]).len() > 0
                && !views_of(entries@)[i].is_directory && !views_of(entries@)[i].is_anti_item
                && no_zero_unit(views_of(entries@)[i].name) by {
                assert(entry_fits(views_of(entries@)[i], sizes@[i]));
                assert(sizes@[i] == views[i].len() as u64);
            }
            assert(fit_a_block(views_of(entries@), views));
        }
        if is_own_chain(methods@) {
            lemma_own_chain_encodes(methods@, data@, 0);
        }
        if 1 <= methods@.len() <= MAX_CODERS && fit_a_block(views_of(entries@), views) {
            assert(flat(views).len() == total);
            assert forall|i: int| 0 <= i < views.len() implies (#[trigger] views[i]).len()
                <= u64::MAX && entry_fits(views_of(entries@)[i], views[i].len() as u64) by {
                assert(views[i].len() <= usize::MAX);
            }
            assert(can_be_packed(views_of(entries@), views));
            lemma_flat_len(views);
            assert(unpack_sizes@.last() == data@.len() as u64);
            if views.len() == 1 {
                assert(views.drop_last() =~= Seq::<Seq<u8>>::empty());
                assert(flat(views.drop_last()) =~= Seq::<u8>::empty());
                assert(views.last() == views[0]);
                assert(flat(views) =~= views[0]);
            }
            assert(block_fits(views_of(entries@), sizes@, crcs@, unpack_sizes@, content_crc));
        }
    }
    match push_block(
        archive,
        methods,
        entries,
        sizes,
        crcs,
        unpack_sizes,
        content_crc,
        packed.len() as u64,
        pack_crc,
    ) {
        Ok(()) => {},
        Err(e) => {
            return Err(e);
        },
    }
    crate::buf::append(pack, packed.as_slice());
    Ok(())
}

/// The items of the places `block`, in the order of the places.
pub open spec fn chosen<T>(items: Seq<T>, block: Seq<int>) -> Seq<T> {
    Seq::new(block.len(), |i: int| items[block[i]])
}

/// The archive after the first `count` blocks of the plan `plan` were written for
/// entries of the contents `contents`.
pub open spec fn blocks_written(
    archive: ArchiveView,
    methods: Seq<EncoderConfiguration>,
    entries: Seq<EntryView>,
    contents: Seq<Seq<u8>>,
    plan: Seq<Seq<int>>,
    count: nat,
) -> ArchiveView
    decreases count,
{
    if count == 0 {
        archive
    } else {
        with_written_block(
            blocks_written(archive, methods, entries, contents, plan, (count - 1) as nat),
            methods,
            chosen(entries, plan[count - 1]),
            chosen(contents, plan[count - 1]),
        )
    }
}

/// The pack streams after the first `count` blocks of the plan `plan` were written.
pub open spec fn packs_written(
    pack: Seq<u8>,
    methods: Seq<EncoderConfiguration>,
    contents: Seq<Seq<u8>>,
    plan: Seq<Seq<int>>,
    count: nat,
) -> Seq<u8>
    decreases count,
{
    if count == 0 {
        pack
    } else {
        packs_written(pack, methods, contents, plan, (count - 1) as nat) + encoded_from(
            methods,
            flat(chosen(contents, plan[count - 1])),
            0,
        )
    }
}

/// The archive after those of the first `upto` entries that have no content were
/// taken, each without a stream.
pub open spec fn streamless_taken(
    archive: ArchiveView,
    entries: Seq<EntryView>,
    contents: Seq<Seq<u8>>,
    upto: nat,
) -> ArchiveView
    decreases upto,
{
    if upto == 0 {
        archive
    } else {
        let before = streamless_taken(archive, entries, contents, (upto - 1) as nat);
        if contents[upto - 1].len() == 0 {
            with_entry(before, (EntryView { has_stream: false, ..entries[upto - 1] }))
        } else {
            before
        }
    }
}

/// A copy of an entry.
fn copy_entry(entry: &ArchiveEntry) -> (copy: ArchiveEntry)
    ensures
        copy@ == entry@,
{
    let mut name: Vec<u16> = Vec::new();
    let mut i: usize = 0;
    while i < entry.name.len()
        invariant
            i <= entry.name.len(),
            name@ == entry.name@.take(i as int),
        decreases entry.name.len() - i,
    {
        name.push(entry.name[i]);
        assert(name@ =~= entry.name@.take(i + 1));
        i += 1;
    }
    assert(name@ =~= entry.name@);
    ArchiveEntry {
        name,
        has_stream: entry.has_stream,
        is_directory: entry.is_directory,
        is_anti_item: entry.is_anti_item,
        creation_date: entry.creation_date,
        access_date: entry.access_date,
        last_modified_date: entry.last_modified_date,
        windows_attributes: entry.windows_attributes,
    }
}

/// The entries and the contents of the places `block`, in the order of the places.
fn pick(entries: &Vec<ArchiveEntry>, contents: &Vec<Vec<u8>>, block: &Vec<usize>) -> (picked: (
    Vec<ArchiveEntry>,
    Vec<Vec<u8>>,
))
    requires
        entries@.len() == contents@.len(),
        forall|i: int| 0 <= i < block@.len() ==> (#[trigger] block@[i]) < entries@.len(),
    ensures
        views_of(picked.0@) == chosen(
            views_of(entries@),
            Seq::new(block@.len(), |i: int| block@[i] as int),
        ),
        content_views(picked.1@) == chosen(
            content_views(contents@),
            Seq::new(block@.len(), |i: int| block@[i] as int),
        ),
{
    let mut files: Vec<ArchiveEntry> = Vec::new();
    let mut parts: Vec<Vec<u8>> = Vec::new();
    let mut i: usize = 0;
    while i < block.len()
        invariant
            i <= block.len(),
            entries@.len() == contents@.len(),
            forall|j: int| 0 <= j < block@.len() ==> (#[trigger] block@[j]) < entries@.len(),
            files@.len() == i,
            parts@.len() == i,
            forall|j: int| 0 <= j < i ==> (#[trigger] files@[j])@ == entries@[block@[j] as int]@,
            forall|j: int| 0 <= j < i ==> (#[trigger] parts@[j])@ == contents@[block@[j] as int]@,
        decreases block.len() - i,
    {
        let index: usize = block[i];
        files.push(copy_entry(&entries[index]));
        let content = contents[index].as_slice();
        parts.push(crate::buf::copy_range(content, 0, content.len()));
        assert(parts@[i as int]@ =~= contents@[index as int]@);
        i += 1;
    }
    assert(views_of(files@) =~= chosen(
        views_of(entries@),
        Seq::new(block@.len(), |i: int| block@[i] as int),
    ));
    assert(content_views(parts@) =~= chosen(
        content_views(contents@),
        Seq::new(block@.len(), |i: int| block@[i] as int),
    ));
    (files, parts)
}

/// The number of bytes of each of the contents.
fn content_sizes(contents: &Vec<Vec<u8>>) -> (sizes: Vec<u64>)
    ensures
        sizes@ == lengths(content_views(contents@)),
{
    let mut sizes: Vec<u64> = Vec::new();
    let mut i: usize = 0;
    while i < contents.len()
        invariant
            i <= contents.len(),
            sizes@.len() == i,
            forall|j: int| 0 <= j < i ==> sizes@[j] == contents@[j]@.len() as u64,
        decreases contents.len() - i,
    {
        sizes.push(contents[i].len() as u64);
        i += 1;
    }
    assert(sizes@ =~= lengths(content_views(contents@)));
    sizes
}

/// Writes a group of entries: the entries that have content are divided among
/// blocks, which are written in their order, each through the chain `methods`; then
/// the entries without content are taken, each without a stream.
///
/// With `solid` the entries share blocks as far as the cap on a block allows;
/// without, each entry that has content gets a block of its own. Entries and
/// contents that are not as many as each other are refused. A group whose entries
/// fit it is written wherever no codec of another crate is asked: where the chain
/// encodes without one, or no entry has content. Where writing fails, what was
/// written before stays written.
pub fn write_group(
    archive: &mut Archive,
    pack: &mut Vec<u8>,
    methods: &Vec<EncoderConfiguration>,
    solid: bool,
    entries: &Vec<ArchiveEntry>,
    contents: &Vec<Vec<u8>>,
) -> (written: Result<(), Error>)
    requires
        methods_wf(methods@),
    ensures
        archive_wf(old(archive)@) ==> archive_wf(final(archive)@),
        entries@.len() != contents@.len() ==> written == Err::<(), Error>(bad_block())
            && *final(archive) == *old(archive) && final(pack)@ == old(pack)@,
        written is Ok ==> ({
            let files = views_of(entries@);
            let parts = content_views(contents@);
            let plan = blocks_of(solid, lengths(parts));
            &&& final(archive)@ == streamless_taken(
                blocks_written(old(archive)@, methods@, files, parts, plan, plan.len()),
                files,
                parts,
                files.len(),
            )
            &&& final(pack)@ == packs_written(old(pack)@, methods@, parts, plan, plan.len())
        }),
        written is Ok <==> group_writes(
            methods@,
            solid,
            views_of(entries@),
            content_views(contents@),
        ),
        fit_a_group(views_of(entries@), content_views(contents@)) && (is_own_chain(methods@)
            || no_content(content_views(contents@))) ==> written is Ok,
{
    if entries.len() != contents.len() {
        return Err(Error::other("A block does not hold what its entries state"));
    }
    let ghost files = views_of(entries@);
    let ghost parts = content_views(contents@);
    let ghost owed = fit_a_group(files, parts) && (is_own_chain(methods@) || no_content(parts));
    let sizes = content_sizes(contents);
    let blocks = group_entries(solid, sizes.as_slice());
    let ghost plan = blocks_of(solid, lengths(parts));
    proof {
        lemma_blocks_within_cap(solid, sizes@);
        if no_content(parts) {
            assert forall|i: int| 0 <= i < sizes@.len() implies sizes@[i] == 0 by {
                assert(parts[i].len() == 0);
            }
            lemma_no_blocks_without_bytes(solid, sizes@, sizes@.len());
        }
    }
    let mut b: usize = 0;
    while b < blocks.len()
        invariant
            b <= blocks.len() == plan.len(),
            methods_wf(methods@),
            entries@.len() == contents@.len(),
            files == views_of(entries@),
            parts == content_views(contents@),
            sizes@ == lengths(parts),
            plan == blocks_of(solid, lengths(parts)),
            blocks_view(blocks@) == plan,
            forall|k: int|
                0 <= k < plan.len() ==> block_inv(sizes@, sizes@.len(), #[trigger] plan[k]),
            archive_wf(old(archive)@) ==> archive_wf(archive@),
            archive@ == blocks_written(old(archive)@, methods@, files, parts, plan, b as nat),
            pack@ == packs_written(old(pack)@, methods@, parts, plan, b as nat),
            owed == (fit_a_group(files, parts) && (is_own_chain(methods@) || no_content(parts))),
            owed ==> is_own_chain(methods@) || plan.len() == 0,
            forall|k: int| 0 <= k < plan.len() ==> (#[trigger] plan[k]).len() > 0,
            forall|k: int|
                0 <= k < b ==> block_writes(
                    methods@,
                    chosen(files, #[trigger] plan[k]),
                    chosen(parts, plan[k]),
                ),
        decreases blocks.len() - b,
    {
        let block = &blocks[b];
        proof {
            assert(blocks_view(blocks@)[b as int] == plan[b as int]);
            assert(block_inv(sizes@, sizes@.len(), plan[b as int]));
            assert forall|i: int| 0 <= i < block@.len() implies (#[trigger] block@[i])
                < entries@.len() by {
                assert(plan[b as int][i] == block@[i] as int);
            }
            assert(Seq::new(block@.len(), |i: int| block@[i] as int) =~= plan[b as int]);
            if owed {
                let taken = chosen(files, plan[b as int]);
                let held = chosen(parts, plan[b as int]);
                assert(plan[b as int].len() > 0);
                assert forall|i: int| 0 <= i < taken.len() implies (#[trigger] held[i]).len() > 0
                    && !taken[i].is_directory && !taken[i].is_anti_item && no_zero_unit(
                    taken[i].name,
                ) by {
                    let place = plan[b as int][i];
                    assert(sizes@[place] > 0);
                    assert(sizes@[place] == parts[place].len() as u64);
                    assert(no_zero_unit(files[place].name));
                }
                assert(fit_a_block(taken, held));
            }
        }
        let (group, group_contents) = pick(entries, contents, block);
        match write_block(archive, pack, methods, group, &group_contents) {
            Ok(()) => {},
            Err(e) => {
                return Err(e);
            },
        }
        b += 1;
    }
    let ghost with_blocks = archive@;
    let mut i: usize = 0;
    while i < entries.len()
        invariant
            i <= entries.len() == contents@.len(),
            files == views_of(entries@),
            parts == content_views(contents@),
            plan == blocks_of(solid, lengths(parts)),
            forall|k: int|
                0 <= k < plan.len() ==> block_writes(
                    methods@,
                    chosen(files, #[trigger] plan[k]),
                    chosen(parts, plan[k]),
                ),
            forall|j: int|
                0 <= j < i && (#[trigger] parts[j]).len() == 0 ==> no_zero_unit(files[j].name),
            archive_wf(old(archive)@) ==> archive_wf(archive@),
            archive@ == streamless_taken(with_blocks, files, parts, i as nat),
            owed == (fit_a_group(files, parts) && (is_own_chain(methods@) || no_content(parts))),
        decreases entries.len() - i,
    {
        assert(parts[i as int] == contents@[i as int]@);
        if contents[i].len() == 0 {
            assert(files[i as int] == entries@[i as int]@);
            assert(owed ==> no_zero_unit(files[i as int].name));
            match push_entry(archive, copy_entry(&entries[i])) {
                Ok(()) => {},
                Err(e) => {
                    return Err(e);
                },
            }
        }
        i += 1;
    }
    Ok(())
}

} // verus!
