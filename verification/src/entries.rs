//! Reading the entries of an archive: each entry has its bytes in at most one block,
//! at one place among the files of the block; a block is decoded once, and its
//! entries are cut out of its output in the order in which the archive lists them.

use vstd::prelude::*;

use crate::archive::{Archive, ArchiveView, BlockView};
use crate::crc::crc32;
use crate::entry_laws::{lemma_place_is_found, lemma_stream_files_ascend};
use crate::error::Error;
use crate::header_parse::files_in_blocks;
use crate::password::Password;
use crate::pipeline::{decoded_block, is_fixed_block};
use crate::reader::{
    block_entries, block_entry_of, entries_of_block, is_block_read, is_first_place_of, is_place_of,
    locate_entry, pack_of, place_of, read_block, read_block_entry, stream_files,
};

verus! {

/// The failure of an entry that the archive does not list.
pub open spec fn no_entry() -> Error {
    Error::Other("No such entry")
}

/// Whether `out` is what cutting the file `place` out of what reading its block gave
/// owes: a failure of reading the block stays, and so does one of cutting.
pub open spec fn is_cut(
    out: Result<Vec<u8>, Error>,
    read: Result<Vec<u8>, Error>,
    block: BlockView,
    place: int,
) -> bool {
    match read {
        Err(e) => out == Err::<Vec<u8>, Error>(e),
        Ok(output) => match block_entry_of(block, output@, place) {
            Ok(data) => out matches Ok(got) && got@ == data,
            Err(e) => out == Err::<Vec<u8>, Error>(e),
        },
    }
}

/// Whether `out` is what reading the entry `file` of an archive owes: an entry that
/// has its bytes in no block has none, and any other has the bytes that are cut out
/// of what reading its block gives, at its place in the block.
pub open spec fn is_entry_read(
    out: Result<Vec<u8>, Error>,
    bytes: Seq<u8>,
    archive: ArchiveView,
    file: int,
    password: Seq<u8>,
    max_mem_limit_kb: usize,
    threads: u32,
) -> bool {
    match place_of(archive, file) {
        None => out matches Ok(data) && data@.len() == 0,
        Some((block, place)) => exists|read: Result<Vec<u8>, Error>| #[trigger]
            is_block_read(read, bytes, archive, block, password, max_mem_limit_kb, threads)
                && is_cut(out, read, archive.blocks[block], place),
    }
}

/// What reading the block `block` gives, where it gives anything: its pack stream
/// passes against its CRC, the block decodes, and the output passes against the CRC
/// of the block. It says so only of a block whose outcome is fixed by its input.
pub open spec fn block_output(
    bytes: Seq<u8>,
    archive: ArchiveView,
    block: int,
    password: Seq<u8>,
    max_mem_limit_kb: usize,
    threads: u32,
) -> Option<Seq<u8>> {
    match pack_of(bytes, archive, block) {
        Err(_) => None,
        Ok(packed) => match decoded_block(
            archive.blocks[block],
            packed,
            password,
            max_mem_limit_kb,
            threads,
        ) {
            None => None,
            Some(output) => if archive.blocks[block].crc is Some && archive.blocks[block].crc->0
                != crc32(output) {
                None
            } else {
                Some(output)
            },
        },
    }
}

/// The bytes of the entry `file`, where reading the entry gives any: none for an
/// entry without a block; else what is cut out of the output of its block, where the
/// block is read and the bytes pass against the CRC of the entry.
pub open spec fn entry_content(
    bytes: Seq<u8>,
    archive: ArchiveView,
    file: int,
    password: Seq<u8>,
    max_mem_limit_kb: usize,
    threads: u32,
) -> Option<Seq<u8>> {
    match place_of(archive, file) {
        None => Some(Seq::empty()),
        Some((block, place)) => match block_output(
            bytes,
            archive,
            block,
            password,
            max_mem_limit_kb,
            threads,
        ) {
            None => None,
            Some(output) => match block_entry_of(archive.blocks[block], output, place) {
                Ok(data) => Some(data),
                Err(_) => None,
            },
        },
    }
}

/// Whether what decoding gives is fixed by its input for every block of the archive.
pub open spec fn all_fixed(archive: ArchiveView, threads: u32) -> bool {
    forall|b: int|
        0 <= b < archive.blocks.len() ==> is_fixed_block(#[trigger] archive.blocks[b], threads)
}

/// Whether `out` is what reading every entry of an archive owes: the bytes of each
/// entry, in the order of the archive, or the failure of the first entry that is not
/// read. Where what decoding gives is fixed for every block, all entries are read
/// exactly where each has a content, and the bytes are those contents.
pub open spec fn are_entries_read(
    out: Result<Vec<Vec<u8>>, Error>,
    bytes: Seq<u8>,
    archive: ArchiveView,
    password: Seq<u8>,
    max_mem_limit_kb: usize,
    threads: u32,
) -> bool {
    &&& out matches Ok(all) ==> {
        &&& all@.len() == archive.files.len()
        &&& forall|i: int|
            0 <= i < all@.len() ==> is_entry_read(
                Ok::<Vec<u8>, Error>(#[trigger] all@[i]),
                bytes,
                archive,
                i,
                password,
                max_mem_limit_kb,
                threads,
            )
    }
    &&& out matches Err(e) ==> exists|i: int|
        0 <= i < archive.files.len() && #[trigger] is_entry_read(
            Err::<Vec<u8>, Error>(e),
            bytes,
            archive,
            i,
            password,
            max_mem_limit_kb,
            threads,
        ) && (all_fixed(archive, threads) ==> forall|j: int|
            0 <= j < i ==> (#[trigger] entry_content(
                bytes,
                archive,
                j,
                password,
                max_mem_limit_kb,
                threads,
            )) is Some)
    &&& all_fixed(archive, threads) ==> {
        &&& out is Ok <==> forall|i: int|
            0 <= i < archive.files.len() ==> (#[trigger] entry_content(
                bytes,
                archive,
                i,
                password,
                max_mem_limit_kb,
                threads,
            )) is Some
        &&& out matches Ok(all) ==> forall|i: int|
            0 <= i < all@.len() ==> (#[trigger] all@[i])@ == entry_content(
                bytes,
                archive,
                i,
                password,
                max_mem_limit_kb,
                threads,
            )->0
    }
}

/// Whether `out` is the content of the entry `file`, where what decoding gives is
/// fixed for every block: the entry is read exactly where it has a content, and the
/// bytes are that content.
pub open spec fn is_content(
    out: Result<Vec<u8>, Error>,
    bytes: Seq<u8>,
    archive: ArchiveView,
    file: int,
    password: Seq<u8>,
    max_mem_limit_kb: usize,
    threads: u32,
) -> bool {
    let content = entry_content(bytes, archive, file, password, max_mem_limit_kb, threads);
    all_fixed(archive, threads) ==> {
        &&& out is Ok <==> content is Some
        &&& out matches Ok(data) ==> content == Some(data@)
    }
}

/// What is cut out of what reading the block of an entry gave is what reading the
/// entry owes, and it is the content of the entry.
proof fn lemma_cut_is_read(
    out: Result<Vec<u8>, Error>,
    read: Result<Vec<u8>, Error>,
    bytes: Seq<u8>,
    archive: ArchiveView,
    file: int,
    block: int,
    place: int,
    password: Seq<u8>,
    max_mem_limit_kb: usize,
    threads: u32,
)
    requires
        place_of(archive, file) == Some((block, place)),
        0 <= block < archive.blocks.len(),
        is_block_read(read, bytes, archive, block, password, max_mem_limit_kb, threads),
        is_cut(out, read, archive.blocks[block], place),
    ensures
        is_entry_read(out, bytes, archive, file, password, max_mem_limit_kb, threads),
        is_content(out, bytes, archive, file, password, max_mem_limit_kb, threads),
{
    if all_fixed(archive, threads) {
        assert(is_fixed_block(archive.blocks[block], threads));
    }
    let found = place_of(archive, file)->0;
    assert(found.0 == block && found.1 == place);
    assert(is_block_read(read, bytes, archive, found.0, password, max_mem_limit_kb, threads)
        && is_cut(out, read, archive.blocks[found.0], found.1));
}

/// The place of an entry is a place at which the entry has its bytes.
pub proof fn lemma_place_is_there(archive: ArchiveView, file: int, block: int, place: int)
    requires
        place_of(archive, file) == Some((block, place)),
    ensures
        is_place_of(archive, file, block, place),
{
    let (b, p) = choose|b: int, p: int| is_first_place_of(archive, file, b, p);
    let at = (b, p);
    assert(is_first_place_of(archive, file, at.0, at.1));
    let found = choose|found: (int, int)| is_first_place_of(archive, file, found.0, found.1);
    assert(found == (block, place));
}

/// Whether `found` is the block and the place at which the entry `file` has its
/// bytes, or none where it has them in no block.
pub open spec fn is_found(found: Option<(usize, usize)>, archive: ArchiveView, file: int) -> bool {
    match found {
        Some((block, place)) => place_of(archive, file) == Some((block as int, place as int)),
        None => place_of(archive, file) is None,
    }
}

/// Whether `places` has, for each entry of the archive in the order of the entries,
/// the block and the place at which the entry has its bytes.
pub open spec fn are_places(places: Seq<Option<(usize, usize)>>, archive: ArchiveView) -> bool {
    &&& places.len() == archive.files.len()
    &&& forall|i: int| 0 <= i < places.len() ==> is_found(#[trigger] places[i], archive, i)
}

/// What is known of the place of the entry `file` once the blocks before `block`,
/// and the places before `place` of the block `block`, have been looked at: the
/// place, or that it is none of those.
spec fn is_known(
    known: Option<(usize, usize)>,
    archive: ArchiveView,
    file: int,
    block: int,
    place: int,
) -> bool {
    match known {
        Some((b, p)) => is_place_of(archive, file, b as int, p as int),
        None => forall|b: int, p: int|
            (0 <= b < block || (b == block && 0 <= p < place)) ==> !#[trigger] is_place_of(
                archive,
                file,
                b,
                p,
            ),
    }
}

/// As many places as the archive has entries, none of them known.
fn no_places(archive: &Archive) -> (places: Vec<Option<(usize, usize)>>)
    ensures
        places@.len() == archive@.files.len(),
        forall|i: int| 0 <= i < places@.len() ==> is_known(#[trigger] places@[i], archive@, i, 0, 0),
{
    let mut places: Vec<Option<(usize, usize)>> = Vec::new();
    let mut i: usize = 0;
    while i < archive.files.len()
        invariant
            i <= archive.files@.len() == archive@.files.len(),
            places@.len() == i,
            forall|k: int| 0 <= k < i ==> (#[trigger] places@[k]) is None,
        decreases archive.files.len() - i,
    {
        places.push(None);
        i += 1;
    }
    places
}

/// Takes the places of the entries of the block `block` into `places`.
fn take_block_places(archive: &Archive, block: usize, places: &mut Vec<Option<(usize, usize)>>)
    requires
        block < archive@.blocks.len(),
        old(places)@.len() == archive@.files.len(),
        forall|i: int|
            0 <= i < old(places)@.len() ==> is_known(
                #[trigger] old(places)@[i],
                archive@,
                i,
                block as int,
                0,
            ),
    ensures
        final(places)@.len() == archive@.files.len(),
        forall|i: int|
            0 <= i < final(places)@.len() ==> is_known(
                #[trigger] final(places)@[i],
                archive@,
                i,
                block + 1,
                0,
            ),
{
    let list = match block_entries(archive, block) {
        Ok(list) => list,
        Err(_) => {
            return ;
        },
    };
    proof {
        lemma_stream_files_ascend(archive@.files);
        crate::entry_laws::lemma_files_grow(archive@.blocks, block as int, block + 1);
        assert forall|k: int| 0 <= k < list@.len() implies (#[trigger] list@[k])
            < archive@.files.len() by {
            let first = files_in_blocks(archive@.blocks.take(block as int)) as int;
            assert(entries_of_block(archive@, block as int)[k] == stream_files(
                archive@.files,
            )[first + k]);
        }
    }
    let mut place: usize = 0;
    while place < list.len()
        invariant
            place <= list@.len(),
            block < archive@.blocks.len(),
            files_in_blocks(archive@.blocks.take(block + 1)) <= stream_files(archive@.files).len(),
            list@.len() == entries_of_block(archive@, block as int).len(),
            forall|k: int|
                0 <= k < list@.len() ==> (#[trigger] list@[k]) as int == entries_of_block(
                    archive@,
                    block as int,
                )[k],
            forall|k: int| 0 <= k < list@.len() ==> (#[trigger] list@[k]) < archive@.files.len(),
            places@.len() == archive@.files.len(),
            forall|i: int|
                0 <= i < places@.len() ==> is_known(
                    #[trigger] places@[i],
                    archive@,
                    i,
                    block as int,
                    place as int,
                ),
        decreases list.len() - place,
    {
        let file: usize = list[place];
        let ghost before = places@;
        places.set(file, Some((block, place)));
        proof {
            assert(is_place_of(archive@, file as int, block as int, place as int));
            assert forall|i: int| 0 <= i < places@.len() implies is_known(
                #[trigger] places@[i],
                archive@,
                i,
                block as int,
                place + 1,
            ) by {
                if i != file {
                    assert(places@[i] == before[i]);
                    assert(is_known(before[i], archive@, i, block as int, place as int));
                }
            }
        }
        place += 1;
    }
}

/// The block and the place at which each entry of the archive has its bytes, in the
/// order of the entries: the order in which the entries are handed out, and, for
/// each, what has to be decoded for it.
pub fn entry_places(archive: &Archive) -> (places: Vec<Option<(usize, usize)>>)
    ensures
        are_places(places@, archive@),
{
    let mut places = no_places(archive);
    let mut block: usize = 0;
    while block < archive.blocks.len()
        invariant
            block <= archive.blocks@.len() == archive@.blocks.len(),
            places@.len() == archive@.files.len(),
            forall|i: int|
                0 <= i < places@.len() ==> is_known(
                    #[trigger] places@[i],
                    archive@,
                    i,
                    block as int,
                    0,
                ),
        decreases archive.blocks.len() - block,
    {
        take_block_places(archive, block, &mut places);
        block += 1;
    }
    proof {
        assert forall|i: int| 0 <= i < places@.len() implies is_found(
            #[trigger] places@[i],
            archive@,
            i,
        ) by {
            assert(is_known(places@[i], archive@, i, block as int, 0));
            match places@[i] {
                Some((b, p)) => {
                    lemma_place_is_found(archive@, i, b as int, p as int);
                },
                None => {
                    assert forall|b: int, p: int| !is_first_place_of(archive@, i, b, p) by {
                        assert(!is_place_of(archive@, i, b, p));
                    }
                },
            }
        }
    }
    places
}

/// The size and the CRC that an archive states for the bytes of the entry `file`:
/// those of its place in its block, and no bytes and no CRC for an entry that has its
/// bytes in no block.
pub open spec fn stated_of(archive: ArchiveView, file: int) -> (u64, Option<u32>) {
    match place_of(archive, file) {
        Some((block, place)) => {
            let made = archive.blocks[block];
            (
                if 0 <= place < made.substream_sizes.len() {
                    made.substream_sizes[place]
                } else {
                    0
                },
                if 0 <= place < made.substream_crcs.len() {
                    made.substream_crcs[place]
                } else {
                    None
                },
            )
        },
        None => (0, None),
    }
}

/// The size and the CRC that the archive states for the bytes of an entry that has
/// them where `found` says.
fn stated_at(archive: &Archive, file: usize, found: Option<(usize, usize)>) -> (stated: (
    u64,
    Option<u32>,
))
    requires
        is_found(found, archive@, file as int),
    ensures
        stated == stated_of(archive@, file as int),
{
    let (block, place) = match found {
        Some(found) => found,
        None => {
            return (0, None);
        },
    };
    proof {
        lemma_place_is_there(archive@, file as int, block as int, place as int);
    }
    assert(archive@.blocks[block as int] == archive.blocks@[block as int]@);
    let made = &archive.blocks[block];
    let size: u64 = if place < made.substream_sizes.len() {
        made.substream_sizes[place]
    } else {
        0
    };
    let crc: Option<u32> = if place < made.substream_crcs.len() {
        made.substream_crcs[place]
    } else {
        None
    };
    (size, crc)
}

/// The size and the CRC that the archive states for the bytes of the entry `file`.
pub fn entry_stated(archive: &Archive, file: usize) -> (stated: (u64, Option<u32>))
    ensures
        stated == stated_of(archive@, file as int),
{
    stated_at(archive, file, locate_entry(archive, file))
}

/// Reads the entry `file`, which has its bytes where `found` says. Its block is
/// decoded unless `output` holds its output already: `held` says whether `output` is
/// the output of the block `at`.
fn next_entry(
    bytes: &[u8],
    archive: &Archive,
    file: usize,
    found: Option<(usize, usize)>,
    password: &Password,
    max_mem_limit_kb: usize,
    threads: u32,
    output: &mut Vec<u8>,
    held: &mut bool,
    at: &mut usize,
) -> (out: Result<Vec<u8>, Error>)
    requires
        is_found(found, archive@, file as int),
        *old(held) ==> is_block_read(
            Ok::<Vec<u8>, Error>(*old(output)),
            bytes@,
            archive@,
            *old(at) as int,
            password@,
            max_mem_limit_kb,
            threads,
        ),
    ensures
        *final(held) ==> is_block_read(
            Ok::<Vec<u8>, Error>(*final(output)),
            bytes@,
            archive@,
            *final(at) as int,
            password@,
            max_mem_limit_kb,
            threads,
        ),
        is_entry_read(out, bytes@, archive@, file as int, password@, max_mem_limit_kb, threads),
        is_content(out, bytes@, archive@, file as int, password@, max_mem_limit_kb, threads),
{
    let (block, place) = match found {
        Some(found) => found,
        None => {
            return Ok(Vec::new());
        },
    };
    proof {
        lemma_place_is_there(archive@, file as int, block as int, place as int);
    }
    assert(archive@.blocks[block as int] == archive.blocks@[block as int]@);
    if !*held || *at != block {
        *held = false;
        let read = read_block(bytes, archive, block, password, max_mem_limit_kb, threads);
        match read {
            Ok(got) => {
                *output = got;
                *held = true;
                *at = block;
            },
            Err(e) => {
                proof {
                    lemma_cut_is_read(
                        Err::<Vec<u8>, Error>(e),
                        read,
                        bytes@,
                        archive@,
                        file as int,
                        block as int,
                        place as int,
                        password@,
                        max_mem_limit_kb,
                        threads,
                    );
                }
                return Err(e);
            },
        }
    }
    let cut = read_block_entry(&archive.blocks[block], output.as_slice(), place);
    proof {
        lemma_cut_is_read(
            cut,
            Ok::<Vec<u8>, Error>(*output),
            bytes@,
            archive@,
            file as int,
            block as int,
            place as int,
            password@,
            max_mem_limit_kb,
            threads,
        );
    }
    cut
}

/// Reads the entry `file` of an archive of the bytes `bytes`: its block is decoded,
/// and no other, and the bytes of the entry are cut out of the output and held
/// against the CRC of the entry.
pub fn read_entry(
    bytes: &[u8],
    archive: &Archive,
    file: usize,
    password: &Password,
    max_mem_limit_kb: usize,
    threads: u32,
) -> (out: Result<Vec<u8>, Error>)
    ensures
        file >= archive@.files.len() ==> out == Err::<Vec<u8>, Error>(no_entry()),
        file < archive@.files.len() ==> is_entry_read(
            out,
            bytes@,
            archive@,
            file as int,
            password@,
            max_mem_limit_kb,
            threads,
        ) && is_content(
            out,
            bytes@,
            archive@,
            file as int,
            password@,
            max_mem_limit_kb,
            threads,
        ),
{
    if file >= archive.files.len() {
        return Err(Error::other("No such entry"));
    }
    let found = locate_entry(archive, file);
    let mut output: Vec<u8> = Vec::new();
    let mut held: bool = false;
    let mut at: usize = 0;
    next_entry(
        bytes,
        archive,
        file,
        found,
        password,
        max_mem_limit_kb,
        threads,
        &mut output,
        &mut held,
        &mut at,
    )
}

/// Reads every entry of an archive of the bytes `bytes`, in the order in which the
/// archive lists them. A block is decoded when the first of its entries is reached,
/// and its output is kept as long as the entries that follow are of the same block.
pub fn read_entries(
    bytes: &[u8],
    archive: &Archive,
    password: &Password,
    max_mem_limit_kb: usize,
    threads: u32,
) -> (out: Result<Vec<Vec<u8>>, Error>)
    ensures
        are_entries_read(out, bytes@, archive@, password@, max_mem_limit_kb, threads),
{
    let count: usize = archive.files.len();
    let places = entry_places(archive);
    let mut all: Vec<Vec<u8>> = Vec::new();
    let mut output: Vec<u8> = Vec::new();
    let mut held: bool = false;
    let mut at: usize = 0;
    let mut file: usize = 0;
    while file < count
        invariant
            file <= count == archive@.files.len(),
            are_places(places@, archive@),
            all@.len() == file,
            held ==> is_block_read(
                Ok::<Vec<u8>, Error>(output),
                bytes@,
                archive@,
                at as int,
                password@,
                max_mem_limit_kb,
                threads,
            ),
            forall|i: int|
                0 <= i < file ==> is_entry_read(
                    Ok::<Vec<u8>, Error>(#[trigger] all@[i]),
                    bytes@,
                    archive@,
                    i,
                    password@,
                    max_mem_limit_kb,
                    threads,
                ),
            all_fixed(archive@, threads) ==> forall|i: int|
                0 <= i < file ==> (#[trigger] entry_content(
                    bytes@,
                    archive@,
                    i,
                    password@,
                    max_mem_limit_kb,
                    threads,
                )) == Some(all@[i]@),
        decreases count - file,
    {
        let ghost before = all@;
        let data = match next_entry(
            bytes,
            archive,
            file,
            places[file],
            password,
            max_mem_limit_kb,
            threads,
            &mut output,
            &mut held,
            &mut at,
        ) {
            Ok(data) => data,
            Err(e) => {
                return Err(e);
            },
        };
        all.push(data);
        assert(forall|i: int| 0 <= i < file ==> all@[i] == before[i]);
        file += 1;
    }
    Ok(all)
}

/// An archive that is open for reading its entries one by one. The output of the
/// block that was decoded last is kept, so that entries of one block that are read
/// one after the other decode the block once.
pub struct EntryReader {
    bytes: Vec<u8>,
    archive: Archive,
    password: Password,
    max_mem_limit_kb: usize,
    threads: u32,
    places: Vec<Option<(usize, usize)>>,
    output: Vec<u8>,
    held: bool,
    at: usize,
}

impl EntryReader {
    /// The places are those of the entries of the archive, and what is kept is the
    /// output of the block it is kept for.
    pub closed spec fn wf(&self) -> bool {
        &&& are_places(self.places@, self.archive@)
        &&& self.held ==> is_block_read(
            Ok::<Vec<u8>, Error>(self.output),
            self.bytes@,
            self.archive@,
            self.at as int,
            self.password@,
            self.max_mem_limit_kb,
            self.threads,
        )
    }

    /// The bytes of the archive.
    pub closed spec fn spec_bytes(&self) -> Seq<u8> {
        self.bytes@
    }

    /// The metadata of the archive.
    pub closed spec fn spec_archive(&self) -> ArchiveView {
        self.archive@
    }

    /// The password that blocks are decoded with.
    pub closed spec fn spec_password(&self) -> Seq<u8> {
        self.password@
    }

    /// The memory that a decoder may take, in KiB.
    pub closed spec fn spec_max_mem_limit_kb(&self) -> usize {
        self.max_mem_limit_kb
    }

    /// The number of threads that a block may be decoded on.
    pub closed spec fn spec_threads(&self) -> u32 {
        self.threads
    }

    /// A reader of the entries of the archive `archive` of the bytes `bytes`, with
    /// nothing decoded yet.
    pub fn new(
        bytes: Vec<u8>,
        archive: Archive,
        password: Password,
        max_mem_limit_kb: usize,
        threads: u32,
    ) -> (reader: EntryReader)
        ensures
            reader.wf(),
            reader.spec_bytes() == bytes@,
            reader.spec_archive() == archive@,
            reader.spec_password() == password@,
            reader.spec_max_mem_limit_kb() == max_mem_limit_kb,
            reader.spec_threads() == threads,
    {
        let places = entry_places(&archive);
        EntryReader {
            bytes,
            archive,
            password,
            max_mem_limit_kb,
            threads,
            places,
            output: Vec::new(),
            held: false,
            at: 0,
        }
    }

    /// The metadata of the archive.
    pub fn archive(&self) -> (archive: &Archive)
        ensures
            archive@ == self.spec_archive(),
    {
        &self.archive
    }

    /// The size and the CRC that the archive states for the bytes of the entry
    /// `file`; no bytes and no CRC for an entry that the archive does not list.
    pub fn stated(&self, file: usize) -> (stated: (u64, Option<u32>))
        requires
            self.wf(),
        ensures
            file < self.spec_archive().files.len() ==> stated == stated_of(
                self.spec_archive(),
                file as int,
            ),
            file >= self.spec_archive().files.len() ==> stated == (0u64, None::<u32>),
    {
        if file >= self.archive.files.len() {
            return (0, None);
        }
        stated_at(&self.archive, file, self.places[file])
    }

    /// Sets the number of threads that a block may be decoded on: at least 1 and at
    /// most 256. What was decoded before is dropped.
    pub fn set_thread_count(&mut self, threads: u32)
        requires
            old(self).wf(),
        ensures
            final(self).wf(),
            final(self).spec_threads() == (if threads < 1 {
                1u32
            } else if threads > 256 {
                256u32
            } else {
                threads
            }),
            final(self).spec_bytes() == old(self).spec_bytes(),
            final(self).spec_archive() == old(self).spec_archive(),
            final(self).spec_password() == old(self).spec_password(),
            final(self).spec_max_mem_limit_kb() == old(self).spec_max_mem_limit_kb(),
    {
        self.held = false;
        self.threads = if threads < 1 {
            1
        } else if threads > 256 {
            256
        } else {
            threads
        };
    }

    /// Reads the entry `file`: its block is decoded unless it is the one that was
    /// decoded last, and the bytes of the entry are cut out of the output and held
    /// against the CRC of the entry. An entry that the archive does not list is
    /// refused.
    pub fn read(&mut self, file: usize) -> (out: Result<Vec<u8>, Error>)
        requires
            old(self).wf(),
        ensures
            final(self).wf(),
            final(self).spec_bytes() == old(self).spec_bytes(),
            final(self).spec_archive() == old(self).spec_archive(),
            final(self).spec_password() == old(self).spec_password(),
            final(self).spec_max_mem_limit_kb() == old(self).spec_max_mem_limit_kb(),
            final(self).spec_threads() == old(self).spec_threads(),
            file >= old(self).spec_archive().files.len() ==> out == Err::<Vec<u8>, Error>(
                no_entry(),
            ),
            file < old(self).spec_archive().files.len() ==> is_entry_read(
                out,
                old(self).spec_bytes(),
                old(self).spec_archive(),
                file as int,
                old(self).spec_password(),
                old(self).spec_max_mem_limit_kb(),
                old(self).spec_threads(),
            ) && is_content(
                out,
                old(self).spec_bytes(),
                old(self).spec_archive(),
                file as int,
                old(self).spec_password(),
                old(self).spec_max_mem_limit_kb(),
                old(self).spec_threads(),
            ),
    {
        if file >= self.archive.files.len() {
            return Err(Error::other("No such entry"));
        }
        let found = self.places[file];
        next_entry(
            self.bytes.as_slice(),
            &self.archive,
            file,
            found,
            &self.password,
            self.max_mem_limit_kb,
            self.threads,
            &mut self.output,
            &mut self.held,
            &mut self.at,
        )
    }
}

} // verus!
