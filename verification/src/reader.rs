//! Finding the entries of an archive in its blocks, and cutting their bytes out of
//! what a block gives.

use vstd::prelude::*;

use crate::archive::{Archive, ArchiveEntry, ArchiveView, Block, BlockView, EntryView};
use crate::crc::{crc32, lemma_crc_detects_changed_byte, verify_crc};
use crate::error::Error;
use crate::header_parse::{files_in_blocks, files_with_stream, lemma_sum_grows, sum};
use crate::header_read::lemma_files_in_blocks_grows;
use crate::header_write::{block_views, entry_views};
use crate::method::EncoderMethod;
use crate::password::Password;
use crate::pipeline::{decode_block, decoded_block, is_decoded, is_fixed_block};

verus! {

/// The indices of the entries that have a stream, in the order of the entries.
pub open spec fn stream_files(files: Seq<EntryView>) -> Seq<int>
    decreases files.len(),
{
    if files.len() == 0 {
        Seq::empty()
    } else if files.last().has_stream {
        stream_files(files.drop_last()).push(files.len() - 1)
    } else {
        stream_files(files.drop_last())
    }
}

/// As many entries are listed as have a stream.
pub proof fn lemma_stream_files_len(files: Seq<EntryView>)
    ensures
        stream_files(files).len() == files_with_stream(files),
    decreases files.len(),
{
    if files.len() > 0 {
        lemma_stream_files_len(files.drop_last());
    }
}

/// The entries whose bytes the block `block` holds: as many of the entries that have
/// a stream as the block has files, behind those of the blocks before it.
pub open spec fn entries_of_block(archive: ArchiveView, block: int) -> Seq<int> {
    stream_files(archive.files).subrange(
        files_in_blocks(archive.blocks.take(block)) as int,
        files_in_blocks(archive.blocks.take(block + 1)) as int,
    )
}

/// The indices of the entries that have a stream.
pub fn list_stream_files(files: &Vec<ArchiveEntry>) -> (list: Vec<usize>)
    ensures
        list@.len() == stream_files(entry_views(files@, files@.len() as int)).len(),
        forall|k: int|
            0 <= k < list@.len() ==> (#[trigger] list@[k]) as int == stream_files(
                entry_views(files@, files@.len() as int),
            )[k],
{
    let ghost views = entry_views(files@, files@.len() as int);
    let mut list: Vec<usize> = Vec::new();
    let mut i: usize = 0;
    assert(views.take(0) =~= Seq::<EntryView>::empty());
    while i < files.len()
        invariant
            i <= files.len(),
            views == entry_views(files@, files@.len() as int),
            list@.len() == stream_files(views.take(i as int)).len(),
            forall|k: int|
                0 <= k < list@.len() ==> (#[trigger] list@[k]) as int == stream_files(
                    views.take(i as int),
                )[k],
        decreases files.len() - i,
    {
        assert(views.take(i + 1).drop_last() =~= views.take(i as int));
        assert(views.take(i + 1).last() == files@[i as int]@);
        if files[i].has_stream {
            list.push(i);
        }
        i += 1;
    }
    assert(views.take(files.len() as int) =~= views);
    list
}

/// The number of files that the first `upto` of `blocks` hold.
pub fn count_files_in_blocks(blocks: &Vec<Block>, upto: usize) -> (count: Option<usize>)
    requires
        upto <= blocks@.len(),
    ensures
        files_in_blocks(block_views(blocks@, blocks@.len() as int).take(upto as int)) <= usize::MAX
            ==> count == Some(
            files_in_blocks(block_views(blocks@, blocks@.len() as int).take(upto as int)) as usize,
        ),
        files_in_blocks(block_views(blocks@, blocks@.len() as int).take(upto as int)) > usize::MAX
            ==> count is None,
{
    let ghost views = block_views(blocks@, blocks@.len() as int);
    let mut total: usize = 0;
    let mut i: usize = 0;
    assert(views.take(0) =~= Seq::<BlockView>::empty());
    while i < upto
        invariant
            i <= upto <= blocks@.len(),
            views == block_views(blocks@, blocks@.len() as int),
            total == files_in_blocks(views.take(i as int)),
        decreases upto - i,
    {
        assert(views.take(i + 1).drop_last() =~= views.take(i as int));
        assert(views.take(i + 1).last() == blocks@[i as int]@);
        let n: usize = blocks[i].substream_sizes.len();
        if n > usize::MAX - total {
            proof {
                lemma_files_in_blocks_grows(views.take(upto as int), i + 1);
                assert(views.take(upto as int).take(i + 1) =~= views.take(i + 1));
            }
            return None;
        }
        total = total + n;
        i += 1;
    }
    Some(total)
}

/// The entries whose bytes the block `block` holds, in the order in which the block
/// holds them. A block that the archive does not have, or for whose files the
/// archive has no entries, is refused.
pub fn block_entries(archive: &Archive, block: usize) -> (entries: Result<Vec<usize>, Error>)
    ensures
        block < archive@.blocks.len() && files_in_blocks(archive@.blocks.take(block + 1))
            <= stream_files(archive@.files).len() ==> {
            &&& entries matches Ok(list)
            &&& list@.len() == entries_of_block(archive@, block as int).len()
            &&& forall|k: int|
                0 <= k < list@.len() ==> (#[trigger] list@[k]) as int == entries_of_block(
                    archive@,
                    block as int,
                )[k]
        },
        !(block < archive@.blocks.len() && files_in_blocks(archive@.blocks.take(block + 1))
            <= stream_files(archive@.files).len()) ==> entries == Err::<Vec<usize>, Error>(
            Error::Other("No such block"),
        ),
{
    proof {
        assert(archive@.blocks =~= block_views(archive.blocks@, archive.blocks@.len() as int));
        assert(archive@.files =~= entry_views(archive.files@, archive.files@.len() as int));
    }
    if block >= archive.blocks.len() {
        return Err(Error::other("No such block"));
    }
    let all = list_stream_files(&archive.files);
    let streams: usize = all.len();
    let last = match count_files_in_blocks(&archive.blocks, block + 1) {
        Some(n) => n,
        None => {
            return Err(Error::other("No such block"));
        },
    };
    if last > streams {
        return Err(Error::other("No such block"));
    }
    proof {
        lemma_files_in_blocks_grows(archive@.blocks.take(block + 1), block as int);
        assert(archive@.blocks.take(block + 1).take(block as int) =~= archive@.blocks.take(
            block as int,
        ));
    }
    let first = match count_files_in_blocks(&archive.blocks, block) {
        Some(n) => n,
        None => {
            return Err(Error::other("No such block"));
        },
    };
    let mut list: Vec<usize> = Vec::new();
    let mut k: usize = first;
    while k < last
        invariant
            first <= k <= last <= all@.len(),
            list@.len() == k - first,
            forall|j: int| 0 <= j < list@.len() ==> (#[trigger] list@[j]) == all@[first + j],
        decreases last - k,
    {
        list.push(all[k]);
        k += 1;
    }
    Ok(list)
}

/// Whether a coder of the archive encrypts.
pub open spec fn needs_password(archive: ArchiveView) -> bool {
    exists|b: int, c: int|
        0 <= b < archive.blocks.len() && 0 <= c < archive.blocks[b].coders.len()
            && #[trigger] archive.blocks[b].coders[c].method_id
            == EncoderMethod::Aes256Sha256.spec_id()
}

/// Whether a coder of the block encrypts.
fn block_needs_password(block: &Block) -> (needs: bool)
    ensures
        needs == (exists|c: int|
            0 <= c < block@.coders.len() && #[trigger] block@.coders[c].method_id
                == EncoderMethod::Aes256Sha256.spec_id()),
{
    let id = EncoderMethod::Aes256Sha256.id();
    let mut c: usize = 0;
    while c < block.coders.len()
        invariant
            c <= block.coders.len(),
            id@ == EncoderMethod::Aes256Sha256.spec_id(),
            forall|k: int|
                0 <= k < c ==> (#[trigger] block@.coders[k]).method_id
                    != EncoderMethod::Aes256Sha256.spec_id(),
        decreases block.coders.len() - c,
    {
        assert(block@.coders[c as int] == block.coders@[c as int]@);
        if crate::method::bytes_eq(block.coders[c].method_id.as_slice(), id.as_slice()) {
            assert(block@.coders[c as int].method_id == EncoderMethod::Aes256Sha256.spec_id());
            return true;
        }
        c += 1;
    }
    false
}

/// Holds the password against what the archive asks for: an archive of which a coder
/// encrypts is refused with an empty password.
pub fn check_password(archive: &Archive, password: &Password) -> (checked: Result<(), Error>)
    ensures
        needs_password(archive@) && password@.len() == 0 ==> checked == Err::<(), Error>(
            Error::PasswordRequired,
        ),
        !(needs_password(archive@) && password@.len() == 0) ==> checked is Ok,
{
    if !password.is_empty() {
        return Ok(());
    }
    let mut b: usize = 0;
    while b < archive.blocks.len()
        invariant
            b <= archive.blocks.len(),
            password@.len() == 0,
            forall|j: int, c: int|
                0 <= j < b && 0 <= c < archive@.blocks[j].coders.len() ==> (
                #[trigger] archive@.blocks[j].coders[c]).method_id
                    != EncoderMethod::Aes256Sha256.spec_id(),
        decreases archive.blocks.len() - b,
    {
        assert(archive@.blocks[b as int] == archive.blocks@[b as int]@);
        if block_needs_password(&archive.blocks[b]) {
            proof {
                let c = choose|c: int|
                    0 <= c < archive@.blocks[b as int].coders.len() && (
                    #[trigger] archive@.blocks[b as int].coders[c]).method_id
                        == EncoderMethod::Aes256Sha256.spec_id();
                assert(archive@.blocks[b as int].coders[c].method_id
                    == EncoderMethod::Aes256Sha256.spec_id());
            }
            return Err(Error::PasswordRequired);
        }
        b += 1;
    }
    Ok(())
}

/// The bytes of one entry in the output of its block, held against the CRC declared
/// for them.
///
/// An entry that the output is too short to hold is refused as malformed, and bytes
/// with another CRC than the declared one with a checksum mismatch. Where no CRC is
/// declared, the bytes pass.
pub fn entry_bytes(output: &[u8], offset: usize, size: usize, crc: Option<u32>) -> (bytes: Result<
    Vec<u8>,
    Error,
>)
    ensures
        offset + size > output@.len() ==> bytes == Err::<Vec<u8>, Error>(
            Error::Other("Entry lies outside the output of its block"),
        ),
        offset + size <= output@.len() ==> {
            let data = output@.subrange(offset as int, offset + size);
            if crc is Some && crc->0 != crc32(data) {
                bytes == Err::<Vec<u8>, Error>(Error::ChecksumMismatch)
            } else {
                bytes matches Ok(got) && got@ == data
            }
        },
{
    if offset > output.len() || size > output.len() - offset {
        return Err(Error::other("Entry lies outside the output of its block"));
    }
    let data = vstd::slice::slice_subrange(output, offset, offset + size);
    match verify_crc(crc, data) {
        Ok(()) => Ok(vstd::slice::slice_to_vec(data)),
        Err(e) => Err(e),
    }
}

/// Bytes that passed against a declared CRC are refused with a checksum mismatch
/// once any single byte of them is changed; bytes for which no CRC is declared are
/// never refused for their CRC.
pub proof fn lemma_changed_entry_is_refused(data: Seq<u8>, crc: u32, at: int, byte: u8)
    requires
        crc == crc32(data),
        0 <= at < data.len(),
        byte != data[at],
    ensures
        crc != crc32(data.update(at, byte)),
{
    lemma_crc_detects_changed_byte(data, at, byte);
}

/// The number of pack streams that the first `upto` of `blocks` take.
pub open spec fn packs_in_blocks(blocks: Seq<BlockView>, upto: nat) -> nat
    decreases upto,
{
    if upto == 0 {
        0
    } else {
        packs_in_blocks(blocks, (upto - 1) as nat) + blocks[upto - 1].packed_streams.len()
    }
}

/// Where the first pack stream of the block `block` starts, counted from the byte
/// behind the start header, and how long it is; none where the archive has no such
/// pack stream, or the place is beyond what 64 bits can say.
pub open spec fn pack_range_of(archive: ArchiveView, block: int) -> Option<(u64, u64)> {
    let index = packs_in_blocks(archive.blocks, block as nat);
    if 0 <= block < archive.blocks.len() && index < archive.pack_sizes.len() && archive.pack_pos
        + sum(archive.pack_sizes.take(index as int)) <= u64::MAX {
        Some(
            (
                (archive.pack_pos + sum(archive.pack_sizes.take(index as int))) as u64,
                archive.pack_sizes[index as int],
            ),
        )
    } else {
        None
    }
}

/// The numbers `values` up to, not including, the place `upto`, added up; none
/// where the sum is beyond what 64 bits can say.
pub fn sum_before(values: &Vec<u64>, upto: usize, start: u64) -> (total: Option<u64>)
    requires
        upto <= values@.len(),
    ensures
        start + sum(values@.take(upto as int)) <= u64::MAX ==> total == Some(
            (start + sum(values@.take(upto as int))) as u64,
        ),
        start + sum(values@.take(upto as int)) > u64::MAX ==> total is None,
{
    let mut total: u64 = start;
    let mut i: usize = 0;
    assert(values@.take(0) =~= Seq::<u64>::empty());
    while i < upto
        invariant
            i <= upto <= values@.len(),
            total == start + sum(values@.take(i as int)),
        decreases upto - i,
    {
        assert(values@.take(i + 1).drop_last() =~= values@.take(i as int));
        if values[i] > u64::MAX - total {
            proof {
                lemma_sum_grows(values@.take(upto as int), i + 1);
                assert(values@.take(upto as int).take(i + 1) =~= values@.take(i + 1));
            }
            return None;
        }
        total = total + values[i];
        i += 1;
    }
    Some(total)
}

/// Finds the place of the first pack stream of the block `block` among the pack
/// streams of the archive; none where the archive has no such block or pack stream.
pub fn block_pack_index(archive: &Archive, block: usize) -> (found: Option<usize>)
    ensures
        match found {
            Some(index) => block < archive@.blocks.len() && index == packs_in_blocks(
                archive@.blocks,
                block as nat,
            ) && index < archive@.pack_sizes.len(),
            None => !(block < archive@.blocks.len() && packs_in_blocks(
                archive@.blocks,
                block as nat,
            ) < archive@.pack_sizes.len()),
        },
{
    if block >= archive.blocks.len() {
        return None;
    }
    let mut index: usize = 0;
    let mut b: usize = 0;
    while b < block
        invariant
            b <= block < archive.blocks.len(),
            index <= archive.pack_sizes.len(),
            index == packs_in_blocks(archive@.blocks, b as nat),
        decreases block - b,
    {
        assert(archive@.blocks[b as int] == archive.blocks@[b as int]@);
        let n: usize = archive.blocks[b].packed_streams.len();
        if n > archive.pack_sizes.len() - index {
            proof {
                lemma_packs_grow(archive@.blocks, (b + 1) as nat, block as nat);
            }
            return None;
        }
        index = index + n;
        b += 1;
    }
    if index >= archive.pack_sizes.len() {
        return None;
    }
    Some(index)
}

/// Finds where the first pack stream of the block `block` starts, counted from the
/// byte behind the start header, and how long it is.
pub fn block_pack_range(archive: &Archive, block: usize) -> (range: Result<(u64, u64), Error>)
    ensures
        match pack_range_of(archive@, block as int) {
            Some(found) => range == Ok::<(u64, u64), Error>(found),
            None => range == Err::<(u64, u64), Error>(Error::Other("No pack stream for the block")),
        },
{
    let index = match block_pack_index(archive, block) {
        Some(index) => index,
        None => {
            return Err(Error::other("No pack stream for the block"));
        },
    };
    match sum_before(&archive.pack_sizes, index, archive.pack_pos) {
        Some(offset) => Ok((offset, archive.pack_sizes[index])),
        None => Err(Error::other("No pack stream for the block")),
    }
}

/// The CRC declared for the first pack stream of the block `block`; none where none
/// is declared.
pub open spec fn pack_crc_of(archive: ArchiveView, block: int) -> Option<u32> {
    let index = packs_in_blocks(archive.blocks, block as nat);
    if 0 <= block < archive.blocks.len() && index < archive.pack_crcs.len() {
        archive.pack_crcs[index as int]
    } else {
        None
    }
}

/// The first pack stream of the block `block` in the bytes of an archive, which
/// start with the start header of 32 bytes. A pack stream that the bytes are too
/// short to hold is refused as malformed, and one with another CRC than the
/// declared one with a checksum mismatch.
pub open spec fn pack_of(bytes: Seq<u8>, archive: ArchiveView, block: int) -> Result<
    Seq<u8>,
    Error,
> {
    match pack_range_of(archive, block) {
        None => Err(Error::Other("No pack stream for the block")),
        Some((offset, size)) => {
            if 32 + offset + size > bytes.len() {
                Err(Error::Other("Pack stream lies outside the archive"))
            } else {
                let data = bytes.subrange(32 + offset, 32 + offset + size);
                match pack_crc_of(archive, block) {
                    Some(crc) => if crc != crc32(data) {
                        Err(Error::ChecksumMismatch)
                    } else {
                        Ok(data)
                    },
                    None => Ok(data),
                }
            }
        },
    }
}

/// Takes the first pack stream of the block `block` out of the bytes of an archive
/// and holds it against the CRC declared for it.
pub fn read_pack(bytes: &[u8], archive: &Archive, block: usize) -> (read: Result<Vec<u8>, Error>)
    ensures
        match pack_of(bytes@, archive@, block as int) {
            Ok(data) => read matches Ok(got) && got@ == data,
            Err(e) => read == Err::<Vec<u8>, Error>(e),
        },
{
    let (offset, size) = match block_pack_range(archive, block) {
        Ok(range) => range,
        Err(e) => {
            return Err(e);
        },
    };
    let len: usize = bytes.len();
    if len < 32 || offset > (len - 32) as u64 || size > (len - 32) as u64 - offset {
        return Err(Error::other("Pack stream lies outside the archive"));
    }
    let start: usize = 32 + offset as usize;
    let data = vstd::slice::slice_subrange(bytes, start, start + size as usize);
    let declared = match block_pack_index(archive, block) {
        Some(index) => if index < archive.pack_crcs.len() {
            archive.pack_crcs[index]
        } else {
            None
        },
        None => None,
    };
    match verify_crc(declared, data) {
        Ok(()) => Ok(vstd::slice::slice_to_vec(data)),
        Err(e) => Err(e),
    }
}

/// A pack stream that passed against its declared CRC is refused with a checksum
/// mismatch once any single byte of it is changed.
pub proof fn lemma_changed_pack_is_refused(
    bytes: Seq<u8>,
    archive: ArchiveView,
    block: int,
    at: int,
    byte: u8,
)
    requires
        pack_of(bytes, archive, block) is Ok,
        pack_crc_of(archive, block) is Some,
        pack_range_of(archive, block) matches Some((offset, size)) && 32 + offset <= at < 32
            + offset + size,
        byte != bytes[at],
    ensures
        pack_of(bytes.update(at, byte), archive, block) == Err::<Seq<u8>, Error>(
            Error::ChecksumMismatch,
        ),
{
    let (offset, size) = pack_range_of(archive, block)->0;
    let data = bytes.subrange(32 + offset, 32 + offset + size);
    let changed = bytes.update(at, byte).subrange(32 + offset, 32 + offset + size);
    assert(changed =~= data.update(at - 32 - offset, byte));
    lemma_crc_detects_changed_byte(data, at - 32 - offset, byte);
}

/// The first blocks take no more pack streams than more blocks.
pub proof fn lemma_packs_grow(blocks: Seq<BlockView>, fewer: nat, more: nat)
    requires
        fewer <= more,
    ensures
        packs_in_blocks(blocks, fewer) <= packs_in_blocks(blocks, more),
    decreases more,
{
    if fewer < more {
        lemma_packs_grow(blocks, fewer, (more - 1) as nat);
    }
}

/// Where the bytes of the file `index` of a block start in the output of the block,
/// and how many they are; none where the block has no such file, or the place is
/// beyond what 64 bits can say.
pub open spec fn entry_range_of(block: BlockView, index: int) -> Option<(u64, u64)> {
    if 0 <= index < block.substream_sizes.len() && sum(block.substream_sizes.take(index))
        <= u64::MAX {
        Some((sum(block.substream_sizes.take(index)) as u64, block.substream_sizes[index]))
    } else {
        None
    }
}

/// Finds where the bytes of the file `index` of a block start in the output of the
/// block, and how many they are: behind the bytes of the files before it.
pub fn entry_range(block: &Block, index: usize) -> (range: Result<(u64, u64), Error>)
    ensures
        match entry_range_of(block@, index as int) {
            Some(found) => range == Ok::<(u64, u64), Error>(found),
            None => range == Err::<(u64, u64), Error>(Error::Other("No such file in the block")),
        },
{
    if index >= block.substream_sizes.len() {
        return Err(Error::other("No such file in the block"));
    }
    match sum_before(&block.substream_sizes, index, 0) {
        Some(offset) => Ok((offset, block.substream_sizes[index])),
        None => Err(Error::other("No such file in the block")),
    }
}

/// The bytes of the file `place` of a block in the output of the block, held
/// against the CRC declared for them. A file that the block does not have, or that
/// the output is too short to hold, is refused as malformed, and bytes with another
/// CRC than the declared one with a checksum mismatch.
pub open spec fn block_entry_of(block: BlockView, output: Seq<u8>, place: int) -> Result<
    Seq<u8>,
    Error,
> {
    match entry_range_of(block, place) {
        None => Err(Error::Other("No such file in the block")),
        Some((offset, size)) => {
            if offset + size > output.len() {
                Err(Error::Other("Entry lies outside the output of its block"))
            } else {
                let data = output.subrange(offset as int, offset + size);
                if place < block.substream_crcs.len() && (block.substream_crcs[place] matches Some(
                    crc,
                ) && crc != crc32(data)) {
                    Err(Error::ChecksumMismatch)
                } else {
                    Ok(data)
                }
            }
        },
    }
}

/// Cuts the bytes of the file `place` of a block out of the output of the block and
/// holds them against the CRC declared for them.
pub fn read_block_entry(block: &Block, output: &[u8], place: usize) -> (read: Result<
    Vec<u8>,
    Error,
>)
    ensures
        match block_entry_of(block@, output@, place as int) {
            Ok(data) => read matches Ok(got) && got@ == data,
            Err(e) => read == Err::<Vec<u8>, Error>(e),
        },
{
    let (offset, size) = match entry_range(block, place) {
        Ok(range) => range,
        Err(e) => {
            return Err(e);
        },
    };
    let len: usize = output.len();
    if offset > len as u64 || size > len as u64 - offset {
        return Err(Error::other("Entry lies outside the output of its block"));
    }
    let crc = if place < block.substream_crcs.len() {
        block.substream_crcs[place]
    } else {
        None
    };
    entry_bytes(output, offset as usize, size as usize, crc)
}

/// Where no CRC is declared, nothing is refused for its CRC: a pack stream without
/// a declared CRC, and the bytes of a file without one, are never a checksum
/// mismatch.
pub proof fn lemma_undeclared_crc_passes(
    bytes: Seq<u8>,
    archive: ArchiveView,
    block: int,
    output: Seq<u8>,
    place: int,
)
    requires
        0 <= block < archive.blocks.len(),
    ensures
        pack_crc_of(archive, block) is None ==> pack_of(bytes, archive, block) != Err::<
            Seq<u8>,
            Error,
        >(Error::ChecksumMismatch),
        !(0 <= place < archive.blocks[block].substream_crcs.len())
            || archive.blocks[block].substream_crcs[place] is None ==> block_entry_of(
            archive.blocks[block],
            output,
            place,
        ) != Err::<Seq<u8>, Error>(Error::ChecksumMismatch),
{
}

/// Whether the entry `file` of an archive has its bytes in the block `block`, as the
/// file `place` of the block.
pub open spec fn is_place_of(archive: ArchiveView, file: int, block: int, place: int) -> bool {
    &&& 0 <= block < archive.blocks.len()
    &&& files_in_blocks(archive.blocks.take(block + 1)) <= stream_files(archive.files).len()
    &&& 0 <= place < entries_of_block(archive, block).len()
    &&& entries_of_block(archive, block)[place] == file
}

/// Whether `block` and `place` are the first block, and the first place in it, at
/// which the entry `file` has its bytes.
pub open spec fn is_first_place_of(archive: ArchiveView, file: int, block: int, place: int) -> bool {
    &&& is_place_of(archive, file, block, place)
    &&& forall|b: int, p: int| #[trigger]
        is_place_of(archive, file, b, p) ==> block < b || (block == b && place <= p)
}

/// The block in which the entry `file` has its bytes, and its place among the files
/// of the block; none for an entry that has its bytes in no block.
pub open spec fn place_of(archive: ArchiveView, file: int) -> Option<(int, int)> {
    if exists|b: int, p: int| is_first_place_of(archive, file, b, p) {
        let found = choose|found: (int, int)| is_first_place_of(archive, file, found.0, found.1);
        Some(found)
    } else {
        None
    }
}

/// The first place of an entry is the place of the entry.
pub proof fn lemma_first_place(archive: ArchiveView, file: int, block: int, place: int)
    requires
        is_first_place_of(archive, file, block, place),
    ensures
        place_of(archive, file) == Some((block, place)),
{
    let at = (block, place);
    assert(is_first_place_of(archive, file, at.0, at.1));
    let found = choose|found: (int, int)| is_first_place_of(archive, file, found.0, found.1);
    assert(is_place_of(archive, file, found.0, found.1));
    assert(is_place_of(archive, file, block, place));
    assert(found.0 == block && found.1 == place);
}

/// Finds the block in which the entry `file` has its bytes, and its place among the
/// files of the block, so that the one block can be decoded and no other; none for
/// an entry that has its bytes in no block.
pub fn locate_entry(archive: &Archive, file: usize) -> (found: Option<(usize, usize)>)
    ensures
        found matches Some((block, place)) ==> is_first_place_of(
            archive@,
            file as int,
            block as int,
            place as int,
        ),
        found matches Some((block, place)) ==> place_of(archive@, file as int) == Some(
            (block as int, place as int),
        ),
        found is None ==> place_of(archive@, file as int) is None,
        found is None ==> forall|block: int, place: int|
            !is_place_of(archive@, file as int, block, place),
{
    let mut block: usize = 0;
    while block < archive.blocks.len()
        invariant
            block <= archive.blocks.len(),
            forall|b: int, p: int| 0 <= b < block ==> !is_place_of(archive@, file as int, b, p),
        decreases archive.blocks.len() - block,
    {
        match block_entries(archive, block) {
            Ok(list) => {
                let mut place: usize = 0;
                while place < list.len()
                    invariant
                        place <= list.len(),
                        block < archive@.blocks.len(),
                        files_in_blocks(archive@.blocks.take(block + 1)) <= stream_files(
                            archive@.files,
                        ).len(),
                        list@.len() == entries_of_block(archive@, block as int).len(),
                        forall|k: int|
                            0 <= k < list@.len() ==> (#[trigger] list@[k]) as int
                                == entries_of_block(archive@, block as int)[k],
                        forall|b: int, p: int|
                            0 <= b < block ==> !is_place_of(archive@, file as int, b, p),
                        forall|p: int|
                            0 <= p < place ==> !is_place_of(
                                archive@,
                                file as int,
                                block as int,
                                p,
                            ),
                    decreases list.len() - place,
                {
                    if list[place] == file {
                        proof {
                            assert(is_place_of(archive@, file as int, block as int, place as int));
                            lemma_first_place(archive@, file as int, block as int, place as int);
                        }
                        return Some((block, place));
                    }
                    place += 1;
                }
            },
            Err(_) => {},
        }
        block += 1;
    }
    None
}

/// Whether `out` is what reading the block `block` of an archive of the bytes
/// `bytes` owes: the pack stream of the block is taken and held against its CRC,
/// then decoded, and the output is held against the CRC of the block. Reading gives
/// the output where the pack stream passes, the block decodes, and the output
/// passes, and only there. Of a block whose outcome is not fixed by its input, it is
/// said that an output that is given has passed.
pub open spec fn is_block_read(
    out: Result<Vec<u8>, Error>,
    bytes: Seq<u8>,
    archive: ArchiveView,
    block: int,
    password: Seq<u8>,
    max_mem_limit_kb: usize,
    threads: u32,
) -> bool {
    match pack_of(bytes, archive, block) {
        Err(e) => out == Err::<Vec<u8>, Error>(e),
        Ok(packed) => {
            let made = archive.blocks[block];
            if !is_fixed_block(made, threads) {
                out matches Ok(got) ==> is_decoded(
                    out,
                    made,
                    packed,
                    password,
                    max_mem_limit_kb,
                    threads,
                ) && (made.crc matches Some(crc) ==> crc == crc32(got@))
            } else {
                match decoded_block(made, packed, password, max_mem_limit_kb, threads) {
                    None => out is Err && is_decoded(
                        out,
                        made,
                        packed,
                        password,
                        max_mem_limit_kb,
                        threads,
                    ),
                    Some(output) => if made.crc is Some && made.crc->0 != crc32(output) {
                        out == Err::<Vec<u8>, Error>(Error::ChecksumMismatch)
                    } else {
                        out matches Ok(got) && got@ == output
                    },
                }
            }
        },
    }
}

/// Reads the block `block` of an archive of the bytes `bytes`: takes its pack
/// stream, decodes it through the chain of the coders of the block, and holds the
/// output against the CRC of the block.
///
/// A pack stream with another CRC than the declared one is refused before it is
/// decoded, and no output with another CRC than the declared one is given.
pub fn read_block(
    bytes: &[u8],
    archive: &Archive,
    block: usize,
    password: &Password,
    max_mem_limit_kb: usize,
    threads: u32,
) -> (out: Result<Vec<u8>, Error>)
    ensures
        is_block_read(out, bytes@, archive@, block as int, password@, max_mem_limit_kb, threads),
{
    let packed = match read_pack(bytes, archive, block) {
        Ok(packed) => packed,
        Err(e) => {
            return Err(e);
        },
    };
    assert(block < archive.blocks@.len());
    assert(archive@.blocks[block as int] == archive.blocks@[block as int]@);
    let made = &archive.blocks[block];
    let output = match decode_block(
        made,
        packed.as_slice(),
        password,
        max_mem_limit_kb,
        threads,
    ) {
        Ok(output) => output,
        Err(e) => {
            return Err(e);
        },
    };
    match verify_crc(made.crc, output.as_slice()) {
        Ok(()) => Ok(output),
        Err(e) => Err(e),
    }
}

/// Once any single byte of a pack stream whose CRC is declared is changed, reading
/// the block of the pack stream is a checksum mismatch: no byte of it is decoded, and
/// no entry of the block is given.
pub proof fn lemma_changed_pack_fails_the_block(
    out: Result<Vec<u8>, Error>,
    bytes: Seq<u8>,
    archive: ArchiveView,
    block: int,
    password: Seq<u8>,
    max_mem_limit_kb: usize,
    threads: u32,
    at: int,
    byte: u8,
)
    requires
        pack_of(bytes, archive, block) is Ok,
        pack_crc_of(archive, block) is Some,
        pack_range_of(archive, block) matches Some((offset, size)) && 32 + offset <= at < 32
            + offset + size,
        byte != bytes[at],
        is_block_read(
            out,
            bytes.update(at, byte),
            archive,
            block,
            password,
            max_mem_limit_kb,
            threads,
        ),
    ensures
        out == Err::<Vec<u8>, Error>(Error::ChecksumMismatch),
{
    lemma_changed_pack_is_refused(bytes, archive, block, at, byte);
}

/// The contents of files, one after the other.
pub open spec fn flat(contents: Seq<Seq<u8>>) -> Seq<u8>
    decreases contents.len(),
{
    if contents.len() == 0 {
        Seq::empty()
    } else {
        flat(contents.drop_last()) + contents.last()
    }
}

/// The lengths of the contents of files.
pub open spec fn lengths(contents: Seq<Seq<u8>>) -> Seq<u64> {
    Seq::new(contents.len(), |i: int| contents[i].len() as u64)
}

/// Whether a block divides its output among files of the contents `contents`: it
/// states their lengths, and for each either no CRC or the CRC of its content.
pub open spec fn divides(block: BlockView, contents: Seq<Seq<u8>>) -> bool {
    &&& block.substream_sizes == lengths(contents)
    &&& block.substream_crcs.len() == contents.len()
    &&& forall|i: int|
        0 <= i < contents.len() ==> (#[trigger] contents[i]).len() <= u64::MAX && (
        block.substream_crcs[i] matches Some(crc) ==> crc == crc32(contents[i]))
}

/// The contents of the first files, one after the other, are as long as their
/// lengths add up to, and the contents of all files start with them.
pub proof fn lemma_flat_prefix(contents: Seq<Seq<u8>>, upto: int)
    requires
        0 <= upto <= contents.len(),
        forall|i: int| 0 <= i < contents.len() ==> (#[trigger] contents[i]).len() <= u64::MAX,
    ensures
        flat(contents.take(upto)).len() == sum(lengths(contents).take(upto)),
        flat(contents.take(upto)).len() <= flat(contents).len(),
        flat(contents).subrange(0, flat(contents.take(upto)).len() as int) == flat(
            contents.take(upto),
        ),
    decreases contents.len() - upto,
{
    let part = contents.take(upto);
    if upto == contents.len() {
        assert(part =~= contents);
        assert(flat(contents).subrange(0, flat(contents).len() as int) =~= flat(contents));
    } else {
        lemma_flat_prefix(contents, upto + 1);
        let more = contents.take(upto + 1);
        assert(more.drop_last() =~= part);
        assert(more.last() == contents[upto]);
        assert(lengths(contents).take(upto + 1).drop_last() =~= lengths(contents).take(upto));
        assert(flat(contents).subrange(0, flat(part).len() as int) =~= flat(more).subrange(
            0,
            flat(part).len() as int,
        ));
        assert(flat(more).subrange(0, flat(part).len() as int) =~= flat(part));
    }
    lemma_flat_len(part);
    assert(lengths(part) =~= lengths(contents).take(upto));
}

/// The contents of files, one after the other, are as long as their lengths add up
/// to.
pub proof fn lemma_flat_len(contents: Seq<Seq<u8>>)
    requires
        forall|i: int| 0 <= i < contents.len() ==> (#[trigger] contents[i]).len() <= u64::MAX,
    ensures
        flat(contents).len() == sum(lengths(contents)),
    decreases contents.len(),
{
    if contents.len() > 0 {
        lemma_flat_len(contents.drop_last());
        assert(lengths(contents).drop_last() =~= lengths(contents.drop_last()));
    }
}

/// A block whose output is the contents of its files, one after the other, gives
/// each file its content back: an entry is read as it was written.
pub proof fn lemma_entries_read_back(block: BlockView, contents: Seq<Seq<u8>>, place: int)
    requires
        divides(block, contents),
        flat(contents).len() <= u64::MAX,
        0 <= place < contents.len(),
    ensures
        block_entry_of(block, flat(contents), place) == Ok::<Seq<u8>, Error>(contents[place]),
{
    lemma_flat_prefix(contents, place);
    lemma_flat_prefix(contents, place + 1);
    let before = flat(contents.take(place));
    let upto = flat(contents.take(place + 1));
    assert(contents.take(place + 1).drop_last() =~= contents.take(place));
    assert(contents.take(place + 1).last() == contents[place]);
    assert(upto == before + contents[place]);
    assert(lengths(contents)[place] == contents[place].len());
    let data = flat(contents).subrange(
        before.len() as int,
        (before.len() + contents[place].len()) as int,
    );
    assert(data =~= upto.subrange(before.len() as int, upto.len() as int));
    assert(data =~= contents[place]);
}

} // verus!
