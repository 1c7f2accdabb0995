use std::io::{Read, Write};

use lzma_rust2::{Lzma2Options, Lzma2Reader, Lzma2Writer};
use sevenz_rust2::archive::{Archive, ArchiveEntry, BindPair, Block};
use sevenz_rust2::coder::Coder;
use sevenz_rust2::collect::{
    empty_archive, name_is_clean, push_block, push_entry, write_block, write_group,
};
use sevenz_rust2::container::{
    assemble, finish_archive, open_archive, write_encoded_header, EndHeader,
};
use sevenz_rust2::header_read::read_header;
use sevenz_rust2::header_write::{ids_within, write_header};
use sevenz_rust2::crc::crc32_of;
use sevenz_rust2::error::Error;
use sevenz_rust2::method::EncoderMethod;
use sevenz_rust2::options::{AesEncoderOptions, EncoderConfiguration, EncoderOptions};
use sevenz_rust2::password::Password;
use sevenz_rust2::pipeline::decode_order;
use sevenz_rust2::reader::{
    block_entries, block_pack_index, block_pack_range, check_password, entry_range, read_block,
    read_block_entry, read_pack,
};
use sevenz_rust2::seek::{grown_len, read_len, seek_position, SeekTo};
use sevenz_rust2::writer::{chain_block, stage_entry, step, WriterEvent, WriterState};

fn entry(name: &str) -> ArchiveEntry {
    ArchiveEntry {
        name: name.encode_utf16().collect(),
        has_stream: true,
        is_directory: false,
        is_anti_item: false,
        creation_date: None,
        access_date: None,
        last_modified_date: Some(133_000_000_000_000_000),
        windows_attributes: Some(0x20),
    }
}

fn coder(method: EncoderMethod) -> Coder {
    Coder { method_id: method.id(), num_in_streams: 1, num_out_streams: 1, properties: vec![] }
}

fn block_of(coders: Vec<Coder>, bind_pairs: Vec<BindPair>, packed: Vec<u64>) -> Block {
    let sizes = vec![1; coders.len()];
    Block {
        coders,
        bind_pairs,
        packed_streams: packed,
        unpack_sizes: sizes,
        crc: None,
        substream_sizes: vec![1],
        substream_crcs: vec![None],
    }
}

fn pair(in_index: u64, out_index: u64) -> BindPair {
    BindPair { in_index, out_index }
}

fn not_a_chain() -> Error {
    Error::UnsupportedFeature("Coders that do not form one chain")
}

#[test]
fn coders_decode_from_the_pack_stream_on() {
    let one = block_of(vec![coder(EncoderMethod::Lzma2)], vec![], vec![0]);
    assert_eq!(decode_order(&one), Ok(vec![0]));
    let three = || {
        vec![
            coder(EncoderMethod::Aes256Sha256),
            coder(EncoderMethod::Lzma2),
            coder(EncoderMethod::Delta),
        ]
    };
    let chain = block_of(three(), vec![pair(1, 0), pair(2, 1)], vec![0]);
    assert_eq!(decode_order(&chain), Ok(vec![0, 1, 2]));
    // The pack stream may feed any coder, and the pairs may stand in any order.
    let other = block_of(three(), vec![pair(0, 1), pair(1, 2)], vec![2]);
    assert_eq!(decode_order(&other), Ok(vec![2, 1, 0]));
    let mixed = block_of(three(), vec![pair(0, 2), pair(2, 1)], vec![1]);
    assert_eq!(decode_order(&mixed), Ok(vec![1, 2, 0]));
}

#[test]
fn coders_that_form_no_chain_are_refused() {
    let two = || vec![coder(EncoderMethod::Copy), coder(EncoderMethod::Lzma2)];
    // No pair joins the two coders.
    assert_eq!(decode_order(&block_of(two(), vec![], vec![0])), Err(not_a_chain()));
    // The walk comes back to the coder it started at.
    assert_eq!(
        decode_order(&block_of(two(), vec![pair(1, 0), pair(0, 1)], vec![0])),
        Err(not_a_chain())
    );
    // Two pack streams.
    assert_eq!(decode_order(&block_of(two(), vec![pair(1, 0)], vec![0, 1])), Err(not_a_chain()));
    // No pack stream.
    assert_eq!(decode_order(&block_of(two(), vec![pair(1, 0)], vec![])), Err(not_a_chain()));
    // A pack stream that feeds no coder of the block.
    assert_eq!(decode_order(&block_of(two(), vec![pair(1, 0)], vec![2])), Err(not_a_chain()));
    // A coder with two inputs.
    let mut wide = two();
    wide[1].num_in_streams = 2;
    assert_eq!(decode_order(&block_of(wide, vec![pair(1, 0)], vec![0])), Err(not_a_chain()));
    // The chain ends before it has passed every coder.
    let three = vec![
        coder(EncoderMethod::Copy),
        coder(EncoderMethod::Copy),
        coder(EncoderMethod::Copy),
    ];
    assert_eq!(decode_order(&block_of(three, vec![pair(1, 0)], vec![0])), Err(not_a_chain()));
    // A block without coders is a chain of nothing.
    assert_eq!(decode_order(&block_of(vec![], vec![], vec![0])), Ok(vec![]));
}

#[test]
fn a_chain_of_methods_makes_a_block() {
    let methods = vec![
        EncoderConfiguration::new(EncoderMethod::Aes256Sha256).with_options(EncoderOptions::Aes(
            AesEncoderOptions::new(Password::new("pw"), [1; 16], [2; 16]),
        )),
        EncoderConfiguration::new(EncoderMethod::Lzma2),
    ];
    let block = chain_block(&methods, vec![48, 100], Some(7), vec![60, 40], vec![Some(1), None])
        .unwrap();
    assert_eq!(block.coders.len(), 2);
    assert_eq!(block.coders[0].method_id, vec![0x06, 0xF1, 0x07, 0x01]);
    assert_eq!(block.coders[0].properties.len(), 34);
    assert_eq!(block.coders[1].method_id, vec![0x21]);
    assert_eq!(block.coders[1].properties.len(), 1);
    assert!(block.coders.iter().all(|c| c.num_in_streams == 1 && c.num_out_streams == 1));
    assert_eq!(block.bind_pairs, vec![pair(1, 0)]);
    assert_eq!(block.packed_streams, vec![0]);
    assert_eq!(block.unpack_sizes, vec![48, 100]);
    assert_eq!(block.crc, Some(7));
    assert_eq!(block.substream_sizes, vec![60, 40]);
    assert_eq!(block.substream_crcs, vec![Some(1), None]);
    assert_eq!(decode_order(&block), Ok(vec![0, 1]));
}

#[test]
fn a_chain_needs_coders_and_matching_sizes() {
    let bad_chain = Error::Other("A block needs between 1 and 32 coders");
    let bad_sizes = Error::Other("Sizes and coders, or sizes and CRCs, do not match");
    assert_eq!(chain_block(&vec![], vec![], None, vec![], vec![]), Err(bad_chain.clone()));
    let many: Vec<_> = (0..33).map(|_| EncoderConfiguration::new(EncoderMethod::Copy)).collect();
    assert_eq!(chain_block(&many, vec![1; 33], None, vec![], vec![]), Err(bad_chain));
    let most: Vec<_> = (0..32).map(|_| EncoderConfiguration::new(EncoderMethod::Copy)).collect();
    let block = chain_block(&most, vec![1; 32], None, vec![1], vec![None]).unwrap();
    assert_eq!(block.bind_pairs.len(), 31);
    assert_eq!(decode_order(&block), Ok((0..32).collect::<Vec<usize>>()));
    let one = vec![EncoderConfiguration::new(EncoderMethod::Copy)];
    assert_eq!(chain_block(&one, vec![1, 2], None, vec![], vec![]), Err(bad_sizes.clone()));
    assert_eq!(chain_block(&one, vec![1], None, vec![1], vec![]), Err(bad_sizes));
}

#[test]
fn an_entry_of_no_bytes_has_no_stream() {
    assert!(!stage_entry(entry("empty.txt"), 0).has_stream);
    assert!(stage_entry(entry("a.txt"), 1).has_stream);
    let mut directory = entry("dir");
    directory.is_directory = true;
    assert!(!stage_entry(directory, 5).has_stream);
    let mut anti = entry("gone");
    anti.is_anti_item = true;
    assert!(!stage_entry(anti, 5).has_stream);
    let mut plain = entry("kept");
    plain.has_stream = false;
    let staged = stage_entry(plain, 5);
    assert!(staged.has_stream);
    assert_eq!(staged.name, "kept".encode_utf16().collect::<Vec<u16>>());
    assert_eq!(staged.last_modified_date, Some(133_000_000_000_000_000));
    assert_eq!(staged.windows_attributes, Some(0x20));
}

#[test]
fn a_writer_finishes_once() {
    let (push, finish, done) = (WriterEvent::Push, WriterEvent::Finish, WriterEvent::Done);
    let (fresh, accepting) = (WriterState::Fresh, WriterState::Accepting);
    let (finalizing, finished) = (WriterState::Finalizing, WriterState::Finished);
    let failed = WriterState::Failed;
    assert_eq!(step(fresh, push), accepting);
    assert_eq!(step(accepting, push), accepting);
    assert_eq!(step(fresh, finish), finalizing);
    assert_eq!(step(accepting, finish), finalizing);
    assert_eq!(step(finalizing, done), finished);
    assert_eq!(step(finalizing, push), failed);
    assert_eq!(step(finalizing, finish), failed);
    assert_eq!(step(fresh, done), failed);
    assert_eq!(step(accepting, done), failed);
    for state in [fresh, accepting, finalizing, finished, failed] {
        assert_eq!(step(state, WriterEvent::Error), failed);
    }
    for event in [push, finish, done, WriterEvent::Error] {
        assert_eq!(step(failed, event), failed);
        assert_eq!(step(finished, event), failed);
    }
}

#[test]
fn pack_streams_follow_each_other() {
    let mut archive = Archive {
        pack_pos: 5,
        pack_sizes: vec![10, 20, 30],
        pack_crcs: vec![None, None, None],
        blocks: vec![
            block_of(vec![coder(EncoderMethod::Copy)], vec![], vec![0]),
            block_of(vec![coder(EncoderMethod::Copy)], vec![], vec![0]),
            block_of(vec![coder(EncoderMethod::Copy)], vec![], vec![0]),
        ],
        files: vec![],
    };
    assert_eq!(block_pack_range(&archive, 0), Ok((5, 10)));
    assert_eq!(block_pack_range(&archive, 1), Ok((15, 20)));
    assert_eq!(block_pack_range(&archive, 2), Ok((35, 30)));
    assert!(block_pack_range(&archive, 3).is_err());
    // A block of two pack streams moves the blocks behind it on by two.
    archive.blocks[0].packed_streams = vec![0, 1];
    assert_eq!(block_pack_range(&archive, 1), Ok((35, 30)));
    assert!(block_pack_range(&archive, 2).is_err());
    archive.blocks[0].packed_streams = vec![0];
    archive.pack_sizes = vec![u64::MAX, 1, 1];
    assert_eq!(block_pack_range(&archive, 0), Ok((5, u64::MAX)));
    assert!(block_pack_range(&archive, 1).is_err());
}

#[test]
fn files_of_a_block_follow_each_other() {
    let mut block = block_of(vec![coder(EncoderMethod::Copy)], vec![], vec![0]);
    block.substream_sizes = vec![3, 0, 4];
    block.substream_crcs = vec![None, None, None];
    assert_eq!(entry_range(&block, 0), Ok((0, 3)));
    assert_eq!(entry_range(&block, 1), Ok((3, 0)));
    assert_eq!(entry_range(&block, 2), Ok((3, 4)));
    assert_eq!(entry_range(&block, 3), Err(Error::Other("No such file in the block")));
    block.substream_sizes = vec![u64::MAX, 1, 1];
    assert_eq!(entry_range(&block, 1), Ok((u64::MAX, 1)));
    assert_eq!(entry_range(&block, 2), Err(Error::Other("No such file in the block")));
}

#[test]
fn ids_of_coders_are_at_most_fifteen_bytes() {
    let mut block = block_of(vec![coder(EncoderMethod::Copy)], vec![], vec![0]);
    assert!(ids_within(&vec![]));
    assert!(ids_within(&vec![block.clone()]));
    block.coders[0].method_id = vec![1; 15];
    assert!(ids_within(&vec![block.clone()]));
    block.coders[0].method_id = vec![1; 16];
    assert!(!ids_within(&vec![block_of(vec![], vec![], vec![]), block]));
}

#[test]
fn a_seek_stays_within_the_buffer() {
    assert_eq!(seek_position(3, 10, SeekTo::Start(0)), 0);
    assert_eq!(seek_position(3, 10, SeekTo::Start(7)), 7);
    // A place counted from the start is taken as it is.
    assert_eq!(seek_position(3, 10, SeekTo::Start(25)), 25);
    assert_eq!(seek_position(3, 10, SeekTo::End(0)), 10);
    assert_eq!(seek_position(3, 10, SeekTo::End(-4)), 6);
    assert_eq!(seek_position(3, 10, SeekTo::End(-10)), 0);
    assert_eq!(seek_position(3, 10, SeekTo::End(-11)), 0);
    assert_eq!(seek_position(3, 10, SeekTo::End(i64::MIN)), 0);
    assert_eq!(seek_position(3, 10, SeekTo::End(5)), 10);
    assert_eq!(seek_position(3, 10, SeekTo::End(i64::MAX)), 10);
    assert_eq!(seek_position(3, 10, SeekTo::Current(4)), 7);
    assert_eq!(seek_position(3, 10, SeekTo::Current(7)), 10);
    assert_eq!(seek_position(3, 10, SeekTo::Current(i64::MAX)), 10);
    assert_eq!(seek_position(3, 10, SeekTo::Current(-2)), 1);
    assert_eq!(seek_position(3, 10, SeekTo::Current(-3)), 0);
    assert_eq!(seek_position(3, 10, SeekTo::Current(i64::MIN)), 0);
    // A move by nothing moves nothing, also behind the end.
    assert_eq!(seek_position(25, 10, SeekTo::Current(0)), 25);
    assert_eq!(seek_position(25, 10, SeekTo::Current(1)), 10);
    assert_eq!(seek_position(25, 10, SeekTo::Current(-5)), 10);
    assert_eq!(seek_position(25, 10, SeekTo::Current(-20)), 5);
    assert_eq!(seek_position(0, 0, SeekTo::End(-1)), 0);
}

#[test]
fn a_read_takes_what_is_there_and_a_write_doubles_the_buffer() {
    assert_eq!(read_len(0, 10, 4), 4);
    assert_eq!(read_len(8, 10, 4), 2);
    assert_eq!(read_len(10, 10, 4), 0);
    assert_eq!(read_len(25, 10, 4), 0);
    assert_eq!(read_len(3, 10, usize::MAX), 7);
    assert_eq!(grown_len(0, 0), 1);
    assert_eq!(grown_len(0, 5), 5);
    assert_eq!(grown_len(8, 9), 16);
    assert_eq!(grown_len(8, 16), 16);
    assert_eq!(grown_len(8, 17), 17);
}

fn lzma2(data: &[u8]) -> Vec<u8> {
    let mut writer = Lzma2Writer::new(Vec::new(), Lzma2Options::with_preset(6));
    writer.write_all(data).unwrap();
    writer.finish().unwrap()
}

/// Writes an archive of one chain of methods, as a writer does: the entries of
/// each group are divided among blocks, each block is written through the chain,
/// and the end header states what was written.
fn write_groups(
    methods: &Vec<EncoderConfiguration>,
    groups: &[(bool, Vec<(String, Vec<u8>)>)],
) -> Vec<u8> {
    let mut archive = empty_archive();
    let mut pack = Vec::new();
    let mut state = WriterState::Fresh;
    for (solid, entries) in groups {
        state = step(state, WriterEvent::Push);
        let files = entries.iter().map(|(name, _)| entry(name)).collect();
        let contents = entries.iter().map(|(_, data)| data.clone()).collect();
        write_group(&mut archive, &mut pack, methods, *solid, &files, &contents).unwrap();
    }
    state = step(state, WriterEvent::Finish);
    assert_eq!(state, WriterState::Finalizing);
    assert!(ids_within(&archive.blocks));
    let bytes = finish_archive(&pack, &archive);
    assert_eq!(step(state, WriterEvent::Done), WriterState::Finished);
    bytes
}

fn write_archive(
    methods: &Vec<EncoderConfiguration>,
    solid: bool,
    entries: &[(&str, Vec<u8>)],
) -> Vec<u8> {
    let group = entries.iter().map(|(name, data)| (name.to_string(), data.clone())).collect();
    write_groups(methods, &[(solid, group)])
}

/// Reads every entry of an archive, block by block.
fn read_archive(bytes: &[u8], password: &Password) -> Vec<(String, Vec<u8>)> {
    let archive = opened(bytes);
    check_password(&archive, password).unwrap();
    let mut contents = vec![Vec::new(); archive.files.len()];
    for block in 0..archive.blocks.len() {
        let output = decode_block(bytes, &archive, block, password).unwrap();
        for (place, file) in block_entries(&archive, block).unwrap().into_iter().enumerate() {
            contents[file] = read_block_entry(&archive.blocks[block], &output, place).unwrap();
        }
    }
    archive.files.iter().map(|f| String::from_utf16(&f.name).unwrap()).zip(contents).collect()
}

fn numbered(range: std::ops::RangeInclusive<u32>) -> Vec<(String, Vec<u8>)> {
    range.map(|i| (format!("file{i}.txt"), format!("file{i} with content").into_bytes())).collect()
}

#[test]
fn compress_multi_files_solid() {
    let files = numbered(1..=10000);
    let methods = vec![EncoderConfiguration::new(EncoderMethod::Lzma2)];
    let data = write_groups(&methods, &[(true, files.clone())]);
    assert_eq!(opened(&data).blocks.len(), 1);
    let read = read_archive(&data, &Password::empty());
    assert_eq!(read.len(), files.len());
    for i in 0..files.len() {
        assert_eq!(read[i].0, files[i].0);
        assert_eq!(read[i].1, files[i].1);
    }
}

#[test]
fn compress_multi_files_mix_solid_and_non_solid() {
    let methods = vec![EncoderConfiguration::new(EncoderMethod::Lzma2)];
    let mut groups = vec![(true, numbered(1..=100))];
    for i in 101..=200 {
        groups.push((false, numbered(i..=i)));
    }
    let data = write_groups(&methods, &groups);
    assert_eq!(opened(&data).blocks.len(), 101);
    let files = numbered(1..=200);
    let read = read_archive(&data, &Password::empty());
    assert_eq!(read.len(), files.len());
    for i in 0..files.len() {
        assert_eq!(read[i].0, files[i].0);
        assert_eq!(read[i].1, files[i].1);
    }
}

fn opened(bytes: &[u8]) -> Archive {
    match open_archive(bytes).unwrap() {
        EndHeader::Plain(archive) => archive,
        EndHeader::Encoded(_) => panic!("the header was written plain"),
    }
}

/// Decodes the block `block` of an archive, as a reader does.
fn decode_block(
    bytes: &[u8],
    archive: &Archive,
    block: usize,
    password: &Password,
) -> Result<Vec<u8>, Error> {
    read_block(bytes, archive, block, password, usize::MAX, 1)
}

fn read_entry(bytes: &[u8], name: &str, password: &Password) -> Result<Vec<u8>, Error> {
    let archive = opened(bytes);
    check_password(&archive, password)?;
    let wanted: Vec<u16> = name.encode_utf16().collect();
    for block in 0..archive.blocks.len() {
        for (place, file) in block_entries(&archive, block)?.into_iter().enumerate() {
            if archive.files[file].name == wanted {
                let output = decode_block(bytes, &archive, block, password)?;
                return read_block_entry(&archive.blocks[block], &output, place);
            }
        }
    }
    match archive.files.iter().find(|file| file.name == wanted) {
        Some(_) => Ok(Vec::new()),
        None => Err(Error::Other("No such entry")),
    }
}

#[test]
fn one_entry_in_lzma2() {
    let methods = vec![EncoderConfiguration::new(EncoderMethod::Lzma2)];
    let bytes = write_archive(&methods, true, &[("a.txt", b"hello".to_vec())]);
    let archive = opened(&bytes);
    assert_eq!(archive.files.len(), 1);
    assert_eq!(archive.blocks.len(), 1);
    assert_eq!(archive.blocks[0].coders.len(), 1);
    assert_eq!(EncoderMethod::by_id(&archive.blocks[0].coders[0].method_id), Some(EncoderMethod::Lzma2));
    assert_eq!(archive.files[0].last_modified_date, Some(133_000_000_000_000_000));
    assert_eq!(archive.files[0].windows_attributes, Some(0x20));
    assert_eq!(archive.blocks[0].substream_crcs, vec![Some(crc32_of(b"hello"))]);
    assert_eq!(read_entry(&bytes, "a.txt", &Password::empty()), Ok(b"hello".to_vec()));
    assert_eq!(read_entry(&bytes, "b.txt", &Password::empty()), Err(Error::Other("No such entry")));
    // The pack stream is an LZMA2 stream that the codec reads by itself.
    let packed = read_pack(&bytes, &archive, 0).unwrap();
    let mut plain = Vec::new();
    Lzma2Reader::new(packed.as_slice(), 1 << 23, None).read_to_end(&mut plain).unwrap();
    assert_eq!(plain, b"hello");
}

#[test]
fn entries_of_no_bytes_are_read_back_empty() {
    let methods = vec![EncoderConfiguration::new(EncoderMethod::Copy)];
    let entries = [("", vec![]), ("a", b"abc".to_vec()), ("/", vec![]), ("b", b"de".to_vec())];
    let bytes = write_archive(&methods, true, &entries);
    let archive = opened(&bytes);
    assert_eq!(archive.blocks.len(), 1);
    assert_eq!(archive.blocks[0].substream_sizes, vec![3, 2]);
    let names: Vec<String> =
        archive.files.iter().map(|f| String::from_utf16(&f.name).unwrap()).collect();
    assert_eq!(names, vec!["a", "b", "", "/"]);
    assert_eq!(
        archive.files.iter().map(|f| f.has_stream).collect::<Vec<_>>(),
        vec![true, true, false, false]
    );
    assert_eq!(block_entries(&archive, 0), Ok(vec![0, 1]));
    for (name, data) in entries {
        assert_eq!(read_entry(&bytes, name, &Password::empty()), Ok(data));
    }
}

#[test]
fn a_changed_pack_byte_is_a_checksum_mismatch() {
    let methods = vec![EncoderConfiguration::new(EncoderMethod::Lzma2)];
    let text = b"some text that is long enough to be packed ".repeat(20);
    let bytes = write_archive(&methods, true, &[("a", text.clone()), ("b", b"more".to_vec())]);
    assert_eq!(read_entry(&bytes, "b", &Password::empty()), Ok(b"more".to_vec()));
    let archive = opened(&bytes);
    let (offset, size) = block_pack_range(&archive, 0).unwrap();
    for at in 0..size as usize {
        let mut changed = bytes.clone();
        changed[32 + offset as usize + at] ^= 0x40;
        assert_eq!(read_entry(&changed, "a", &Password::empty()), Err(Error::ChecksumMismatch));
        assert_eq!(read_entry(&changed, "b", &Password::empty()), Err(Error::ChecksumMismatch));
    }
}

#[test]
fn a_hundred_entries_in_aes_and_lzma2() {
    let password = Password::new("sevenz-rust");
    let options = AesEncoderOptions::new(password.clone(), [7; 16], [9; 16]);
    let methods = vec![
        EncoderConfiguration::new(EncoderMethod::Aes256Sha256)
            .with_options(EncoderOptions::Aes(options)),
        EncoderConfiguration::new(EncoderMethod::Lzma2),
    ];
    let mut seed = 0x2545_F491_4F6C_DD1Du64;
    let mut next = move || {
        seed ^= seed << 13;
        seed ^= seed >> 7;
        seed ^= seed << 17;
        seed
    };
    let names: Vec<String> = (0..100).map(|i| format!("dir/file{i}.txt")).collect();
    let entries: Vec<(&str, Vec<u8>)> = names
        .iter()
        .map(|name| {
            let len = 1024 + (next() % (9 * 1024 + 1)) as usize;
            let data = (0..len).map(|_| b' ' + (next() % 95) as u8).collect();
            (name.as_str(), data)
        })
        .collect();
    let bytes = write_archive(&methods, true, &entries);
    let archive = opened(&bytes);
    assert_eq!(archive.files.len(), 100);
    assert_eq!(archive.blocks.len(), 1);
    assert_eq!(check_password(&archive, &Password::empty()), Err(Error::PasswordRequired));
    assert_eq!(read_entry(&bytes, "dir/file0.txt", &Password::empty()), Err(Error::PasswordRequired));
    let output = decode_block(&bytes, &archive, 0, &password).unwrap();
    for (place, file) in block_entries(&archive, 0).unwrap().into_iter().enumerate() {
        let data = read_block_entry(&archive.blocks[0], &output, place).unwrap();
        assert_eq!(String::from_utf16(&archive.files[file].name).unwrap(), entries[file].0);
        assert_eq!(data, entries[file].1);
    }
    // A wrong password gives no bytes that pass for the entries.
    assert!(decode_block(&bytes, &archive, 0, &Password::new("sevenz-rusT")).is_err());
}

#[test]
fn an_archive_written_again_reads_the_same() {
    let methods = vec![EncoderConfiguration::new(EncoderMethod::Lzma2)];
    let entries = [("a", b"first".to_vec()), ("b", vec![]), ("c", b"third".to_vec())];
    let first = write_archive(&methods, false, &entries);
    let read: Vec<(String, Vec<u8>)> = opened(&first)
        .files
        .iter()
        .map(|file| {
            let name = String::from_utf16(&file.name).unwrap();
            let data = read_entry(&first, &name, &Password::empty()).unwrap();
            (name, data)
        })
        .collect();
    let again: Vec<(&str, Vec<u8>)> =
        read.iter().map(|(name, data)| (name.as_str(), data.clone())).collect();
    let second = write_archive(&methods, false, &again);
    assert_eq!(opened(&second).blocks.len(), 2);
    assert_eq!(opened(&second).files, opened(&first).files);
    for (name, data) in &read {
        assert_eq!(&read_entry(&second, name, &Password::empty()).unwrap(), data);
    }
}

fn copy_chain() -> Vec<EncoderConfiguration> {
    vec![EncoderConfiguration::new(EncoderMethod::Copy)]
}

#[test]
fn an_archive_takes_blocks_and_entries() {
    let mut archive = empty_archive();
    assert_eq!(archive, Archive {
        pack_pos: 0,
        pack_sizes: vec![],
        pack_crcs: vec![],
        blocks: vec![],
        files: vec![],
    });
    let mut directory = entry("dir");
    directory.is_directory = true;
    directory.has_stream = true;
    assert_eq!(push_entry(&mut archive, directory), Ok(()));
    assert_eq!(archive.files.len(), 1);
    assert!(!archive.files[0].has_stream);
    assert!(archive.files[0].is_directory);
    let mut a = entry("a");
    a.has_stream = false;
    let taken = push_block(
        &mut archive,
        &copy_chain(),
        vec![a, entry("b")],
        vec![3, 4],
        vec![11, 12],
        vec![7],
        13,
        7,
        14,
    );
    assert_eq!(taken, Ok(()));
    assert_eq!(archive.pack_sizes, vec![7]);
    assert_eq!(archive.pack_crcs, vec![Some(14)]);
    assert_eq!(archive.files.len(), 3);
    assert!(archive.files[1].has_stream && archive.files[2].has_stream);
    assert_eq!(archive.files[1].name, "a".encode_utf16().collect::<Vec<u16>>());
    assert_eq!(archive.files[2].windows_attributes, Some(0x20));
    assert_eq!(archive.blocks.len(), 1);
    let made = chain_block(&copy_chain(), vec![7], Some(13), vec![3, 4], vec![Some(11), Some(12)]);
    assert_eq!(Ok(archive.blocks[0].clone()), made);
    assert_eq!(block_entries(&archive, 0), Ok(vec![1, 2]));
    // What was taken is read back from the end header.
    assert_eq!(opened(&finish_archive(&[0; 7], &archive)), archive);
}

#[test]
fn a_block_must_hold_what_its_entries_state() {
    let bad_block = Err(Error::Other("A block does not hold what its entries state"));
    let push = |methods: Vec<EncoderConfiguration>,
                entries: Vec<ArchiveEntry>,
                sizes: Vec<u64>,
                crcs: Vec<u32>,
                unpack_sizes: Vec<u64>| {
        let mut archive = empty_archive();
        let taken =
            push_block(&mut archive, &methods, entries, sizes, crcs, unpack_sizes, 9, 1, 2);
        // An archive that refused a block is as it was.
        assert!(taken.is_ok() || archive == empty_archive());
        taken
    };
    assert_eq!(push(copy_chain(), vec![entry("a")], vec![5], vec![9], vec![5]), Ok(()));
    assert_eq!(
        push(vec![], vec![entry("a")], vec![5], vec![9], vec![]),
        Err(Error::Other("A block needs between 1 and 32 coders"))
    );
    assert_eq!(
        push(copy_chain(), vec![entry("a")], vec![5], vec![9], vec![5, 5]),
        Err(Error::Other("Sizes and coders, or sizes and CRCs, do not match"))
    );
    // No entries, or not a size and a CRC for each.
    assert_eq!(push(copy_chain(), vec![], vec![], vec![], vec![0]), bad_block);
    assert_eq!(push(copy_chain(), vec![entry("a")], vec![5, 1], vec![9], vec![6]), bad_block);
    assert_eq!(push(copy_chain(), vec![entry("a")], vec![5], vec![], vec![5]), bad_block);
    // An entry without bytes, a directory, an anti-item, a name with a zero unit.
    assert_eq!(
        push(copy_chain(), vec![entry("a"), entry("b")], vec![5, 0], vec![1, 2], vec![5]),
        bad_block
    );
    let mut directory = entry("d");
    directory.is_directory = true;
    assert_eq!(push(copy_chain(), vec![directory], vec![5], vec![9], vec![5]), bad_block);
    let mut anti = entry("d");
    anti.is_anti_item = true;
    assert_eq!(push(copy_chain(), vec![anti], vec![5], vec![9], vec![5]), bad_block);
    assert_eq!(push(copy_chain(), vec![entry("a\0b")], vec![5], vec![9], vec![5]), bad_block);
    // Sizes that do not add up to the output of the block, or to no number at all.
    assert_eq!(
        push(copy_chain(), vec![entry("a"), entry("b")], vec![5, 1], vec![1, 2], vec![5]),
        bad_block
    );
    assert_eq!(
        push(copy_chain(), vec![entry("a"), entry("b")], vec![u64::MAX, 6], vec![1, 2], vec![5]),
        bad_block
    );
    // The CRC of the one file of a block is the CRC of the block.
    assert_eq!(push(copy_chain(), vec![entry("a")], vec![5], vec![8], vec![5]), bad_block);
    assert_eq!(
        push(copy_chain(), vec![entry("a"), entry("b")], vec![2, 3], vec![7, 8], vec![5]),
        Ok(())
    );
}

#[test]
fn a_name_with_a_zero_unit_is_refused() {
    assert!(name_is_clean(&vec![]));
    assert!(name_is_clean(&vec![0x61, 0x2F, 0xFFFF]));
    assert!(!name_is_clean(&vec![0x61, 0, 0x62]));
    let mut archive = empty_archive();
    assert_eq!(
        push_entry(&mut archive, entry("a\0")),
        Err(Error::Other("A name holds a zero unit"))
    );
    assert_eq!(archive, empty_archive());
    assert_eq!(push_entry(&mut archive, entry("")), Ok(()));
    assert_eq!(push_entry(&mut archive, entry("/")), Ok(()));
    assert_eq!(archive.files.len(), 2);
}

#[test]
fn a_pack_stream_is_taken_from_behind_the_start_header() {
    let mut archive = empty_archive();
    for (name, data) in [("a", b"abc"), ("b", b"xyz")] {
        let crc = crc32_of(data);
        push_block(&mut archive, &copy_chain(), vec![entry(name)], vec![3], vec![crc], vec![3], crc, 3, crc)
            .unwrap();
    }
    let bytes = finish_archive(b"abcxyz", &archive);
    assert_eq!(block_pack_index(&archive, 0), Some(0));
    assert_eq!(block_pack_index(&archive, 1), Some(1));
    assert_eq!(block_pack_index(&archive, 2), None);
    assert_eq!(read_pack(&bytes, &archive, 0), Ok(b"abc".to_vec()));
    assert_eq!(read_pack(&bytes, &archive, 1), Ok(b"xyz".to_vec()));
    assert_eq!(read_pack(&bytes, &archive, 2), Err(Error::Other("No pack stream for the block")));
    assert_eq!(
        read_pack(&bytes[..37], &archive, 1),
        Err(Error::Other("Pack stream lies outside the archive"))
    );
    assert_eq!(read_pack(&bytes[..38], &archive, 1), Ok(b"xyz".to_vec()));
    assert_eq!(
        read_pack(&bytes[..10], &archive, 0),
        Err(Error::Other("Pack stream lies outside the archive"))
    );
    let mut changed = bytes.clone();
    changed[36] ^= 1;
    assert_eq!(read_pack(&changed, &archive, 0), Ok(b"abc".to_vec()));
    assert_eq!(read_pack(&changed, &archive, 1), Err(Error::ChecksumMismatch));
    // A pack stream without a declared CRC passes.
    archive.pack_crcs[1] = None;
    assert_eq!(read_pack(&changed, &archive, 1), Ok(b"xxz".to_vec()));
}

#[test]
fn the_files_of_a_block_are_cut_from_its_output() {
    let mut archive = empty_archive();
    let contents: [&[u8]; 3] = [b"one", b"three", b"fives"];
    push_block(
        &mut archive,
        &copy_chain(),
        vec![entry("a"), entry("b"), entry("c")],
        vec![3, 5, 5],
        contents.iter().map(|c| crc32_of(c)).collect(),
        vec![13],
        crc32_of(b"onethreefives"),
        13,
        0,
    )
    .unwrap();
    let block = &mut archive.blocks[0];
    for (place, content) in contents.iter().enumerate() {
        assert_eq!(read_block_entry(block, b"onethreefives", place), Ok(content.to_vec()));
    }
    assert_eq!(
        read_block_entry(block, b"onethreefives", 3),
        Err(Error::Other("No such file in the block"))
    );
    assert_eq!(read_block_entry(block, b"onethreefivez", 1), Ok(b"three".to_vec()));
    assert_eq!(read_block_entry(block, b"onethreefivez", 2), Err(Error::ChecksumMismatch));
    assert_eq!(
        read_block_entry(block, b"onethreefive", 2),
        Err(Error::Other("Entry lies outside the output of its block"))
    );
    // Without a declared CRC the bytes pass as they are.
    block.substream_crcs[2] = None;
    assert_eq!(read_block_entry(block, b"onethreefivez", 2), Ok(b"fivez".to_vec()));
}

#[test]
fn an_end_header_in_a_block_of_its_own() {
    let methods = vec![EncoderConfiguration::new(EncoderMethod::Lzma2)];
    let mut archive = empty_archive();
    let names: Vec<String> = (0..50).map(|i| format!("some/long/path/of/file{i}.txt")).collect();
    let mut pack = Vec::new();
    for name in &names {
        let data = name.as_bytes();
        let crc = crc32_of(data);
        push_block(
            &mut archive,
            &vec![EncoderConfiguration::new(EncoderMethod::Copy)],
            vec![entry(name)],
            vec![data.len() as u64],
            vec![crc],
            vec![data.len() as u64],
            crc,
            data.len() as u64,
            crc,
        )
        .unwrap();
        pack.extend_from_slice(data);
    }
    let header = write_header(&archive);
    let packed_header = lzma2(&header);
    assert!(packed_header.len() < header.len());
    let header_crc = crc32_of(&header);
    let holder = Archive {
        pack_pos: pack.len() as u64,
        pack_sizes: vec![packed_header.len() as u64],
        pack_crcs: vec![Some(crc32_of(&packed_header))],
        blocks: vec![chain_block(
            &methods,
            vec![header.len() as u64],
            Some(header_crc),
            vec![header.len() as u64],
            vec![Some(header_crc)],
        )
        .unwrap()],
        files: vec![],
    };
    let bytes = assemble(&[pack, packed_header].concat(), &write_encoded_header(&holder));

    let found = match open_archive(&bytes).unwrap() {
        EndHeader::Encoded(streams) => Archive {
            pack_pos: streams.pack_pos,
            pack_sizes: streams.pack_sizes,
            pack_crcs: streams.pack_crcs,
            blocks: streams.blocks,
            files: vec![],
        },
        EndHeader::Plain(_) => panic!("the header is encoded"),
    };
    assert_eq!(found, holder);
    let decoded = decode_block(&bytes, &found, 0, &Password::empty()).unwrap();
    assert_eq!(decoded, header);
    assert_eq!(read_header(&decoded), Ok(archive.clone()));
    for (block, name) in names.iter().enumerate() {
        assert_eq!(read_pack(&bytes, &archive, block), Ok(name.as_bytes().to_vec()));
    }
}

#[test]
fn a_group_is_written_block_by_block() {
    let methods = copy_chain();
    let files = vec![entry("a"), entry("none"), entry("b"), entry("c")];
    let contents = vec![b"abc".to_vec(), vec![], b"de".to_vec(), b"f".to_vec()];
    let mut archive = empty_archive();
    let mut pack = Vec::new();
    assert_eq!(write_group(&mut archive, &mut pack, &methods, true, &files, &contents), Ok(()));
    assert_eq!(pack, b"abcdef");
    assert_eq!(archive.blocks.len(), 1);
    assert_eq!(archive.blocks[0].substream_sizes, vec![3, 2, 1]);
    let names: Vec<String> =
        archive.files.iter().map(|f| String::from_utf16(&f.name).unwrap()).collect();
    assert_eq!(names, vec!["a", "b", "c", "none"]);

    // The same as the blocks and the entries, one by one.
    let mut by_hand = empty_archive();
    let mut pack_by_hand = Vec::new();
    let with_content = vec![entry("a"), entry("b"), entry("c")];
    let their_contents = vec![b"abc".to_vec(), b"de".to_vec(), b"f".to_vec()];
    write_block(&mut by_hand, &mut pack_by_hand, &methods, with_content, &their_contents).unwrap();
    push_entry(&mut by_hand, entry("none")).unwrap();
    assert_eq!(archive, by_hand);
    assert_eq!(pack, pack_by_hand);

    // Without shared blocks each entry that has content is a block.
    let mut apart = empty_archive();
    let mut pack_apart = Vec::new();
    assert_eq!(write_group(&mut apart, &mut pack_apart, &methods, false, &files, &contents), Ok(()));
    assert_eq!(apart.blocks.len(), 3);
    assert_eq!(apart.pack_sizes, vec![3, 2, 1]);
    assert_eq!(pack_apart, b"abcdef");
    // Entries and contents that are not as many as each other.
    let fewer = vec![b"abc".to_vec()];
    assert_eq!(
        write_group(&mut apart, &mut pack_apart, &methods, false, &files, &fewer),
        Err(Error::Other("A block does not hold what its entries state"))
    );
    assert_eq!(apart.blocks.len(), 3);
}

#[test]
fn a_group_without_content_asks_no_codec() {
    // PPMd parameters out of range: no encoder could be made, and none is asked for.
    let ppmd = EncoderConfiguration::new(EncoderMethod::Ppmd).with_options(EncoderOptions::Ppmd(
        sevenz_rust2::options::PpmdOptions { order: 1, memory_size: 1 << 20 },
    ));
    let mut directory = entry("dir");
    directory.is_directory = true;
    let files = vec![directory, entry("empty")];
    let contents = vec![vec![], vec![]];
    let mut archive = empty_archive();
    let mut pack = Vec::new();
    assert_eq!(write_group(&mut archive, &mut pack, &vec![ppmd.clone()], true, &files, &contents), Ok(()));
    assert!(archive.blocks.is_empty());
    assert!(pack.is_empty());
    assert_eq!(archive.files.len(), 2);
    assert!(archive.files.iter().all(|file| !file.has_stream));
    assert_eq!(write_group(&mut archive, &mut pack, &vec![ppmd.clone()], false, &vec![], &vec![]), Ok(()));
    // With content the encoder is asked for, and refused.
    assert_eq!(
        write_group(&mut archive, &mut pack, &vec![ppmd], true, &files, &vec![vec![], vec![1]]),
        Err(Error::Other("PPMD parameters out of range"))
    );
    // A directory with content fits no block.
    assert_eq!(
        write_group(&mut archive, &mut pack, &copy_chain(), true, &files, &vec![vec![1], vec![]]),
        Err(Error::Other("A block does not hold what its entries state"))
    );
}
