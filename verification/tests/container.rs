use sevenz_rust2::archive::{Archive, ArchiveEntry, Block};
use sevenz_rust2::coder::Coder;
use sevenz_rust2::container::{assemble, finish_archive, open_archive, EndHeader};
use sevenz_rust2::crc::crc32_of;
use sevenz_rust2::error::Error;
use sevenz_rust2::header_write::write_header;
use sevenz_rust2::method::EncoderMethod;
use sevenz_rust2::password::Password;
use sevenz_rust2::reader::{block_entries, check_password, entry_bytes, locate_entry};
use sevenz_rust2::start_header::{
    locate_end_header, read_start_header, write_start_header, StartHeader,
};

fn file(text: &str) -> ArchiveEntry {
    ArchiveEntry {
        name: text.encode_utf16().collect(),
        has_stream: true,
        is_directory: false,
        is_anti_item: false,
        creation_date: None,
        access_date: None,
        last_modified_date: None,
        windows_attributes: None,
    }
}

fn empty() -> Archive {
    Archive { pack_pos: 0, pack_sizes: vec![], pack_crcs: vec![], blocks: vec![], files: vec![] }
}

fn copy_block(sizes: &[u64], method: EncoderMethod) -> Block {
    let total: u64 = sizes.iter().sum();
    Block {
        coders: vec![Coder {
            method_id: method.id(),
            num_in_streams: 1,
            num_out_streams: 1,
            properties: vec![],
        }],
        bind_pairs: vec![],
        packed_streams: vec![0],
        unpack_sizes: vec![total],
        crc: None,
        substream_sizes: sizes.to_vec(),
        substream_crcs: sizes.iter().map(|_| None).collect(),
    }
}

/// Three blocks of ten files each.
fn three_blocks() -> Archive {
    let sizes = [7u64; 10];
    Archive {
        pack_pos: 0,
        pack_sizes: vec![70, 70, 70],
        pack_crcs: vec![None, None, None],
        blocks: vec![
            copy_block(&sizes, EncoderMethod::Copy),
            copy_block(&sizes, EncoderMethod::Copy),
            copy_block(&sizes, EncoderMethod::Copy),
        ],
        files: (1..=30).map(|i| file(&format!("file{i}.txt"))).collect(),
    }
}

#[test]
fn an_empty_archive() {
    let bytes = finish_archive(&[], &empty());
    assert!(bytes.len() >= 32);
    assert_eq!(&bytes[..8], &[0x37, 0x7A, 0xBC, 0xAF, 0x27, 0x1C, 0x00, 0x04]);
    match open_archive(&bytes).unwrap() {
        EndHeader::Plain(archive) => {
            assert!(archive.files.is_empty());
            assert!(archive.blocks.is_empty());
        }
        EndHeader::Encoded(_) => panic!("the header was written plain"),
    }
    // An archive of the start header alone is empty too.
    let bare = assemble(&[], &[]);
    assert_eq!(bare.len(), 32);
    assert!(matches!(open_archive(&bare), Ok(EndHeader::Plain(_))));
}

#[test]
fn the_start_header_is_read_back() {
    let header = StartHeader {
        next_header_offset: 0x0102_0304_0506,
        next_header_size: 77,
        next_header_crc: 0xCAFE_F00D,
    };
    let bytes = write_start_header(&header);
    assert_eq!(bytes.len(), 32);
    assert_eq!(&bytes[..8], &[0x37, 0x7A, 0xBC, 0xAF, 0x27, 0x1C, 0x00, 0x04]);
    assert_eq!(&bytes[12..20], &[0x06, 0x05, 0x04, 0x03, 0x02, 0x01, 0, 0]);
    assert_eq!(u32::from_le_bytes([bytes[8], bytes[9], bytes[10], bytes[11]]), crc32_of(&bytes[12..]));
    assert_eq!(read_start_header(&bytes).unwrap(), header);
}

#[test]
fn what_is_no_archive_is_refused() {
    assert!(matches!(read_start_header(&[0u8; 31]), Err(Error::Other("Start header is truncated"))));
    assert!(matches!(read_start_header(&[0u8; 32]), Err(Error::BadSignature)));
    let mut bytes = finish_archive(b"pack", &empty());
    bytes[0] = b'8';
    assert!(matches!(open_archive(&bytes), Err(Error::BadSignature)));
    let mut bytes = finish_archive(b"pack", &empty());
    bytes[13] ^= 1;
    assert!(matches!(open_archive(&bytes), Err(Error::ChecksumMismatch)));
    let mut bytes = finish_archive(b"pack", &empty());
    let last = bytes.len() - 1;
    bytes[last] ^= 0xFF;
    assert!(matches!(open_archive(&bytes), Err(Error::ChecksumMismatch)));
}

#[test]
fn an_archive_without_its_last_byte_is_never_opened() {
    for archive in [empty(), three_blocks()] {
        let mut bytes = finish_archive(&[9u8; 210], &archive);
        assert!(open_archive(&bytes).is_ok());
        bytes.pop();
        assert!(matches!(
            open_archive(&bytes),
            Err(Error::ChecksumMismatch) | Err(Error::Other(_))
        ));
        assert!(matches!(
            locate_end_header(&bytes),
            Err(Error::Other("End header lies outside the archive"))
        ));
    }
}

#[test]
fn the_pack_streams_stand_behind_the_start_header() {
    let pack: Vec<u8> = (0..210u32).map(|i| i as u8).collect();
    let archive = three_blocks();
    let bytes = finish_archive(&pack, &archive);
    let (start, end) = locate_end_header(&bytes).unwrap();
    assert_eq!(start, 32 + 210);
    assert_eq!(end, bytes.len());
    assert_eq!(&bytes[32..242], &pack[..]);
    assert_eq!(&bytes[start..end], &write_header(&archive)[..]);
}

#[test]
fn the_entries_of_the_second_of_three_blocks() {
    let bytes = finish_archive(&[0u8; 210], &three_blocks());
    let archive = match open_archive(&bytes).unwrap() {
        EndHeader::Plain(archive) => archive,
        EndHeader::Encoded(_) => panic!("the header was written plain"),
    };
    assert_eq!(archive.blocks.len(), 3);
    // Entries 11 to 20, counted from one.
    assert_eq!(block_entries(&archive, 1).unwrap(), (10..20).collect::<Vec<usize>>());
    assert_eq!(block_entries(&archive, 0).unwrap(), (0..10).collect::<Vec<usize>>());
    assert_eq!(block_entries(&archive, 2).unwrap(), (20..30).collect::<Vec<usize>>());
    assert!(matches!(block_entries(&archive, 3), Err(Error::Other("No such block"))));
    let names: Vec<String> = block_entries(&archive, 1)
        .unwrap()
        .iter()
        .map(|&i| String::from_utf16(&archive.files[i].name).unwrap())
        .collect();
    assert_eq!(names[0], "file11.txt");
    assert_eq!(names[9], "file20.txt");
}

#[test]
fn entries_without_a_stream_belong_to_no_block() {
    let mut archive = three_blocks();
    let mut dir = file("dir");
    dir.has_stream = false;
    dir.is_directory = true;
    archive.files.insert(0, dir.clone());
    archive.files.insert(15, dir);
    assert_eq!(block_entries(&archive, 0).unwrap(), (1..11).collect::<Vec<usize>>());
    assert_eq!(
        block_entries(&archive, 1).unwrap(),
        vec![11, 12, 13, 14, 16, 17, 18, 19, 20, 21]
    );
}

#[test]
fn an_entry_is_held_against_its_crc() {
    let output = b"aaaahellobbbb";
    assert_eq!(entry_bytes(output, 4, 5, Some(0x3610_A686)).unwrap(), b"hello");
    assert_eq!(entry_bytes(output, 4, 5, None).unwrap(), b"hello");
    assert_eq!(entry_bytes(output, 13, 0, None).unwrap(), b"");
    assert!(matches!(entry_bytes(output, 4, 5, Some(0x3610_A687)), Err(Error::ChecksumMismatch)));
    assert!(matches!(entry_bytes(b"aaaahellpbbbb", 4, 5, Some(0x3610_A686)), Err(Error::ChecksumMismatch)));
    assert_eq!(entry_bytes(b"aaaahellpbbbb", 4, 5, None).unwrap(), b"hellp");
    assert!(matches!(
        entry_bytes(output, 9, 5, None),
        Err(Error::Other("Entry lies outside the output of its block"))
    ));
    assert!(matches!(
        entry_bytes(output, usize::MAX, 2, None),
        Err(Error::Other("Entry lies outside the output of its block"))
    ));
}

#[test]
fn an_encrypting_coder_asks_for_a_password() {
    let mut archive = three_blocks();
    assert!(check_password(&archive, &Password::empty()).is_ok());
    archive.blocks[2] = copy_block(&[7; 10], EncoderMethod::Aes256Sha256);
    assert!(matches!(check_password(&archive, &Password::empty()), Err(Error::PasswordRequired)));
    assert!(check_password(&archive, &Password::new("sevenz-rust")).is_ok());
}

#[test]
fn an_encoded_header_is_told_apart() {
    // The id of an encoded header, then the streams of the block that holds it.
    let streams = [
        0x17, 0x06, 0x20, 0x01, 0x09, 0x10, 0x00, // pack info: one stream of 16 bytes at 32
        0x07, 0x0B, 0x01, 0x00, 0x01, 0x21, 0x21, 0x01, 0x16, 0x0C, 0x30, 0x0A, 0x01, 1, 2, 3, 4,
        0x00, // unpack info
        0x00,
    ];
    let bytes = assemble(&[0u8; 48], &streams);
    match open_archive(&bytes).unwrap() {
        EndHeader::Encoded(found) => {
            assert_eq!(found.pack_pos, 32);
            assert_eq!(found.pack_sizes, vec![16]);
            assert_eq!(found.blocks.len(), 1);
            assert_eq!(found.blocks[0].unpack_sizes, vec![0x30]);
            assert_eq!(found.blocks[0].crc, Some(0x0403_0201));
            assert_eq!(found.blocks[0].substream_sizes, vec![0x30]);
        }
        EndHeader::Plain(_) => panic!("the header is encoded"),
    }
}

#[test]
fn an_entry_is_found_in_its_block() {
    let mut archive = three_blocks();
    assert_eq!(locate_entry(&archive, 0), Some((0, 0)));
    assert_eq!(locate_entry(&archive, 9), Some((0, 9)));
    assert_eq!(locate_entry(&archive, 10), Some((1, 0)));
    assert_eq!(locate_entry(&archive, 17), Some((1, 7)));
    assert_eq!(locate_entry(&archive, 29), Some((2, 9)));
    assert_eq!(locate_entry(&archive, 30), None);
    // An entry without a stream has its bytes in no block, and the entries behind it
    // move up by one place.
    archive.files[12].has_stream = false;
    archive.files.push(file("last.txt"));
    assert_eq!(locate_entry(&archive, 12), None);
    assert_eq!(locate_entry(&archive, 11), Some((1, 1)));
    assert_eq!(locate_entry(&archive, 13), Some((1, 2)));
    assert_eq!(locate_entry(&archive, 30), Some((2, 9)));
}
