use sevenz_rust2::archive::{Archive, ArchiveEntry, BindPair, Block};
use sevenz_rust2::coder::Coder;
use sevenz_rust2::error::Error;
use sevenz_rust2::header_read::read_header;
use sevenz_rust2::header_write::write_header;
use sevenz_rust2::method::EncoderMethod;

fn name(text: &str) -> Vec<u16> {
    text.encode_utf16().collect()
}

fn file(text: &str) -> ArchiveEntry {
    ArchiveEntry {
        name: name(text),
        has_stream: true,
        is_directory: false,
        is_anti_item: false,
        creation_date: None,
        access_date: None,
        last_modified_date: None,
        windows_attributes: None,
    }
}

fn coder(method: EncoderMethod, properties: &[u8]) -> Coder {
    Coder {
        method_id: method.id(),
        num_in_streams: 1,
        num_out_streams: 1,
        properties: properties.to_vec(),
    }
}

fn sample() -> Archive {
    let solid = Block {
        coders: vec![coder(EncoderMethod::Lzma2, &[22])],
        bind_pairs: vec![],
        packed_streams: vec![0],
        unpack_sizes: vec![1000],
        crc: None,
        substream_sizes: vec![300, 600, 100],
        substream_crcs: vec![Some(0x1111_1111), None, Some(0x3333_3333)],
    };
    let chained = Block {
        coders: vec![
            coder(EncoderMethod::Lzma2, &[24]),
            coder(EncoderMethod::Aes256Sha256, &[0x13, 0x00]),
        ],
        bind_pairs: vec![BindPair { in_index: 0, out_index: 1 }],
        packed_streams: vec![1],
        unpack_sizes: vec![5000, 5008],
        crc: Some(0xDEAD_BEEF),
        substream_sizes: vec![5000],
        substream_crcs: vec![Some(0xDEAD_BEEF)],
    };
    let mut dir = file("folder");
    dir.has_stream = false;
    dir.is_directory = true;
    dir.windows_attributes = Some(0x10);
    let mut empty = file("folder/empty.txt");
    empty.has_stream = false;
    empty.last_modified_date = Some(0x01D9_0000_0000_0000);
    let mut gone = file("gone");
    gone.has_stream = false;
    gone.is_anti_item = true;
    let mut first = file("folder/a.txt");
    first.last_modified_date = Some(132_000_000_000_000_000);
    first.creation_date = Some(1);
    first.access_date = Some(u64::MAX);
    first.windows_attributes = Some(0x20);
    Archive {
        pack_pos: 0,
        pack_sizes: vec![700, 5008],
        pack_crcs: vec![Some(0xAAAA_AAAA), Some(0xBBBB_BBBB)],
        blocks: vec![solid, chained],
        files: vec![
            dir,
            first,
            file("folder/b \u{1F600}.bin"),
            empty,
            file(""),
            gone,
            file("/"),
        ],
    }
}

fn same(a: &Archive, b: &Archive) -> bool {
    format!("{a:?}") == format!("{b:?}")
}

#[test]
fn a_header_is_read_back_as_it_was_written() {
    let archive = sample();
    let bytes = write_header(&archive);
    let read = read_header(&bytes).unwrap();
    assert!(same(&read, &archive));
    assert_eq!(read.files[4].name, Vec::<u16>::new());
    assert_eq!(read.files[6].name, vec![0x2F]);
}

#[test]
fn the_header_of_no_entries() {
    let archive = Archive {
        pack_pos: 0,
        pack_sizes: vec![],
        pack_crcs: vec![],
        blocks: vec![],
        files: vec![],
    };
    let bytes = write_header(&archive);
    assert_eq!(bytes, vec![0x01, 0x00]);
    let read = read_header(&bytes).unwrap();
    assert!(read.files.is_empty());
    assert!(read.blocks.is_empty());
}

#[test]
fn a_single_file_in_a_single_block() {
    let archive = Archive {
        pack_pos: 0,
        pack_sizes: vec![9],
        pack_crcs: vec![None],
        blocks: vec![Block {
            coders: vec![coder(EncoderMethod::Lzma2, &[22])],
            bind_pairs: vec![],
            packed_streams: vec![0],
            unpack_sizes: vec![5],
            crc: Some(0x3610_A686),
            substream_sizes: vec![5],
            substream_crcs: vec![Some(0x3610_A686)],
        }],
        files: vec![file("a.txt")],
    };
    let bytes = write_header(&archive);
    assert_eq!(
        bytes,
        vec![
            0x01, 0x04, // header, main streams
            0x06, 0x00, 0x01, 0x09, 0x09, 0x00, // pack info
            0x07, 0x0B, 0x01, 0x00, // unpack info: one folder
            0x01, 0x21, 0x21, 0x01, 22, // one coder: LZMA2 with one property byte
            0x0C, 0x05, // unpack size
            0x0A, 0x01, 0x86, 0xA6, 0x10, 0x36, // CRC
            0x00, // end of unpack info
            0x08, 0x00, // substreams: nothing to say
            0x00, // end of streams
            0x05, 0x01, // files: one
            0x11, 0x0D, 0x00, b'a', 0, b'.', 0, b't', 0, b'x', 0, b't', 0, 0, 0, // names
            0x00, // end of files
            0x00,
        ]
    );
    let read = read_header(&bytes).unwrap();
    assert!(same(&read, &archive));
    assert_eq!(read.blocks.len(), 1);
    assert_eq!(read.blocks[0].coders.len(), 1);
    assert_eq!(read.blocks[0].coders[0].method_id, EncoderMethod::Lzma2.id());
}

#[test]
fn a_cut_header_is_never_read() {
    let bytes = write_header(&sample());
    for cut in 0..bytes.len() {
        assert!(read_header(&bytes[..cut]).is_err(), "cut at {cut}");
    }
    let mut longer = bytes.clone();
    longer.push(0);
    assert!(matches!(read_header(&longer), Err(Error::Other("Malformed archive header"))));
}

#[test]
fn what_is_not_supported_is_named() {
    assert!(matches!(
        read_header(&[0x01, 0x03, 0x00]),
        Err(Error::UnsupportedFeature("Additional streams"))
    ));
    // A coder whose flag byte asks for alternative methods.
    let bytes = [0x01, 0x04, 0x07, 0x0B, 0x01, 0x00, 0x01, 0x81, 0x21];
    assert!(matches!(
        read_header(&bytes),
        Err(Error::UnsupportedFeature("Alternative methods of a coder"))
    ));
    // Folders kept outside the header.
    let bytes = [0x01, 0x04, 0x07, 0x0B, 0x01, 0x01];
    assert!(matches!(
        read_header(&bytes),
        Err(Error::UnsupportedFeature("External header data"))
    ));
    assert!(matches!(read_header(&[0x17, 0x00]), Err(Error::Other("Malformed archive header"))));
}

#[test]
fn entries_and_substreams_have_to_agree() {
    let mut archive = sample();
    archive.files.push(file("one too many"));
    let bytes = write_header(&archive);
    assert!(matches!(read_header(&bytes), Err(Error::Other("Malformed archive header"))));
}

#[test]
fn properties_of_the_archive_and_unknown_properties_are_skipped() {
    let bytes = [
        0x01, // header
        0x02, 0x77, 0x02, 0xAA, 0xBB, 0x00, // archive properties: one of two bytes
        0x05, 0x01, // one file
        0x19, 0x03, 0, 0, 0, // dummy
        0x11, 0x05, 0x00, b'x', 0, 0, 0, // names
        0x0E, 0x01, 0x80, // empty stream
        0x00, 0x00,
    ];
    let read = read_header(&bytes).unwrap();
    assert_eq!(read.files.len(), 1);
    assert_eq!(read.files[0].name, vec![b'x' as u16]);
    assert!(!read.files[0].has_stream);
    assert!(read.files[0].is_directory);
}
