use sevenz_rust2::archive::{Archive, ArchiveEntry};
use sevenz_rust2::collect::{empty_archive, write_group};
use sevenz_rust2::container::{open_archive, EndHeader};
use sevenz_rust2::encoder::get_options_as_properties;
use sevenz_rust2::crc::crc32_of;
use sevenz_rust2::entries::{
    entry_places, entry_stated, read_entries, read_entry, EntryReader,
};
use sevenz_rust2::error::Error;
use sevenz_rust2::finish::{seal_archive, write_archive};
use sevenz_rust2::header_write::write_header;
use sevenz_rust2::method::EncoderMethod;
use sevenz_rust2::open::open;
use sevenz_rust2::options::{
    AesEncoderOptions, EncoderConfiguration, EncoderOptions, Lzma2Options, LzmaOptions,
};
use sevenz_rust2::password::Password;
use sevenz_rust2::reader::{block_pack_range, locate_entry};
use sevenz_rust2::writer::check_methods;

fn record(name: &str) -> ArchiveEntry {
    ArchiveEntry {
        name: name.encode_utf16().collect(),
        has_stream: true,
        is_directory: false,
        is_anti_item: false,
        creation_date: None,
        access_date: None,
        last_modified_date: Some(133_000_000_000_000_000),
        windows_attributes: None,
    }
}

fn text(seed: u32, len: usize) -> Vec<u8> {
    let mut state = seed.wrapping_mul(2_654_435_761).wrapping_add(1);
    (0..len)
        .map(|_| {
            state = state.wrapping_mul(1_664_525).wrapping_add(1_013_904_223);
            b"abcdefgh \n"[(state >> 24) as usize % 10]
        })
        .collect()
}

/// Ten entries in each of three blocks, with an entry of no bytes behind each block
/// and one more behind the last.
fn three_blocks() -> Vec<(String, Vec<u8>)> {
    let mut entries = Vec::new();
    for block in 0..3u32 {
        for i in 0..10u32 {
            let n = block * 10 + i;
            entries.push((format!("file{n}.txt"), text(n, 100 + 37 * n as usize)));
        }
        entries.push((format!("empty{block}"), Vec::new()));
    }
    entries.push(("last".to_string(), Vec::new()));
    entries
}

fn collect(methods: &Vec<EncoderConfiguration>, entries: &[(String, Vec<u8>)]) -> (Vec<u8>, Archive) {
    let mut archive = empty_archive();
    let mut pack = Vec::new();
    for group in entries.chunks(11) {
        let files = group.iter().map(|(name, _)| record(name)).collect();
        let contents = group.iter().map(|(_, data)| data.clone()).collect();
        write_group(&mut archive, &mut pack, methods, true, &files, &contents).unwrap();
    }
    (pack, archive)
}

fn contents_of(entries: &[(String, Vec<u8>)]) -> Vec<Vec<u8>> {
    entries.iter().map(|(_, data)| data.clone()).collect()
}

fn aes(password: &str) -> EncoderConfiguration {
    let options = AesEncoderOptions::new(Password::new(password), [3; 16], [7; 16]);
    EncoderConfiguration::new(EncoderMethod::Aes256Sha256).with_options(EncoderOptions::Aes(options))
}

#[test]
fn an_archive_opens_with_a_plain_and_with_an_encoded_end_header() {
    let methods = vec![EncoderConfiguration::new(EncoderMethod::Lzma2)];
    let entries = three_blocks();
    let (pack, archive) = collect(&methods, &entries);
    assert_eq!(archive.blocks.len(), 3);
    assert_eq!(archive.files.len(), 34);

    let plain = write_archive(&pack, &archive, &methods, false).unwrap();
    let sealed = write_archive(&pack, &archive, &methods, true).unwrap();
    assert_ne!(plain, sealed);
    assert!(matches!(open_archive(&plain), Ok(EndHeader::Plain(_))));
    assert!(matches!(open_archive(&sealed), Ok(EndHeader::Encoded(_))));
    assert_eq!(sealed, seal_archive(&pack, &methods, &write_header(&archive)).unwrap());
    // The pack streams stand where they stood, and the encoded header is smaller.
    assert_eq!(plain[32..32 + pack.len()], sealed[32..32 + pack.len()]);
    assert!(sealed.len() < plain.len());

    for bytes in [&plain, &sealed] {
        let found = open(bytes, &Password::empty(), usize::MAX).unwrap();
        assert_eq!(found, archive);
        assert_eq!(
            read_entries(bytes, &found, &Password::empty(), usize::MAX, 1),
            Ok(contents_of(&entries))
        );
    }
    // Nothing is opened of bytes that are cut short, or that are no archive.
    assert!(open(&sealed[..sealed.len() - 1], &Password::empty(), usize::MAX).is_err());
    assert!(open(&sealed[..20], &Password::empty(), usize::MAX).is_err());
    assert!(open(b"no archive at all, but long enough for a start", &Password::empty(), 1).is_err());
}

#[test]
fn an_encoded_end_header_is_decoded_within_the_memory_limit() {
    let methods = vec![EncoderConfiguration::new(EncoderMethod::Lzma2)];
    let (pack, archive) = collect(&methods, &three_blocks());
    let sealed = write_archive(&pack, &archive, &methods, true).unwrap();
    assert_eq!(
        open(&sealed, &Password::empty(), 1),
        Err(Error::MaxMemLimited { max_kb: 1, actaul_kb: 8296 })
    );
    assert_eq!(open(&sealed, &Password::empty(), 8296), Ok(archive));
}

#[test]
fn an_encoded_end_header_under_a_password() {
    let methods = vec![aes("sevenz-rust"), EncoderConfiguration::new(EncoderMethod::Lzma2)];
    let entries = three_blocks();
    let (pack, archive) = collect(&methods, &entries);
    let sealed = write_archive(&pack, &archive, &methods, true).unwrap();
    let password = Password::new("sevenz-rust");
    let found = open(&sealed, &password, usize::MAX).unwrap();
    assert_eq!(found, archive);
    assert_eq!(read_entries(&sealed, &found, &password, usize::MAX, 1), Ok(contents_of(&entries)));
    assert_eq!(open(&sealed, &Password::empty(), usize::MAX), Err(Error::PasswordRequired));
    assert!(open(&sealed, &Password::new("another"), usize::MAX).is_err());
    // With a plain end header the archive opens, and its entries ask for the password.
    let plain = write_archive(&pack, &archive, &methods, false).unwrap();
    assert_eq!(open(&plain, &Password::empty(), usize::MAX), Err(Error::PasswordRequired));
    let found = open(&plain, &Password::new("another"), usize::MAX).unwrap();
    assert!(read_entries(&plain, &found, &Password::new("another"), usize::MAX, 1).is_err());
}

#[test]
fn a_chain_is_held_against_the_ranges_of_its_options() {
    let mut wide = Lzma2Options::from_level(6);
    assert!(wide.is_valid());
    wide.chunk_size = u64::MAX;
    assert!(!wide.is_valid());
    let bad = EncoderConfiguration::new(EncoderMethod::Lzma2).with_options(EncoderOptions::Lzma2(wide));
    let good = EncoderConfiguration::new(EncoderMethod::Lzma2)
        .with_options(EncoderOptions::Lzma2(Lzma2Options::from_level_mt(3, 2, u64::MAX)));
    assert!(!bad.is_valid());
    assert!(good.is_valid());
    assert!(EncoderConfiguration::new(EncoderMethod::Copy).is_valid());
    assert!(LzmaOptions::from_level(9).is_valid());
    assert!(check_methods(&[]));
    assert!(check_methods(&[good.clone(), aes("x")]));
    assert!(!check_methods(&[good.clone(), bad.clone()]));

    let archive = empty_archive();
    let refused = Err(Error::Other("The options of a method are outside its ranges"));
    assert_eq!(write_archive(&[], &archive, &vec![good.clone(), bad.clone()], true), refused);
    assert!(write_archive(&[], &archive, &vec![good.clone(), bad], false).is_ok());
    assert_eq!(
        write_archive(&[], &archive, &vec![], true),
        Err(Error::Other("A block needs between 1 and 32 coders"))
    );
    assert_eq!(
        write_archive(&[], &archive, &vec![good.clone(); 33], true),
        Err(Error::Other("A block needs between 1 and 32 coders"))
    );
    let sealed = write_archive(&[], &archive, &vec![good], true).unwrap();
    assert_eq!(open(&sealed, &Password::empty(), usize::MAX), Ok(archive));
}

#[test]
fn entries_are_read_one_by_one_in_the_order_of_the_archive() {
    let methods = vec![EncoderConfiguration::new(EncoderMethod::Lzma2)];
    let entries = three_blocks();
    let (pack, archive) = collect(&methods, &entries);
    let bytes = write_archive(&pack, &archive, &methods, false).unwrap();
    // Every entry with bytes has its place in its block, in the order of the archive.
    let places = entry_places(&archive);
    assert_eq!(places.len(), 34);
    for (file, place) in places.iter().enumerate() {
        assert_eq!(locate_entry(&archive, file), *place);
    }
    assert_eq!(places[0], Some((0, 0)));
    assert_eq!(places[9], Some((0, 9)));
    assert_eq!(places[10], None);
    assert_eq!(places[11], Some((1, 0)));
    assert_eq!(places[31], Some((2, 9)));
    assert_eq!(places[32], None);
    assert_eq!(places[33], None);
    let with_place: Vec<_> = places.iter().flatten().collect();
    assert!(with_place.windows(2).all(|pair| pair[0] < pair[1]));

    let mut reader =
        EntryReader::new(bytes.clone(), archive.clone(), Password::empty(), usize::MAX, 1);
    assert_eq!(reader.archive(), &archive);
    for (file, (_, data)) in entries.iter().enumerate() {
        assert_eq!(reader.read(file).as_ref(), Ok(data));
        assert_eq!(read_entry(&bytes, &archive, file, &Password::empty(), usize::MAX, 1).as_ref(), Ok(data));
        // The archive states the size and the CRC of what the entry was written with.
        let stated = if data.is_empty() { (0, None) } else { (data.len() as u64, Some(crc32_of(data))) };
        assert_eq!(reader.stated(file), stated);
        assert_eq!(entry_stated(&archive, file), stated);
    }
    assert_eq!(reader.stated(34), (0, None));
    assert_eq!(entry_stated(&archive, 34), (0, None));
    // Backwards, and on several threads, the bytes are the same.
    reader.set_thread_count(1000);
    for (file, (_, data)) in entries.iter().enumerate().rev() {
        assert_eq!(reader.read(file).as_ref(), Ok(data));
    }
    assert_eq!(reader.read(34), Err(Error::Other("No such entry")));
    assert_eq!(
        read_entry(&bytes, &archive, 34, &Password::empty(), usize::MAX, 1),
        Err(Error::Other("No such entry"))
    );
    assert_eq!(read_entries(&bytes, &archive, &Password::empty(), usize::MAX, 4), Ok(contents_of(&entries)));
}

#[test]
fn a_changed_pack_byte_fails_the_entries_of_its_block_and_no_other() {
    let methods = vec![EncoderConfiguration::new(EncoderMethod::Lzma2)];
    let entries = three_blocks();
    let (pack, archive) = collect(&methods, &entries);
    let mut bytes = write_archive(&pack, &archive, &methods, false).unwrap();
    let (offset, size) = block_pack_range(&archive, 1).unwrap();
    bytes[32 + (offset + size / 2) as usize] ^= 0x10;
    let mut reader =
        EntryReader::new(bytes.clone(), archive.clone(), Password::empty(), usize::MAX, 1);
    for (file, (_, data)) in entries.iter().enumerate() {
        match locate_entry(&archive, file) {
            Some((1, _)) => assert_eq!(reader.read(file), Err(Error::ChecksumMismatch)),
            _ => assert_eq!(reader.read(file).as_ref(), Ok(data)),
        }
    }
    assert_eq!(
        read_entries(&bytes, &archive, &Password::empty(), usize::MAX, 1),
        Err(Error::ChecksumMismatch)
    );
}

#[test]
fn an_lzma_coder_declares_no_less_than_it_was_encoded_with() {
    let mut buffer = [0u8; 5];
    for (level, dict_size) in [(0u32, 1u32 << 18), (1, 1 << 20), (3, 1 << 22), (6, 1 << 23)] {
        let mut options = LzmaOptions::from_level(level);
        assert_eq!(options.declared_dict(), dict_size);
        options.set_dictionary_size(4096);
        assert_eq!(options.dict_size(), 4096);
        assert_eq!(options.declared_dict(), dict_size);
        options.set_dictionary_size(1 << 24);
        assert_eq!(options.declared_dict(), 1 << 24);
        options.set_dictionary_size(4096);
        let options = EncoderOptions::Lzma(options);
        let declared = get_options_as_properties(EncoderMethod::Lzma, Some(&options), &mut buffer);
        assert_eq!(declared, [&[0x5D][..], &dict_size.to_le_bytes()[..]].concat());
    }
    // Bytes that come again far behind the dictionary of the options, and within
    // that of the preset, are read back.
    let part = text(5, 150_000);
    let data = [part.clone(), text(6, 50_000), part].concat();
    let mut sizes = Vec::new();
    for level in [0u32, 6] {
        let mut options = LzmaOptions::from_level(level);
        options.set_dictionary_size(4096);
        let methods = vec![EncoderConfiguration::new(EncoderMethod::Lzma)
            .with_options(EncoderOptions::Lzma(options))];
        let mut archive = empty_archive();
        let mut pack = Vec::new();
        write_group(&mut archive, &mut pack, &methods, true, &vec![record("a")], &vec![data.clone()])
            .unwrap();
        let bytes = write_archive(&pack, &archive, &methods, true).unwrap();
        let found = open(&bytes, &Password::empty(), usize::MAX).unwrap();
        assert_eq!(found, archive);
        assert_eq!(read_entry(&bytes, &found, 0, &Password::empty(), usize::MAX, 1), Ok(data.clone()));
        sizes.push(pack.len());
    }
    // The level of the options is the level of the encoder.
    assert_ne!(sizes[0], sizes[1]);
}

#[test]
fn places_of_an_archive_whose_blocks_state_more_files_than_it_has() {
    let methods = vec![EncoderConfiguration::new(EncoderMethod::Copy)];
    let entries = three_blocks();
    let (_, mut archive) = collect(&methods, &entries);
    assert_eq!(entry_places(&empty_archive()), vec![]);
    // Without the entries of the last block, the block has no entries at all.
    archive.files.truncate(25);
    let places = entry_places(&archive);
    assert_eq!(places.len(), 25);
    assert_eq!(places[9], Some((0, 9)));
    assert_eq!(places[10], None);
    assert_eq!(places[20], Some((1, 9)));
    assert_eq!(&places[21..], &[None, None, None, None]);
    assert_eq!(locate_entry(&archive, 22), None);
}
