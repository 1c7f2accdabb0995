use sevenz_rust2::coder::Coder;
use sevenz_rust2::compress::{extract_file_name, group_entries, MAX_BLOCK_SIZE};
use sevenz_rust2::encoder::{
    add_encoder, get_lzma2_dict_bits, get_options_as_properties, Encoder, EncoderAction,
};
use sevenz_rust2::error::{Error, IoKind};
use sevenz_rust2::frame::InnerWriter;
use sevenz_rust2::method::{BcjArch, EncoderMethod};
use sevenz_rust2::options::{
    AesEncoderOptions, BrotliOptions, Bzip2Options, DeflateOptions, DeltaOptions,
    EncoderConfiguration, EncoderOptions, Lz4Options, Lzma2Options, LzmaOptions, PpmdOptions,
    ZstandardOptions,
};
use sevenz_rust2::password::Password;

fn properties(method: EncoderMethod, options: Option<&EncoderOptions>) -> Vec<u8> {
    let mut out = [0xEEu8; 34];
    get_options_as_properties(method, options, &mut out).to_vec()
}

fn parts(path: &str) -> Vec<String> {
    path.split('/').filter(|p| !p.is_empty()).map(String::from).collect()
}

#[test]
fn blocks_share_entries_up_to_the_cap() {
    let gib = 1u64 << 30;
    assert_eq!(group_entries(true, &[]), Vec::<Vec<usize>>::new());
    assert_eq!(group_entries(true, &[5, 6, 7]), vec![vec![0, 1, 2]]);
    assert_eq!(group_entries(false, &[5, 6, 7]), vec![vec![0], vec![1], vec![2]]);
    // Four files of one GiB are one byte too many for one block.
    assert_eq!(group_entries(true, &[gib, gib, gib, gib]), vec![vec![0, 1, 2], vec![3]]);
    assert_eq!(
        group_entries(true, &[gib, gib, gib, gib - 1, 1]),
        vec![vec![0, 1, 2, 3], vec![4]]
    );
    // An entry that alone reaches the cap gets its own block at once.
    assert_eq!(
        group_entries(true, &[10, MAX_BLOCK_SIZE, 20, u64::MAX, 30]),
        vec![vec![1], vec![3], vec![0, 2, 4]]
    );
    assert_eq!(group_entries(true, &[MAX_BLOCK_SIZE - 1, 1, 1]), vec![vec![0, 1], vec![2]]);
}

#[test]
fn entries_of_no_bytes_join_no_block() {
    assert_eq!(group_entries(true, &[0, 5, 0, 6, 0]), vec![vec![1, 3]]);
    assert_eq!(group_entries(false, &[0, 5, 0, 6, 0]), vec![vec![1], vec![3]]);
    assert_eq!(group_entries(true, &[0, 0]), Vec::<Vec<usize>>::new());
}

#[test]
fn no_block_of_several_entries_is_above_the_cap() {
    let sizes: Vec<u64> = (0..200u64).map(|i| (i * 97_000_003) % (3 << 30)).collect();
    let blocks = group_entries(true, &sizes);
    let mut seen = vec![false; sizes.len()];
    for block in &blocks {
        assert!(!block.is_empty());
        let total: u128 = block.iter().map(|&i| sizes[i] as u128).sum();
        assert!(block.len() == 1 || total <= MAX_BLOCK_SIZE as u128);
        for &i in block {
            assert!(!seen[i]);
            seen[i] = true;
        }
    }
    for (i, &size) in sizes.iter().enumerate() {
        assert_eq!(seen[i], size > 0);
    }
}

#[test]
fn names_of_entries() {
    let src = parts("data/folder");
    assert_eq!(extract_file_name(&src, &parts("data/folder/a/b.txt")).unwrap(), "a/b.txt");
    assert_eq!(extract_file_name(&src, &parts("data/folder/file1.txt")).unwrap(), "file1.txt");
    // A single file is archived under its own name.
    let single = parts("data/folder/file1.txt");
    assert_eq!(extract_file_name(&single, &single).unwrap(), "file1.txt");
    assert!(matches!(
        extract_file_name(&vec![], &vec![]),
        Err(Error::Io(IoKind::InvalidInput, "Invalid filename"))
    ));
    assert!(matches!(
        extract_file_name(&src, &parts("data/other/file")),
        Err(Error::Other("Path is not below the source path"))
    ));
    assert!(matches!(
        extract_file_name(&src, &parts("data")),
        Err(Error::Other("Path is not below the source path"))
    ));
    assert_eq!(extract_file_name(&vec![], &parts("x/y")).unwrap(), "x/y");
}

#[test]
fn properties_of_each_method() {
    assert_eq!(properties(EncoderMethod::Copy, None), Vec::<u8>::new());
    assert_eq!(properties(EncoderMethod::Bcj(BcjArch::X86), None), Vec::<u8>::new());
    assert_eq!(properties(EncoderMethod::Delta, None), vec![0]);
    let delta = EncoderOptions::Delta(DeltaOptions::from_delta_distance(4));
    assert_eq!(properties(EncoderMethod::Delta, Some(&delta)), vec![3]);
    assert_eq!(properties(EncoderMethod::Delta, Some(&EncoderOptions::Delta(DeltaOptions(0)))), vec![0]);
    assert_eq!(DeltaOptions::from_delta_distance(1000).0, 256);
    assert_eq!(DeltaOptions::from_delta_distance(0).0, 1);
    // The default dictionary of 8 MiB.
    assert_eq!(properties(EncoderMethod::Lzma2, None), vec![22]);
    assert_eq!(properties(EncoderMethod::Lzma, None), vec![0x5D, 0, 0, 0x80, 0]);
    let mut lzma = LzmaOptions::from_level(9);
    assert_eq!(lzma.dict_size(), 64 << 20);
    assert_eq!(lzma.get_props(), 0x5D);
    // An LZMA coder declares the dictionary of its options where that of its
    // preset, which the encoder works with, is not larger.
    lzma.set_dictionary_size(0x0412_3456);
    assert_eq!(
        properties(EncoderMethod::Lzma, Some(&EncoderOptions::Lzma(lzma))),
        vec![0x5D, 0x56, 0x34, 0x12, 0x04]
    );
    lzma.set_dictionary_size(0x0012_3456);
    assert_eq!(
        properties(EncoderMethod::Lzma, Some(&EncoderOptions::Lzma(lzma))),
        vec![0x5D, 0x00, 0x00, 0x00, 0x04]
    );
    lzma.set_dictionary_size(1);
    assert_eq!(lzma.dict_size(), 4096);
    lzma.set_dictionary_size(u32::MAX);
    assert_eq!(lzma.dict_size(), 0x4000_0000);
    let ppmd = EncoderOptions::Ppmd(PpmdOptions { order: 8, memory_size: 0x0200_0000 });
    assert_eq!(properties(EncoderMethod::Ppmd, Some(&ppmd)), vec![8, 0, 0, 0, 2]);
    assert_eq!(properties(EncoderMethod::Ppmd, None), vec![6, 0, 0, 0, 1]);
    assert_eq!(properties(EncoderMethod::Brotli, None), vec![1, 0, 11]);
    assert_eq!(properties(EncoderMethod::Lz4, None), vec![1, 0, 3]);
    assert_eq!(properties(EncoderMethod::Zstd, None), vec![1, 0, 3]);
    let zstd = EncoderOptions::Zstd(ZstandardOptions(19));
    assert_eq!(properties(EncoderMethod::Zstd, Some(&zstd)), vec![1, 0, 19]);
    // Options of another method count as none.
    assert_eq!(properties(EncoderMethod::Zstd, Some(&delta)), vec![1, 0, 3]);
    assert_eq!(properties(EncoderMethod::Aes256Sha256, None), Vec::<u8>::new());
    let aes = AesEncoderOptions::new(Password::new("pw"), [0x11; 16], [0x22; 16]);
    let mut expected = vec![0xC8, 0xFF];
    expected.extend_from_slice(&[0x11; 16]);
    expected.extend_from_slice(&[0x22; 16]);
    assert_eq!(properties(EncoderMethod::Aes256Sha256, Some(&EncoderOptions::Aes(aes))), expected);
}

#[test]
fn the_dictionary_is_declared_as_the_smallest_size_not_below_it() {
    assert_eq!(get_lzma2_dict_bits(0), 0);
    assert_eq!(get_lzma2_dict_bits(4096), 0);
    assert_eq!(get_lzma2_dict_bits(4097), 1);
    assert_eq!(get_lzma2_dict_bits(5000), 1);
    assert_eq!(get_lzma2_dict_bits(6144), 1);
    assert_eq!(get_lzma2_dict_bits(6145), 2);
    assert_eq!(get_lzma2_dict_bits(8 << 20), 22);
    assert_eq!(get_lzma2_dict_bits(5 << 20), 21);
    assert_eq!(get_lzma2_dict_bits(0x6000_0000), 37);
    assert_eq!(get_lzma2_dict_bits(0xC000_0000), 39);
    assert_eq!(get_lzma2_dict_bits(0xC000_0001), 40);
    assert_eq!(get_lzma2_dict_bits(u32::MAX), 40);
    let mut options = Lzma2Options::from_level(3);
    options.options.set_dictionary_size(3 << 20);
    assert_eq!(properties(EncoderMethod::Lzma2, Some(&EncoderOptions::Lzma2(options))), vec![19]);
    // A decoder never holds less than the encoder looked back.
    for size in [1u32, 4096, 5000, 6144, 100_000, (1 << 20) + 1, 0x6000_0000, u32::MAX] {
        let coder = Coder {
            method_id: EncoderMethod::Lzma2.id(),
            num_in_streams: 1,
            num_out_streams: 1,
            properties: vec![get_lzma2_dict_bits(size)],
        };
        assert!(sevenz_rust2::decoder::get_lzma2_dic_size(&coder).unwrap() >= size);
    }
}

#[test]
fn properties_are_written_to_the_start_of_the_buffer() {
    let mut buffer = [0u8; 8];
    assert_eq!(get_options_as_properties(EncoderMethod::Lz4, None, &mut buffer), &[1, 0, 3]);
    assert_eq!(buffer, [1, 0, 3, 0, 0, 0, 0, 0]);
    let mut buffer = [0xEEu8; 5];
    assert_eq!(get_options_as_properties(EncoderMethod::Ppmd, None, &mut buffer), &[6, 0, 0, 0, 1]);
    let mut buffer = [0xEEu8; 3];
    assert_eq!(get_options_as_properties(EncoderMethod::Delta, None, &mut buffer), &[0]);
    assert_eq!(buffer, [0, 0xEE, 0xEE]);
    let mut none: [u8; 0] = [];
    assert!(get_options_as_properties(EncoderMethod::Copy, None, &mut none).is_empty());
}

#[test]
fn encoders_are_set_up_from_their_options() {
    let of = |method, options: Option<EncoderOptions>| {
        add_encoder(&EncoderConfiguration { method, options })
    };
    assert!(matches!(of(EncoderMethod::Copy, None), Ok(Encoder::Copy)));
    assert!(matches!(of(EncoderMethod::Delta, None), Ok(Encoder::Delta { distance: 1 })));
    assert!(matches!(
        of(EncoderMethod::Delta, Some(EncoderOptions::Delta(DeltaOptions(7)))),
        Ok(Encoder::Delta { distance: 7 })
    ));
    assert!(matches!(
        of(EncoderMethod::Bcj(BcjArch::Arm64), None),
        Ok(Encoder::Bcj { arch: BcjArch::Arm64, open: true })
    ));
    assert!(matches!(of(EncoderMethod::Lzma, None), Ok(Encoder::Lzma { open: true, .. })));
    assert!(matches!(of(EncoderMethod::Lzma2, None), Ok(Encoder::Lzma2 { open: true, .. })));
    assert!(matches!(
        of(EncoderMethod::Lzma2, Some(EncoderOptions::Lzma2(Lzma2Options::from_level_mt(5, 4, 1 << 24)))),
        Ok(Encoder::Lzma2Mt { open: true, .. })
    ));
    assert!(matches!(
        of(EncoderMethod::Bzip2, Some(EncoderOptions::Bzip2(Bzip2Options(9)))),
        Ok(Encoder::Bzip2 { level: 9, open: true })
    ));
    assert!(matches!(
        of(EncoderMethod::Deflate, Some(EncoderOptions::Deflate(DeflateOptions(1)))),
        Ok(Encoder::Deflate { level: 1, open: true })
    ));
    assert!(matches!(of(EncoderMethod::Zstd, None), Ok(Encoder::Zstd { level: 3, open: true })));
    assert!(matches!(of(EncoderMethod::Ppmd, None), Ok(Encoder::Ppmd { open: true, .. })));
    assert!(matches!(
        of(EncoderMethod::Ppmd, Some(EncoderOptions::Ppmd(PpmdOptions { order: 1, memory_size: 4096 }))),
        Err(Error::Other("PPMD parameters out of range"))
    ));
    assert!(matches!(
        of(EncoderMethod::Ppmd, Some(EncoderOptions::Ppmd(PpmdOptions { order: 6, memory_size: 1 }))),
        Err(Error::Other("PPMD parameters out of range"))
    ));
    match of(EncoderMethod::Brotli, None).unwrap() {
        Encoder::Brotli(encoder) => {
            assert_eq!(encoder.quality, 11);
            assert!(matches!(encoder.inner, InnerWriter::Framed(_)));
        }
        _ => panic!("a Brotli encoder is owed"),
    }
    let plain = BrotliOptions { quality: 5, window: 22, skippable_frame_size: 0 };
    match of(EncoderMethod::Brotli, Some(EncoderOptions::Brotli(plain))).unwrap() {
        Encoder::Brotli(encoder) => assert!(matches!(encoder.inner, InnerWriter::Standard)),
        _ => panic!("a Brotli encoder is owed"),
    }
    assert!(matches!(
        of(EncoderMethod::Lz4, Some(EncoderOptions::Lz4(Lz4Options { skippable_frame_size: 0 }))),
        Ok(Encoder::Lz4 { open: true, .. })
    ));
    assert!(matches!(of(EncoderMethod::Aes256Sha256, None), Err(Error::PasswordRequired)));
    let no_password = AesEncoderOptions::new(Password::empty(), [0; 16], [0; 16]);
    assert!(matches!(
        of(EncoderMethod::Aes256Sha256, Some(EncoderOptions::Aes(no_password))),
        Err(Error::PasswordRequired)
    ));
    let aes = AesEncoderOptions::new(Password::new("sevenz-rust"), [1; 16], [2; 16]);
    assert!(matches!(
        of(EncoderMethod::Aes256Sha256, Some(EncoderOptions::Aes(aes))),
        Ok(Encoder::Aes(_))
    ));
}

#[test]
fn a_codec_with_a_trailer_is_finished_once() {
    let mut encoder = add_encoder(&EncoderConfiguration::new(EncoderMethod::Lzma2)).unwrap();
    assert_eq!(encoder.poll_write(10), EncoderAction::Write);
    assert_eq!(encoder.poll_flush(), EncoderAction::Flush);
    assert_eq!(encoder.poll_write(0), EncoderAction::Finish);
    assert!(!encoder.open());
    assert_eq!(encoder.poll_write(0), EncoderAction::Nothing);
    assert_eq!(encoder.poll_write(10), EncoderAction::Nothing);
    assert_eq!(encoder.poll_flush(), EncoderAction::Nothing);
    assert_eq!(encoder.poll_close(), EncoderAction::Nothing);

    let mut closed = add_encoder(&EncoderConfiguration::new(EncoderMethod::Bcj(BcjArch::X86))).unwrap();
    assert_eq!(closed.poll_close(), EncoderAction::Finish);
    assert_eq!(closed.poll_close(), EncoderAction::Nothing);

    let mut zstd = add_encoder(&EncoderConfiguration::new(EncoderMethod::Zstd)).unwrap();
    assert_eq!(zstd.poll_close(), EncoderAction::Close);
    let mut zstd = add_encoder(&EncoderConfiguration::new(EncoderMethod::Zstd)).unwrap();
    assert_eq!(zstd.poll_write(0), EncoderAction::Finish);

    let mut copy = add_encoder(&EncoderConfiguration::new(EncoderMethod::Copy)).unwrap();
    assert_eq!(copy.poll_write(0), EncoderAction::Write);
    assert_eq!(copy.poll_close(), EncoderAction::Close);
    let mut delta = add_encoder(&EncoderConfiguration::new(EncoderMethod::Delta)).unwrap();
    assert_eq!(delta.poll_write(0), EncoderAction::Write);
    assert_eq!(delta.poll_close(), EncoderAction::Nothing);
    assert_eq!(delta.poll_flush(), EncoderAction::Flush);
}
