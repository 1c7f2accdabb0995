use sevenz_rust2::archive::ArchiveEntry;
use sevenz_rust2::coder::Coder;
use sevenz_rust2::collect::{empty_archive, write_block};
use sevenz_rust2::container::finish_archive;
use sevenz_rust2::decoder::{add_decoder, Decoder};
use sevenz_rust2::encoder::{add_encoder, get_options_as_properties};
use sevenz_rust2::error::{Error, IoKind};
use sevenz_rust2::frames::{codec_result, decode_frames, encode_frames, split_streams};
use sevenz_rust2::frame::Codec;
use sevenz_rust2::method::{BcjArch, EncoderMethod};
use sevenz_rust2::options::{
    AesEncoderOptions, BrotliOptions, Bzip2Options, DeflateOptions, DeltaOptions,
    EncoderConfiguration, EncoderOptions, Lz4Options, Lzma2Options, LzmaOptions, PpmdOptions,
    ZstandardOptions,
};
use sevenz_rust2::password::Password;
use sevenz_rust2::pipeline::{decode_block, encode_block};
use sevenz_rust2::reader::{read_block, read_block_entry};
use sevenz_rust2::writer::chain_block;

fn sample(len: usize) -> Vec<u8> {
    let mut text = Vec::new();
    let mut line = 0u32;
    while text.len() < len {
        text.extend_from_slice(format!("{line:05} the quick brown fox jumps\n").as_bytes());
        line = line.wrapping_mul(31).wrapping_add(7) % 99_991;
    }
    text.truncate(len);
    text
}

/// Encodes `data` as a writer does and decodes it as a reader does.
fn there_and_back(configuration: &EncoderConfiguration, data: &[u8], threads: u32) -> Vec<u8> {
    let packed = add_encoder(configuration).unwrap().encode(data).unwrap();
    let mut buffer = [0u8; 34];
    let properties =
        get_options_as_properties(configuration.method, configuration.options.as_ref(), &mut buffer)
            .to_vec();
    let coder = Coder {
        method_id: configuration.method.id(),
        num_in_streams: 1,
        num_out_streams: 1,
        properties,
    };
    let password = Password::new("secret");
    let plan = add_decoder(data.len(), &coder, &password, usize::MAX, threads).unwrap();
    // A filter for machine code may leave text as it is; every other method changes it.
    let changes = !matches!(configuration.method, EncoderMethod::Copy | EncoderMethod::Bcj(_));
    if changes && data.len() > 64 {
        assert!(packed != data, "{:?} left its input as it was", configuration.method);
    }
    plan.decode(&packed, data.len()).unwrap()
}

fn of(method: EncoderMethod) -> EncoderConfiguration {
    EncoderConfiguration::new(method)
}

#[test]
fn every_method_gives_back_what_it_took() {
    let data = sample(70_000);
    let configurations = vec![
        of(EncoderMethod::Copy),
        of(EncoderMethod::Lzma),
        of(EncoderMethod::Lzma).with_options(EncoderOptions::Lzma(LzmaOptions::from_level(6))),
        of(EncoderMethod::Lzma2),
        of(EncoderMethod::Lzma2).with_options(EncoderOptions::Lzma2(Lzma2Options::from_level(3))),
        of(EncoderMethod::Lzma2)
            .with_options(EncoderOptions::Lzma2(Lzma2Options::from_level_mt(1, 3, 1 << 14))),
        of(EncoderMethod::Ppmd),
        of(EncoderMethod::Ppmd)
            .with_options(EncoderOptions::Ppmd(PpmdOptions { order: 4, memory_size: 1 << 20 })),
        of(EncoderMethod::Delta),
        of(EncoderMethod::Delta).with_options(EncoderOptions::Delta(DeltaOptions(4))),
        of(EncoderMethod::Delta).with_options(EncoderOptions::Delta(DeltaOptions(256))),
        of(EncoderMethod::Brotli),
        of(EncoderMethod::Brotli).with_options(EncoderOptions::Brotli(BrotliOptions {
            quality: 5,
            window: 22,
            skippable_frame_size: 0,
        })),
        of(EncoderMethod::Brotli).with_options(EncoderOptions::Brotli(BrotliOptions {
            quality: 5,
            window: 22,
            skippable_frame_size: 4096,
        })),
        of(EncoderMethod::Lz4),
        of(EncoderMethod::Lz4)
            .with_options(EncoderOptions::Lz4(Lz4Options { skippable_frame_size: 10_000 })),
        of(EncoderMethod::Bzip2),
        of(EncoderMethod::Bzip2).with_options(EncoderOptions::Bzip2(Bzip2Options(9))),
        of(EncoderMethod::Deflate),
        of(EncoderMethod::Deflate).with_options(EncoderOptions::Deflate(DeflateOptions(1))),
        of(EncoderMethod::Zstd),
        of(EncoderMethod::Zstd).with_options(EncoderOptions::Zstd(ZstandardOptions(19))),
        of(EncoderMethod::Bcj(BcjArch::X86)),
        of(EncoderMethod::Bcj(BcjArch::Ppc)),
        of(EncoderMethod::Bcj(BcjArch::Ia64)),
        of(EncoderMethod::Bcj(BcjArch::Arm)),
        of(EncoderMethod::Bcj(BcjArch::Arm64)),
        of(EncoderMethod::Bcj(BcjArch::ArmThumb)),
        of(EncoderMethod::Bcj(BcjArch::Sparc)),
        of(EncoderMethod::Bcj(BcjArch::Riscv)),
    ];
    for configuration in &configurations {
        for threads in [1, 4] {
            let back = there_and_back(configuration, &data, threads);
            assert!(back == data, "{:?} on {threads} threads", configuration);
        }
        assert!(there_and_back(configuration, b"x", 1) == b"x", "{:?}", configuration);
    }
}

#[test]
fn aes_gives_back_what_it_took_filled_to_whole_blocks() {
    let options = AesEncoderOptions::new(Password::new("secret"), [3; 16], [4; 16]);
    let configuration = of(EncoderMethod::Aes256Sha256).with_options(EncoderOptions::Aes(options));
    for len in [1usize, 15, 16, 17, 4096, 5000] {
        let data = sample(len);
        let packed = add_encoder(&configuration).unwrap().encode(&data).unwrap();
        assert_eq!(packed.len(), len.div_ceil(16) * 16);
        let mut back = there_and_back(&configuration, &data, 1);
        assert_eq!(back.len(), packed.len());
        assert!(back[len..].iter().all(|&b| b == 0));
        back.truncate(len);
        assert_eq!(back, data);
    }
    assert_eq!(add_encoder(&configuration).unwrap().encode(&[]), Ok(vec![]));
}

#[test]
fn a_decoder_gives_no_more_than_it_is_asked_for() {
    let data = sample(10_000);
    let packed = add_encoder(&of(EncoderMethod::Lzma2)).unwrap().encode(&data).unwrap();
    let plan = |size| {
        let coder = Coder {
            method_id: EncoderMethod::Lzma2.id(),
            num_in_streams: 1,
            num_out_streams: 1,
            properties: vec![24],
        };
        add_decoder(size, &coder, &Password::empty(), usize::MAX, 1).unwrap()
    };
    assert_eq!(plan(100).decode(&packed, 100), Ok(data[..100].to_vec()));
    assert_eq!(plan(0).decode(&packed, 0), Ok(vec![]));
    assert_eq!(plan(20_000).decode(&packed, 20_000), Ok(data.clone()));
    // What is no LZMA2 stream is refused by the codec.
    let refused = plan(100).decode(b"\x7Fno such stream", 100);
    assert!(matches!(refused, Err(Error::Io(_, "The codec refused its input"))));
    assert_eq!(Decoder::Copy.decode(b"as it is", 3), Ok(b"as it is".to_vec()));
}

#[test]
fn ciphertext_that_ends_inside_a_block_is_refused() {
    let options = AesEncoderOptions::new(Password::new("secret"), [3; 16], [4; 16]);
    let coder = Coder {
        method_id: EncoderMethod::Aes256Sha256.id(),
        num_in_streams: 1,
        num_out_streams: 1,
        properties: options.properties().to_vec(),
    };
    let plan = || add_decoder(0, &coder, &Password::new("secret"), usize::MAX, 1).unwrap();
    assert_eq!(
        plan().decode(&[0u8; 17], 17),
        Err(Error::Io(IoKind::InvalidData, "IllegalBlockSize"))
    );
    assert_eq!(plan().decode(&[], 0), Ok(vec![]));
    assert_eq!(plan().decode(&[0u8; 32], 32).map(|plain| plain.len()), Ok(32));
}

#[test]
fn a_pack_stream_is_cut_into_the_streams_of_its_frames() {
    let data = sample(10_000);
    let framed = encode_frames(Codec::Lz4, 0, 4096, &data).unwrap();
    let streams = split_streams(Codec::Lz4, &framed).unwrap();
    assert_eq!(streams.len(), 3);
    assert_eq!(decode_frames(Codec::Lz4, &framed, data.len()), Ok(data.clone()));
    // A stream cut behind its second frame holds the first two.
    let two = 24 + streams[0].len() + streams[1].len();
    assert_eq!(decode_frames(Codec::Lz4, &framed[..two], data.len()), Ok(data[..8192].to_vec()));
    // Two runs of frames, one after the other, are one run.
    let both = [framed.clone(), framed.clone()].concat();
    assert_eq!(split_streams(Codec::Lz4, &both).unwrap().len(), 6);
    assert_eq!(
        decode_frames(Codec::Lz4, &both, 2 * data.len()),
        Ok([data.clone(), data.clone()].concat())
    );
    // No more is given than the size that was asked for.
    assert_eq!(decode_frames(Codec::Lz4, &both, data.len()), Ok(data.clone()));
    assert_eq!(decode_frames(Codec::Lz4, &framed, 5000), Ok(data[..5000].to_vec()));
    assert_eq!(decode_frames(Codec::Lz4, &framed, 0), Ok(vec![]));
    // Without frames the pack stream is one stream of the codec.
    let plain = encode_frames(Codec::Lz4, 0, 0, &data).unwrap();
    assert_eq!(split_streams(Codec::Lz4, &plain), Ok(vec![plain.clone()]));
    assert_eq!(decode_frames(Codec::Lz4, &plain, data.len()), Ok(data.clone()));
    // Nothing is written as no frame at all.
    assert_eq!(encode_frames(Codec::Brotli, 5, 4096, &[]), Ok(vec![]));
    // A header that the stream cuts short is refused.
    let cut = &framed[..12 + streams[0].len() + 6];
    assert_eq!(
        split_streams(Codec::Lz4, cut),
        Err(Error::Io(IoKind::UnexpectedEof, "failed to fill whole buffer"))
    );
    assert_eq!(split_streams(Codec::Lz4, &[1, 2, 3]), Err(Error::Other("Input too short")));
}

fn block_with(coders: Vec<Coder>, sizes: Vec<u64>) -> sevenz_rust2::archive::Block {
    let count = coders.len() as u64;
    sevenz_rust2::archive::Block {
        coders,
        bind_pairs: (1..count)
            .map(|i| sevenz_rust2::archive::BindPair { in_index: i, out_index: i - 1 })
            .collect(),
        packed_streams: vec![0],
        unpack_sizes: sizes,
        crc: None,
        substream_sizes: vec![],
        substream_crcs: vec![],
    }
}

fn plain_coder(method: EncoderMethod, properties: Vec<u8>) -> Coder {
    Coder { method_id: method.id(), num_in_streams: 1, num_out_streams: 1, properties }
}

#[test]
fn a_block_is_encoded_from_its_last_coder_to_its_first() {
    let data = sample(30_000);
    let options = AesEncoderOptions::new(Password::new("secret"), [5; 16], [6; 16]);
    let methods = vec![
        of(EncoderMethod::Aes256Sha256).with_options(EncoderOptions::Aes(options)),
        of(EncoderMethod::Lzma2),
        of(EncoderMethod::Delta).with_options(EncoderOptions::Delta(DeltaOptions(2))),
    ];
    let (packed, sizes) = encode_block(&methods, &data).unwrap();
    assert_eq!(sizes.len(), 3);
    assert_eq!(sizes[2], 30_000);
    assert_eq!(sizes[1], 30_000);
    assert!(sizes[0] < 30_000);
    assert_eq!(packed.len() as u64, sizes[0].div_ceil(16) * 16);
    // The same, coder by coder.
    let delta = add_encoder(&methods[2]).unwrap().encode(&data).unwrap();
    let lzma2 = add_encoder(&methods[1]).unwrap().encode(&delta).unwrap();
    assert_eq!(lzma2.len() as u64, sizes[0]);
    assert_eq!(add_encoder(&methods[0]).unwrap().encode(&lzma2), Ok(packed.clone()));

    let block = chain_block(&methods, sizes, None, vec![30_000], vec![None]).unwrap();
    let secret = Password::new("secret");
    assert_eq!(decode_block(&block, &packed, &secret, usize::MAX, 1), Ok(data.clone()));
    assert_eq!(decode_block(&block, &packed, &secret, usize::MAX, 3), Ok(data));
    // Without the password nothing is decoded, and with another one nothing passes.
    assert_eq!(
        decode_block(&block, &packed, &Password::empty(), usize::MAX, 1),
        Err(Error::PasswordRequired)
    );
    let other = decode_block(&block, &packed, &Password::new("Secret"), usize::MAX, 1);
    assert!(matches!(other, Err(Error::Io(_, "The codec refused its input"))));
    // A limit on memory below what the dictionary takes.
    assert_eq!(
        decode_block(&block, &packed, &secret, 1000, 1),
        Err(Error::MaxMemLimited { max_kb: 1000, actaul_kb: 8296 })
    );
    assert_eq!(encode_block(&vec![], b"as it is"), Ok((b"as it is".to_vec(), vec![])));
}

#[test]
fn a_block_that_cannot_be_decoded_is_refused_before_it_is_read() {
    let copy = || plain_coder(EncoderMethod::Copy, vec![]);
    // Coders that form no chain.
    let mut two = block_with(vec![copy(), copy()], vec![3, 3]);
    two.bind_pairs.clear();
    assert_eq!(
        decode_block(&two, b"abc", &Password::empty(), usize::MAX, 1),
        Err(Error::UnsupportedFeature("Coders that do not form one chain"))
    );
    // A method outside the table.
    let mut unknown = copy();
    unknown.method_id = vec![0x7F, 0x01];
    let block = block_with(vec![copy(), unknown], vec![3, 3]);
    assert_eq!(
        decode_block(&block, b"abc", &Password::empty(), usize::MAX, 1),
        Err(Error::UnsupportedCompressionMethod(vec![0x7F, 0x01]))
    );
    // Properties too short for the method.
    let block = block_with(vec![plain_coder(EncoderMethod::Lzma2, vec![])], vec![3]);
    assert_eq!(
        decode_block(&block, b"abc", &Password::empty(), usize::MAX, 1),
        Err(Error::Other("LZMA2 properties too short"))
    );
    // No size stated for a coder.
    let block = block_with(vec![copy(), copy()], vec![3]);
    assert_eq!(
        decode_block(&block, b"abc", &Password::empty(), usize::MAX, 1),
        Err(Error::Other("A coder without a size that memory can hold"))
    );
    // Each coder gives no more than is stated for it.
    let block = block_with(vec![copy(), copy()], vec![5, 2]);
    assert_eq!(
        decode_block(&block, b"abcdefgh", &Password::empty(), usize::MAX, 1),
        Ok(b"ab".to_vec())
    );
    // Ciphertext that does not end with a whole block.
    let options = AesEncoderOptions::new(Password::new("secret"), [5; 16], [6; 16]);
    let aes = plain_coder(EncoderMethod::Aes256Sha256, options.properties().to_vec());
    let block = block_with(vec![aes], vec![17]);
    assert_eq!(
        decode_block(&block, &[0; 17], &Password::new("secret"), usize::MAX, 1),
        Err(Error::Io(IoKind::InvalidData, "IllegalBlockSize"))
    );
}

#[test]
fn a_chain_with_a_method_that_cannot_encode_is_refused() {
    let ppmd = of(EncoderMethod::Ppmd)
        .with_options(EncoderOptions::Ppmd(PpmdOptions { order: 1, memory_size: 1 << 20 }));
    assert_eq!(
        encode_block(&vec![of(EncoderMethod::Copy), ppmd.clone()], b"abc"),
        Err(Error::Other("PPMD parameters out of range"))
    );
    assert_eq!(
        encode_block(&vec![of(EncoderMethod::Aes256Sha256), ppmd.clone()], b"abc"),
        Err(Error::PasswordRequired)
    );
    let empty = AesEncoderOptions::new(Password::empty(), [5; 16], [6; 16]);
    let aes = of(EncoderMethod::Aes256Sha256).with_options(EncoderOptions::Aes(empty));
    assert_eq!(encode_block(&vec![aes], b"abc"), Err(Error::PasswordRequired));
    // Several threads without a chunk size are refused by the codec.
    let threads = of(EncoderMethod::Lzma2)
        .with_options(EncoderOptions::Lzma2(Lzma2Options::from_level_mt(1, 2, 0)));
    let refused = encode_block(&vec![threads], b"abc");
    assert!(matches!(refused, Err(Error::Io(_, "The codec refused its input"))));

    // A block that is not written leaves the archive and the pack streams as they were.
    let mut archive = empty_archive();
    let mut pack = b"before".to_vec();
    let file = ArchiveEntry {
        name: vec![0x61],
        has_stream: true,
        is_directory: false,
        is_anti_item: false,
        creation_date: None,
        access_date: None,
        last_modified_date: None,
        windows_attributes: None,
    };
    let written = write_block(&mut archive, &mut pack, &vec![ppmd], vec![file.clone()], &vec![vec![1]]);
    assert_eq!(written, Err(Error::Other("PPMD parameters out of range")));
    let empty_content =
        write_block(&mut archive, &mut pack, &vec![of(EncoderMethod::Copy)], vec![file], &vec![vec![]]);
    assert_eq!(empty_content, Err(Error::Other("A block does not hold what its entries state")));
    assert_eq!(archive, empty_archive());
    assert_eq!(pack, b"before");
}

#[test]
fn the_output_of_a_block_is_held_against_its_crc() {
    let mut archive = empty_archive();
    let mut pack = Vec::new();
    let file = |name: &str| ArchiveEntry {
        name: name.encode_utf16().collect(),
        has_stream: true,
        is_directory: false,
        is_anti_item: false,
        creation_date: None,
        access_date: None,
        last_modified_date: None,
        windows_attributes: None,
    };
    let methods = vec![of(EncoderMethod::Deflate)];
    let contents = vec![sample(3000), sample(500)];
    write_block(&mut archive, &mut pack, &methods, vec![file("a"), file("b")], &contents).unwrap();
    assert_eq!(archive.blocks[0].substream_sizes, vec![3000, 500]);
    assert_eq!(archive.blocks[0].unpack_sizes, vec![3500]);
    assert_eq!(archive.pack_sizes, vec![pack.len() as u64]);
    let bytes = finish_archive(&pack, &archive);
    let none = Password::empty();
    let output = read_block(&bytes, &archive, 0, &none, usize::MAX, 1).unwrap();
    assert_eq!(output, [sample(3000), sample(500)].concat());
    assert_eq!(read_block_entry(&archive.blocks[0], &output, 1), Ok(sample(500)));
    // Another CRC of the block than that of its output.
    let crc = archive.blocks[0].crc.unwrap();
    archive.blocks[0].crc = Some(crc ^ 1);
    assert_eq!(read_block(&bytes, &archive, 0, &none, usize::MAX, 1), Err(Error::ChecksumMismatch));
    archive.blocks[0].crc = None;
    assert_eq!(read_block(&bytes, &archive, 0, &none, usize::MAX, 1), Ok(output));
    // A changed byte of the pack stream is a checksum mismatch before any decoding.
    let mut changed = bytes.clone();
    changed[40] ^= 0x10;
    assert_eq!(read_block(&changed, &archive, 0, &none, usize::MAX, 1), Err(Error::ChecksumMismatch));
    assert_eq!(
        read_block(&bytes, &archive, 1, &none, usize::MAX, 1),
        Err(Error::Other("No pack stream for the block"))
    );
}

fn noise(len: usize) -> Vec<u8> {
    let mut seed = 0x9E37_79B9_7F4A_7C15u64;
    (0..len)
        .map(|_| {
            seed ^= seed << 13;
            seed ^= seed >> 7;
            seed ^= seed << 17;
            (seed >> 32) as u8
        })
        .collect()
}

#[test]
fn filters_for_machine_code_change_what_holds_branches() {
    // Among enough bytes of noise there is what each filter takes for a branch.
    let data = noise(1 << 18);
    for arch in [
        BcjArch::X86,
        BcjArch::Ppc,
        BcjArch::Ia64,
        BcjArch::Arm,
        BcjArch::Arm64,
        BcjArch::ArmThumb,
        BcjArch::Sparc,
        BcjArch::Riscv,
    ] {
        let configuration = of(EncoderMethod::Bcj(arch));
        let packed = add_encoder(&configuration).unwrap().encode(&data).unwrap();
        assert_eq!(packed.len(), data.len());
        assert!(packed != data, "{arch:?} left the noise as it was");
        assert!(there_and_back(&configuration, &data, 1) == data, "{arch:?}");
    }
}

#[test]
fn a_failure_of_a_codec_keeps_its_class() {
    let invalid = std::io::Error::new(std::io::ErrorKind::InvalidData, "bad");
    let eof = std::io::Error::new(std::io::ErrorKind::UnexpectedEof, "short");
    let input = std::io::Error::new(std::io::ErrorKind::InvalidInput, "wrong");
    let denied = std::io::Error::new(std::io::ErrorKind::PermissionDenied, "no");
    assert_eq!(Error::from_io(&invalid, "here"), Error::Io(IoKind::InvalidData, "here"));
    assert_eq!(Error::from_io(&eof, "here"), Error::Io(IoKind::UnexpectedEof, "here"));
    assert_eq!(Error::from_io(&input, "here"), Error::Io(IoKind::InvalidInput, "here"));
    assert_eq!(Error::from_io(&denied, "there"), Error::Io(IoKind::Other, "there"));
    assert_eq!(
        codec_result(Err(invalid)),
        Err(Error::Io(IoKind::InvalidData, "The codec refused its input"))
    );
    assert_eq!(codec_result(Ok(vec![1, 2])), Ok(vec![1, 2]));
}
