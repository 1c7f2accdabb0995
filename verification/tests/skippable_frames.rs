use async_compression::futures::bufread::BrotliDecoder as AsyncBrotliDecoder;
use async_compression::futures::bufread::Lz4Decoder as AsyncLz4Decoder;
use futures::io::{AsyncReadExt, Cursor};
use sevenz_rust2::archive::ArchiveEntry;
use sevenz_rust2::brotli::{BrotliDecoder, BrotliEncoder};
use sevenz_rust2::collect::{empty_archive, push_block};
use sevenz_rust2::container::{finish_archive, open_archive, EndHeader};
use sevenz_rust2::crc::crc32_of;
use sevenz_rust2::decoder::{add_decoder, Decoder};
use sevenz_rust2::encoder::{add_encoder, Encoder};
use sevenz_rust2::error::{Error, IoKind};
use sevenz_rust2::frame::{
    build_frame_bytes, compress_stream, read_first_header, read_next_header, Codec, FrameDecoder,
    FrameEncoder, FrameWrite, InnerReader, InnerWriter, ReadPlan,
};
use sevenz_rust2::lz4::{Lz4Decoder, Lz4Encoder};
use sevenz_rust2::method::EncoderMethod;
use sevenz_rust2::options::{BrotliOptions, EncoderConfiguration, EncoderOptions};
use sevenz_rust2::password::Password;
use sevenz_rust2::reader::{block_entries, read_block_entry, read_pack};
use sevenz_rust2::step::SinkStep;

fn decompress(codec: Codec, packed: &[u8]) -> Vec<u8> {
    let mut out = Vec::new();
    match codec {
        Codec::Brotli => {
            let mut decoder = AsyncBrotliDecoder::new(Cursor::new(packed));
            async_io::block_on(decoder.read_to_end(&mut out)).unwrap();
        }
        Codec::Lz4 => {
            let mut decoder = AsyncLz4Decoder::new(Cursor::new(packed));
            async_io::block_on(decoder.read_to_end(&mut out)).unwrap();
        }
    }
    out
}

/// Walks a pack stream the way a driver does and returns what each codec stream held.
fn read_stream(codec: Codec, stream: &[u8]) -> Vec<Vec<u8>> {
    let header_len = codec.header_len();
    let ahead = header_len.min(stream.len());
    let mut decoder = FrameDecoder::new(codec, &stream[..ahead]).unwrap();
    let mut at = ahead;
    let mut streams = Vec::new();
    let mut current = Vec::new();
    loop {
        match decoder.poll_read(100) {
            ReadPlan::Header(bytes) => current.extend_from_slice(&bytes),
            ReadPlan::Source(max) => {
                let n = max.min(stream.len() - at);
                current.extend_from_slice(&stream[at..at + n]);
                at += n;
                decoder.after_read(n);
                if n == 0 && max > 0 {
                    streams.push(std::mem::take(&mut current));
                    if !decoder.on_stream_end(&[]).unwrap() {
                        break;
                    }
                }
            }
            ReadPlan::Eof => {
                streams.push(std::mem::take(&mut current));
                let available = header_len.min(stream.len() - at);
                let again = decoder.on_stream_end(&stream[at..at + available]).unwrap();
                if !again {
                    break;
                }
                at += available;
            }
        }
    }
    assert!(decoder.is_finished());
    streams
}

fn write_all(encoder: &mut InnerWriter, data: &[u8], sink: &mut Vec<u8>) {
    let mut at = 0;
    while at < data.len() {
        match encoder.poll_write(&data[at..]).unwrap() {
            FrameWrite::Taken(n) => at += n,
            FrameWrite::Codec => panic!("a framed encoder takes the bytes itself"),
        }
        if let InnerWriter::Framed(frames) = encoder {
            let n = frames.pending_output().len().min(1000);
            sink.extend_from_slice(&frames.pending_output()[..n]);
            frames.advance(n);
        }
    }
    loop {
        match encoder.poll_flush().unwrap() {
            SinkStep::Forward => break,
            SinkStep::Drain => {
                if let InnerWriter::Framed(frames) = encoder {
                    let pending = frames.pending_output().to_vec();
                    sink.extend_from_slice(&pending);
                    frames.advance(pending.len());
                }
            }
        }
    }
}

#[test]
fn brotli_frame_layout() {
    let frame = BrotliEncoder::build_frame_bytes(&[0xAA, 0xBB, 0xCC], 65537);
    assert_eq!(
        frame,
        vec![
            0x50, 0x2A, 0x4D, 0x18, 8, 0, 0, 0, 3, 0, 0, 0, 0x42, 0x52, 2, 0, 0xAA, 0xBB, 0xCC
        ]
    );
    assert_eq!(BrotliEncoder::build_frame_bytes(&[], 10), Vec::<u8>::new());
}

#[test]
fn brotli_hint_counts_units_of_64_kib_rounded_up() {
    let hint = |n: usize| {
        let frame = BrotliEncoder::build_frame_bytes(&[1], n);
        u16::from_le_bytes([frame[14], frame[15]])
    };
    assert_eq!(hint(0), 0);
    assert_eq!(hint(1), 1);
    assert_eq!(hint(65536), 1);
    assert_eq!(hint(65537), 2);
    assert_eq!(hint(0xFFFF * 65536), 0xFFFF);
    assert_eq!(hint(0xFFFF * 65536 + 1), 0xFFFF);
    assert_eq!(hint(usize::MAX), 0xFFFF);
}

#[test]
fn lz4_frame_layout() {
    let frame = Lz4Encoder::build_frame_bytes(&[9, 8, 7, 6, 5]);
    assert_eq!(frame, vec![0x50, 0x2A, 0x4D, 0x18, 4, 0, 0, 0, 5, 0, 0, 0, 9, 8, 7, 6, 5]);
    assert_eq!(Lz4Encoder::build_frame_bytes(&[]), Vec::<u8>::new());
    assert_eq!(build_frame_bytes(Codec::Lz4, &[1], 123_456), build_frame_bytes(Codec::Lz4, &[1], 0));
}

#[test]
fn first_header_tells_framed_from_plain() {
    let frame = BrotliEncoder::build_frame_bytes(&[1, 2, 3], 3);
    assert_eq!(read_first_header(Codec::Brotli, &frame[..16]).unwrap(), Some(3));
    // Fewer bytes than a header: a plain stream, even with the magic.
    assert_eq!(read_first_header(Codec::Brotli, &frame[..15]).unwrap(), None);
    assert_eq!(read_first_header(Codec::Lz4, &[1, 2, 3, 4, 5]).unwrap(), None);
    assert!(matches!(
        read_first_header(Codec::Lz4, &[1, 2, 3]),
        Err(Error::Other("Input too short"))
    ));
    let mut wrong_skip = frame.clone();
    wrong_skip[4] = 4;
    assert!(matches!(
        read_first_header(Codec::Brotli, &wrong_skip[..16]),
        Err(Error::Other("Invalid brotli skippable frame size"))
    ));
    let mut wrong_magic = frame.clone();
    wrong_magic[12] = 0;
    assert!(matches!(
        read_first_header(Codec::Brotli, &wrong_magic[..16]),
        Err(Error::Other("Invalid brotli magic value"))
    ));
    let lz4 = Lz4Encoder::build_frame_bytes(&[1, 2, 3]);
    assert_eq!(read_first_header(Codec::Lz4, &lz4[..12]).unwrap(), Some(3));
    let mut wrong_skip = lz4.clone();
    wrong_skip[4] = 8;
    assert!(matches!(
        read_first_header(Codec::Lz4, &wrong_skip[..12]),
        Err(Error::Other("Invalid lz4 skippable frame size"))
    ));
}

#[test]
fn next_header_ends_the_frames_or_goes_on() {
    let frame = BrotliEncoder::build_frame_bytes(&[1, 2, 3], 3);
    assert_eq!(read_next_header(Codec::Brotli, &frame[..16]).unwrap(), Some(3));
    assert_eq!(read_next_header(Codec::Brotli, &[]).unwrap(), None);
    assert_eq!(read_next_header(Codec::Brotli, &frame[..3]).unwrap(), None);
    assert_eq!(read_next_header(Codec::Brotli, &[0u8; 16]).unwrap(), None);
    for cut in [4usize, 7, 8, 11, 12, 13, 14, 15] {
        assert!(matches!(
            read_next_header(Codec::Brotli, &frame[..cut]),
            Err(Error::Io(IoKind::UnexpectedEof, "failed to fill whole buffer"))
        ));
    }
    let mut other_skip = frame.clone();
    other_skip[4] = 4;
    assert_eq!(read_next_header(Codec::Brotli, &other_skip[..16]).unwrap(), None);
    let mut other_magic = frame.clone();
    other_magic[13] = 0;
    assert_eq!(read_next_header(Codec::Brotli, &other_magic[..16]).unwrap(), None);
    let lz4 = Lz4Encoder::build_frame_bytes(&[1, 2, 3]);
    assert_eq!(read_next_header(Codec::Lz4, &lz4[..12]).unwrap(), Some(3));
    assert!(matches!(
        read_next_header(Codec::Lz4, &lz4[..10]),
        Err(Error::Io(IoKind::UnexpectedEof, "failed to fill whole buffer"))
    ));
}

#[test]
fn compress_gives_streams_that_the_codecs_read_back() {
    let data: Vec<u8> = (0..20_000u32).map(|i| (i % 251) as u8).collect();
    for codec in [Codec::Brotli, Codec::Lz4] {
        let packed = compress_stream(codec, &data, 5).unwrap();
        assert_ne!(packed, data);
        assert!(packed.len() < data.len());
        assert_eq!(decompress(codec, &packed), data);
    }
}

#[test]
fn two_entries_in_brotli_frames_of_4096() {
    // 8192 zero bytes and 8192 bytes of 0xFF, as one block in frames of 4096.
    let mut content = vec![0u8; 8192];
    content.extend_from_slice(&[0xFF; 8192]);
    let mut encoder = BrotliEncoder::new(11, 4096).unwrap();
    let mut pack = Vec::new();
    write_all(&mut encoder.inner, &content, &mut pack);

    assert_eq!(&pack[..4], &[0x50, 0x2A, 0x4D, 0x18]);
    let streams = read_stream(Codec::Brotli, &pack);
    assert_eq!(streams.len(), 4);
    let mut plain = Vec::new();
    for stream in &streams {
        let part = decompress(Codec::Brotli, stream);
        assert_eq!(part.len(), 4096);
        plain.extend_from_slice(&part);
    }
    assert_eq!(plain, content);
    // The second entry is the second half.
    assert_eq!(&plain[8192..], &[0xFF; 8192][..]);
}

#[test]
fn lz4_frames_round_trip_and_resume_at_frame_boundaries() {
    let content: Vec<u8> = (0..10_000u32).map(|i| (i * 7 % 256) as u8).collect();
    let mut encoder = Lz4Encoder::new(3000).unwrap();
    let mut pack = Vec::new();
    write_all(&mut encoder.inner, &content, &mut pack);
    let streams = read_stream(Codec::Lz4, &pack);
    assert_eq!(streams.len(), 4);
    let plain: Vec<u8> = streams.iter().flat_map(|s| decompress(Codec::Lz4, s)).collect();
    assert_eq!(plain, content);

    // Cut behind the second frame: the first two frames are read, in order.
    let cut = 12 + streams[0].len() + 12 + streams[1].len();
    let kept = read_stream(Codec::Lz4, &pack[..cut]);
    assert_eq!(kept, streams[..2].to_vec());

    // Two streams produced apart, one after the other.
    let mut second = Lz4Encoder::new(4096).unwrap();
    let mut more = Vec::new();
    write_all(&mut second.inner, b"tail of the stream", &mut more);
    let mut both = pack.clone();
    both.extend_from_slice(&more);
    let all = read_stream(Codec::Lz4, &both);
    assert_eq!(all.len(), 5);
    let plain: Vec<u8> = all.iter().flat_map(|s| decompress(Codec::Lz4, s)).collect();
    let mut expected = content.clone();
    expected.extend_from_slice(b"tail of the stream");
    assert_eq!(plain, expected);
}

#[test]
fn a_plain_stream_is_read_from_the_bytes_read_ahead() {
    let data = b"no frames here, just a stream".to_vec();
    let packed = compress_stream(Codec::Brotli, &data, 9).unwrap();
    let streams = read_stream(Codec::Brotli, &packed);
    assert_eq!(streams, vec![packed.clone()]);
    let decoder = BrotliDecoder::new(&packed[..16], 4096).unwrap();
    assert_eq!(decoder.buffer_size, 4096);
    assert!(!decoder.frames.is_finished());
    let lz4 = Lz4Decoder::new(&[1, 2, 3, 4]).unwrap();
    assert!(!lz4.frames.is_finished());
}

#[test]
fn frame_size_zero_means_no_frames() {
    let mut encoder = BrotliEncoder::new(5, 0).unwrap();
    assert!(matches!(encoder.inner, InnerWriter::Standard));
    assert_eq!(encoder.inner.poll_write(b"abc").unwrap(), FrameWrite::Codec);
    assert_eq!(encoder.inner.poll_flush().unwrap(), SinkStep::Forward);
    let lz4 = Lz4Encoder::new(0).unwrap();
    assert_eq!(lz4.finish().unwrap(), None);
}

#[test]
fn a_write_fills_the_frame_and_no_more() {
    let mut encoder = FrameEncoder::new(Codec::Lz4, 0, 10);
    assert_eq!(encoder.poll_write(b"0123456").unwrap(), 7);
    assert_eq!(encoder.pending_output().len(), 0);
    assert_eq!(encoder.poll_write(b"789abcdef").unwrap(), 3);
    let expected = build_frame_bytes(Codec::Lz4, &compress_stream(Codec::Lz4, b"0123456789", 0).unwrap(), 10);
    assert_eq!(encoder.pending_output(), &expected[..]);
    assert_eq!(encoder.poll_write(&[]).unwrap(), 0);
    encoder.advance(5);
    assert_eq!(encoder.pending_output(), &expected[5..]);
    encoder.advance(usize::MAX);
    assert_eq!(encoder.pending_output().len(), 0);
    assert_eq!(encoder.poll_close().unwrap(), SinkStep::Forward);
}

#[test]
fn finish_hands_out_what_the_sink_has_not_taken() {
    let mut encoder = Lz4Encoder::new(8).unwrap();
    let mut sink = Vec::new();
    if let InnerWriter::Framed(frames) = &mut encoder.inner {
        assert_eq!(frames.poll_write(b"12345678").unwrap(), 8);
        assert_eq!(frames.poll_write(b"abc").unwrap(), 3);
        sink.extend_from_slice(&frames.pending_output()[..4]);
        frames.advance(4);
    }
    let rest = encoder.finish().unwrap().unwrap();
    sink.extend_from_slice(&rest);
    let streams = read_stream(Codec::Lz4, &sink);
    assert_eq!(streams.len(), 2);
    assert_eq!(decompress(Codec::Lz4, &streams[0]), b"12345678");
    assert_eq!(decompress(Codec::Lz4, &streams[1]), b"abc");
}

#[test]
fn inner_reader_limits_reads_to_the_frame() {
    let mut reader = InnerReader::new_skippable(10);
    assert!(matches!(reader.poll_read(4), ReadPlan::Source(4)));
    reader.after_read(4);
    assert!(matches!(reader.poll_read(100), ReadPlan::Source(6)));
    reader.after_read(6);
    assert!(matches!(reader.poll_read(100), ReadPlan::Eof));
    assert!(reader.is_at_frame_end());
    let frame = Lz4Encoder::build_frame_bytes(&[1, 2]);
    assert!(reader.read_next_frame_header(Codec::Lz4, &frame[..12]).unwrap());
    assert!(matches!(reader.poll_read(100), ReadPlan::Source(2)));
    // The source ends early: the frame is over.
    reader.after_read(0);
    assert!(matches!(reader.poll_read(100), ReadPlan::Eof));
    assert!(!reader.read_next_frame_header(Codec::Lz4, &[]).unwrap());

    let mut plain = InnerReader::new_standard(vec![1, 2, 3]);
    assert!(!plain.read_next_frame_header(Codec::Lz4, &frame[..12]).unwrap());
    match plain.poll_read(2) {
        ReadPlan::Header(bytes) => assert_eq!(bytes, vec![1, 2]),
        _ => panic!("the bytes read ahead come first"),
    }
    match plain.poll_read(2) {
        ReadPlan::Header(bytes) => assert_eq!(bytes, vec![3]),
        _ => panic!("the bytes read ahead come first"),
    }
    assert!(matches!(plain.poll_read(2), ReadPlan::Source(2)));
    assert!(matches!(InnerReader::empty().poll_read(2), ReadPlan::Eof));
}

fn file(name: &str) -> ArchiveEntry {
    ArchiveEntry {
        name: name.encode_utf16().collect(),
        has_stream: true,
        is_directory: false,
        is_anti_item: false,
        creation_date: None,
        access_date: None,
        last_modified_date: None,
        windows_attributes: None,
    }
}

#[test]
fn two_entries_in_an_archive_of_brotli_frames() {
    let options = BrotliOptions { quality: 11, window: 22, skippable_frame_size: 4096 };
    let methods = vec![EncoderConfiguration::new(EncoderMethod::Brotli)
        .with_options(EncoderOptions::Brotli(options))];
    let a = vec![0u8; 8192];
    let b = vec![0xFFu8; 8192];
    let content = [a.clone(), b.clone()].concat();
    let mut pack = Vec::new();
    match add_encoder(&methods[0]).unwrap() {
        Encoder::Brotli(mut encoder) => write_all(&mut encoder.inner, &content, &mut pack),
        _ => panic!("the method is Brotli"),
    }
    let mut archive = empty_archive();
    push_block(
        &mut archive,
        &methods,
        vec![file("a"), file("b")],
        vec![8192, 8192],
        vec![crc32_of(&a), crc32_of(&b)],
        vec![16384],
        crc32_of(&content),
        pack.len() as u64,
        crc32_of(&pack),
    )
    .unwrap();
    let bytes = finish_archive(&pack, &archive);

    let archive = match open_archive(&bytes).unwrap() {
        EndHeader::Plain(archive) => archive,
        EndHeader::Encoded(_) => panic!("the header was written plain"),
    };
    let packed = read_pack(&bytes, &archive, 0).unwrap();
    let frames = packed.windows(4).filter(|w| w == &[0x50, 0x2A, 0x4D, 0x18]).count();
    assert!(frames >= 2);
    let plan = add_decoder(16384, &archive.blocks[0].coders[0], &Password::empty(), usize::MAX, 1);
    assert!(matches!(plan, Ok(Decoder::Brotli { .. })));
    let mut output = Vec::new();
    for stream in read_stream(Codec::Brotli, &packed) {
        output.extend_from_slice(&decompress(Codec::Brotli, &stream));
    }
    assert_eq!(block_entries(&archive, 0), Ok(vec![0, 1]));
    assert_eq!(read_block_entry(&archive.blocks[0], &output, 0), Ok(a));
    assert_eq!(read_block_entry(&archive.blocks[0], &output, 1), Ok(b));
}
