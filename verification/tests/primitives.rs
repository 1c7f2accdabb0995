use sevenz_rust2::bits::{read_bits, write_bits};
use sevenz_rust2::counting_writer::CountingWriter;
use sevenz_rust2::crc::{crc32_of, verify_crc, Crc32};
use sevenz_rust2::encoder::StripLzmaHeaderWrite;
use sevenz_rust2::error::Error;
use sevenz_rust2::le::{u16_from_le, u16_to_le, u32_from_le, u32_to_le, u64_from_le, u64_to_le};
use sevenz_rust2::uint64::{read_u64, write_u64};

fn encode(value: u64) -> Vec<u8> {
    let mut out = Vec::new();
    write_u64(&mut out, value);
    out
}

#[test]
fn numbers_take_the_fewest_bytes() {
    assert_eq!(encode(0), vec![0x00]);
    assert_eq!(encode(0x7F), vec![0x7F]);
    assert_eq!(encode(0x80), vec![0x80, 0x80]);
    assert_eq!(encode(0x3FFF), vec![0xBF, 0xFF]);
    assert_eq!(encode(0x4000), vec![0xC0, 0x00, 0x40]);
    assert_eq!(encode(0x0234_5678), vec![0xE2, 0x78, 0x56, 0x34]);
    assert_eq!(encode(0x1234_5678), vec![0xF0, 0x78, 0x56, 0x34, 0x12]);
    assert_eq!(encode(0xFF_FFFF_FFFF_FFFF), vec![0xFE, 0xFF, 0xFF, 0xFF, 0xFF, 0xFF, 0xFF, 0xFF]);
    assert_eq!(
        encode(0x0100_0000_0000_0000),
        vec![0xFF, 0, 0, 0, 0, 0, 0, 0, 1]
    );
    assert_eq!(encode(u64::MAX), vec![0xFF; 9]);
}

#[test]
fn numbers_are_read_back() {
    let mut values = vec![0u64, 1, 0x7F, 0x80, 0x3FFF, 0x4000, u64::MAX, u64::MAX - 1];
    for shift in 0..64 {
        values.push(1u64 << shift);
        values.push((1u64 << shift) - 1);
        values.push((1u64 << shift) + 1);
    }
    for value in values {
        let mut bytes = vec![0xAA];
        write_u64(&mut bytes, value);
        let end = bytes.len();
        bytes.push(0x55);
        assert_eq!(read_u64(&bytes, 1).unwrap(), (value, end));
    }
}

#[test]
fn a_cut_number_is_refused() {
    assert!(matches!(read_u64(&[], 0), Err(Error::Other("Truncated number"))));
    assert!(matches!(read_u64(&[0x80], 0), Err(Error::Other("Truncated number"))));
    assert!(matches!(read_u64(&[0xFF, 1, 2, 3, 4, 5, 6, 7], 0), Err(Error::Other("Truncated number"))));
    assert!(matches!(read_u64(&[0x01, 0xC0, 0x00], 1), Err(Error::Other("Truncated number"))));
    assert_eq!(read_u64(&[0x01, 0xC0, 0x00], 0).unwrap(), (1, 1));
}

#[test]
fn a_longer_form_of_a_number_is_read_too() {
    // 5 in three bytes, which a writer never makes.
    assert_eq!(read_u64(&[0xC0, 0x05, 0x00], 0).unwrap(), (5, 3));
}

#[test]
fn bits_are_packed_high_bit_first() {
    let mut out = Vec::new();
    write_bits(&mut out, &[true, false, false, false, false, false, false, true, true]);
    assert_eq!(out, vec![0x81, 0x80]);
    let (bits, end) = read_bits(&[0xFF, 0x81, 0x80, 0xFF], 1, 9).unwrap();
    assert_eq!(bits, vec![true, false, false, false, false, false, false, true, true]);
    assert_eq!(end, 3);
    let mut none = Vec::new();
    write_bits(&mut none, &[]);
    assert!(none.is_empty());
    assert!(matches!(read_bits(&[0xFF], 0, 9), Err(Error::Other("Truncated bit vector"))));
    assert_eq!(read_bits(&[0xFF], 1, 0).unwrap(), (vec![], 1));
}

#[test]
fn crc32_known_answers() {
    assert_eq!(crc32_of(b""), 0);
    assert_eq!(crc32_of(b"123456789"), 0xCBF4_3926);
    assert_eq!(crc32_of(b"hello"), 0x3610_A686);
    assert_eq!(crc32_of(&[0u8; 32]), 0x190A_55AD);
    let mut crc = Crc32::new();
    crc.update(b"1234");
    crc.update(b"");
    crc.update(b"56789");
    assert_eq!(crc.finalize(), 0xCBF4_3926);
}

#[test]
fn crc_is_held_against_what_is_declared() {
    assert!(verify_crc(Some(0xCBF4_3926), b"123456789").is_ok());
    assert!(verify_crc(None, b"anything").is_ok());
    assert!(matches!(verify_crc(Some(0xCBF4_3926), b"123456780"), Err(Error::ChecksumMismatch)));
    // Every single changed byte is found.
    let data = b"The quick brown fox".to_vec();
    let crc = crc32_of(&data);
    for at in 0..data.len() {
        for bit in 0..8 {
            let mut changed = data.clone();
            changed[at] ^= 1 << bit;
            assert!(matches!(verify_crc(Some(crc), &changed), Err(Error::ChecksumMismatch)));
        }
    }
}

#[test]
fn little_endian_numbers() {
    assert_eq!(u16_to_le(0x1234), [0x34, 0x12]);
    assert_eq!(u32_to_le(0x1234_5678), [0x78, 0x56, 0x34, 0x12]);
    assert_eq!(u64_to_le(0x0102_0304_0506_0708), [8, 7, 6, 5, 4, 3, 2, 1]);
    let bytes = [0xFF, 8, 7, 6, 5, 4, 3, 2, 1];
    assert_eq!(u16_from_le(&bytes, 1), 0x0708);
    assert_eq!(u32_from_le(&bytes, 1), 0x0506_0708);
    assert_eq!(u64_from_le(&bytes, 1), 0x0102_0304_0506_0708);
    assert_eq!(u64_from_le(&[0xFF; 8], 0), u64::MAX);
}

#[test]
fn the_counting_writer_counts() {
    let mut writer = CountingWriter::new(Vec::<u8>::new());
    assert_eq!(writer.counting(), 0);
    writer.get_mut().extend_from_slice(b"abc");
    writer.record(3);
    writer.record(0);
    writer.record(10);
    assert_eq!(writer.counting(), 13);
    assert_eq!(writer.into_inner(), b"abc".to_vec());
}

#[test]
fn the_lzma_header_is_dropped_once() {
    let mut strip = StripLzmaHeaderWrite::new(Vec::<u8>::new());
    assert_eq!(strip.poll_write(5), 5);
    assert_eq!(strip.poll_write(0), 0);
    assert_eq!(strip.poll_write(10), 8);
    assert_eq!(strip.poll_write(10), 0);
    strip.get_mut().push(1);
    assert_eq!(strip.into_inner(), vec![1]);
    let mut at_once = StripLzmaHeaderWrite::new(());
    assert_eq!(at_once.poll_write(13), 13);
    assert_eq!(at_once.poll_write(1), 0);
    let mut more = StripLzmaHeaderWrite::new(());
    assert_eq!(more.poll_write(100), 13);
}
