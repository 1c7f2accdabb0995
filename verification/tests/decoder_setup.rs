use sevenz_rust2::coder::Coder;
use sevenz_rust2::decoder::{
    add_decoder, get_lzma2_dic_size, get_lzma_dic_size, get_ppmd_order_memory_size,
    lzma2_dict_size_of_bits, AsyncStdRead, Decoder, BROTLI_BUFFER_SIZE,
};
use sevenz_rust2::error::{Error, IoKind};
use sevenz_rust2::method::{BcjArch, EncoderMethod};
use sevenz_rust2::password::Password;

fn coder(method: EncoderMethod, properties: &[u8]) -> Coder {
    Coder {
        method_id: method.id(),
        num_in_streams: 1,
        num_out_streams: 1,
        properties: properties.to_vec(),
    }
}

#[test]
fn lzma2_dictionary_sizes() {
    assert_eq!(get_lzma2_dic_size(&coder(EncoderMethod::Lzma2, &[0])).unwrap(), 4096);
    assert_eq!(get_lzma2_dic_size(&coder(EncoderMethod::Lzma2, &[1])).unwrap(), 6144);
    assert_eq!(get_lzma2_dic_size(&coder(EncoderMethod::Lzma2, &[22])).unwrap(), 8 << 20);
    assert_eq!(get_lzma2_dic_size(&coder(EncoderMethod::Lzma2, &[39])).unwrap(), 0xC000_0000);
    assert_eq!(get_lzma2_dic_size(&coder(EncoderMethod::Lzma2, &[40])).unwrap(), 0xFFFF_FFFF);
    assert_eq!(lzma2_dict_size_of_bits(24), 16 << 20);
}

#[test]
fn lzma2_properties_are_checked() {
    assert!(matches!(
        get_lzma2_dic_size(&coder(EncoderMethod::Lzma2, &[])),
        Err(Error::Other("LZMA2 properties too short"))
    ));
    assert!(matches!(
        get_lzma2_dic_size(&coder(EncoderMethod::Lzma2, &[41])),
        Err(Error::Other("Dictionary larger than 4GiB maximum size"))
    ));
    assert!(matches!(
        get_lzma2_dic_size(&coder(EncoderMethod::Lzma2, &[64])),
        Err(Error::Other("Unsupported LZMA2 property bits"))
    ));
    assert!(matches!(
        get_lzma2_dic_size(&coder(EncoderMethod::Lzma2, &[0xFF])),
        Err(Error::Other("Unsupported LZMA2 property bits"))
    ));
}

#[test]
fn lzma_dictionary_size_is_little_endian() {
    let c = coder(EncoderMethod::Lzma, &[0x5D, 0x00, 0x00, 0x80, 0x00]);
    assert_eq!(get_lzma_dic_size(&c).unwrap(), 0x0080_0000);
    let c = coder(EncoderMethod::Lzma, &[0x5D, 0x78, 0x56, 0x34, 0x12, 0xFF]);
    assert_eq!(get_lzma_dic_size(&c).unwrap(), 0x1234_5678);
    assert!(matches!(
        get_lzma_dic_size(&coder(EncoderMethod::Lzma, &[0x5D, 0, 0, 0])),
        Err(Error::Io(IoKind::InvalidData, "LZMA properties too short"))
    ));
}

#[test]
fn ppmd_properties_are_held_against_the_coder() {
    let ok = coder(EncoderMethod::Ppmd, &[6, 0x00, 0x00, 0x00, 0x01]);
    assert_eq!(get_ppmd_order_memory_size(&ok, usize::MAX).unwrap(), (6, 1 << 24));
    // 16 MiB are 16384 KiB: the limit counts in KiB, and so does a refusal.
    assert_eq!(get_ppmd_order_memory_size(&ok, 1 << 20).unwrap(), (6, 1 << 24));
    assert_eq!(get_ppmd_order_memory_size(&ok, 16384).unwrap(), (6, 1 << 24));
    assert!(matches!(
        get_ppmd_order_memory_size(&ok, 16383),
        Err(Error::MaxMemLimited { max_kb: 16383, actaul_kb: 16384 })
    ));
    let small = coder(EncoderMethod::Ppmd, &[6, 0x00, 0x10, 0x00, 0x00]);
    assert_eq!(get_ppmd_order_memory_size(&small, 1000).unwrap(), (6, 4096));
    assert_eq!(get_ppmd_order_memory_size(&small, 4).unwrap(), (6, 4096));
    assert!(matches!(
        get_ppmd_order_memory_size(&small, 3),
        Err(Error::MaxMemLimited { max_kb: 3, actaul_kb: 4 })
    ));
    assert!(matches!(
        get_ppmd_order_memory_size(&coder(EncoderMethod::Ppmd, &[6, 0, 0, 0]), usize::MAX),
        Err(Error::Other("PPMD properties too short"))
    ));
    assert!(matches!(
        get_ppmd_order_memory_size(&coder(EncoderMethod::Ppmd, &[1, 0, 0, 0, 1]), usize::MAX),
        Err(Error::Other("PPMD order smaller than PPMD7_MIN_ORDER"))
    ));
    assert!(matches!(
        get_ppmd_order_memory_size(&coder(EncoderMethod::Ppmd, &[65, 0, 0, 0, 1]), usize::MAX),
        Err(Error::Other("PPMD order larger than PPMD7_MAX_ORDER"))
    ));
    assert!(matches!(
        get_ppmd_order_memory_size(&coder(EncoderMethod::Ppmd, &[6, 0xFF, 0x07, 0, 0]), usize::MAX),
        Err(Error::Other("PPMD memory size smaller than PPMD7_MIN_MEM_SIZE"))
    ));
    assert!(matches!(
        get_ppmd_order_memory_size(
            &coder(EncoderMethod::Ppmd, &[6, 0xDC, 0xFF, 0xFF, 0xFF]),
            usize::MAX
        ),
        Err(Error::Other("PPMD memory size larger than PPMD7_MAX_MEM_SIZE"))
    ));
    let top = coder(EncoderMethod::Ppmd, &[64, 0xDB, 0xFF, 0xFF, 0xFF]);
    assert_eq!(get_ppmd_order_memory_size(&top, usize::MAX).unwrap(), (64, 0xFFFF_FFDB));
}

#[test]
fn an_unknown_method_is_refused_with_its_id() {
    let c = Coder {
        method_id: vec![0x04, 0x01, 0x09],
        num_in_streams: 1,
        num_out_streams: 1,
        properties: vec![],
    };
    match add_decoder(0, &c, &Password::empty(), usize::MAX, 1) {
        Err(Error::UnsupportedCompressionMethod(id)) => assert_eq!(id, vec![0x04, 0x01, 0x09]),
        _ => panic!("an unknown method must be refused"),
    }
}

#[test]
fn lzma_gets_its_header() {
    let c = coder(EncoderMethod::Lzma, &[0x5D, 0x00, 0x00, 0x80, 0x00]);
    match add_decoder(0x0102_0304, &c, &Password::empty(), usize::MAX, 1) {
        Ok(Decoder::Lzma { header }) => {
            assert_eq!(header, vec![0x5D, 0, 0, 0x80, 0, 4, 3, 2, 1, 0, 0, 0, 0]);
        }
        _ => panic!("an LZMA decoder is owed"),
    }
}

#[test]
fn lzma2_memory_is_held_against_the_limit() {
    // A dictionary of 8 MiB takes 104 KiB more: 8296 KiB.
    let c = coder(EncoderMethod::Lzma2, &[22]);
    assert!(matches!(
        add_decoder(0, &c, &Password::empty(), 8296, 1),
        Ok(Decoder::Lzma2 { dict_size: 0x80_0000 })
    ));
    assert!(matches!(
        add_decoder(0, &c, &Password::empty(), 8295, 1),
        Err(Error::MaxMemLimited { max_kb: 8295, actaul_kb: 8296 })
    ));
    assert!(matches!(
        add_decoder(0, &c, &Password::empty(), usize::MAX, 4),
        Ok(Decoder::Lzma2Mt { dict_size: 0x80_0000, threads: 4 })
    ));
    // The largest dictionary counts as all that a u32 holds.
    let c = coder(EncoderMethod::Lzma2, &[40]);
    assert!(matches!(
        add_decoder(0, &c, &Password::empty(), 4194406, 1),
        Err(Error::MaxMemLimited { max_kb: 4194406, actaul_kb: 4194407 })
    ));
}

#[test]
fn filters_and_plain_codecs() {
    let none = Password::empty();
    assert!(matches!(
        add_decoder(0, &coder(EncoderMethod::Copy, &[]), &none, 0, 1),
        Ok(Decoder::Copy)
    ));
    assert!(matches!(
        add_decoder(0, &coder(EncoderMethod::Delta, &[]), &none, 0, 1),
        Ok(Decoder::Delta { distance: 1 })
    ));
    assert!(matches!(
        add_decoder(0, &coder(EncoderMethod::Delta, &[3]), &none, 0, 1),
        Ok(Decoder::Delta { distance: 4 })
    ));
    assert!(matches!(
        add_decoder(0, &coder(EncoderMethod::Delta, &[255]), &none, 0, 1),
        Ok(Decoder::Delta { distance: 256 })
    ));
    assert!(matches!(
        add_decoder(0, &coder(EncoderMethod::Bcj(BcjArch::Riscv), &[]), &none, 0, 1),
        Ok(Decoder::Bcj(BcjArch::Riscv))
    ));
    assert!(matches!(
        add_decoder(0, &coder(EncoderMethod::Brotli, &[1, 0, 11]), &none, 0, 1),
        Ok(Decoder::Brotli { buffer_size: BROTLI_BUFFER_SIZE })
    ));
    assert!(matches!(
        add_decoder(0, &coder(EncoderMethod::Zstd, &[]), &none, 0, 1),
        Ok(Decoder::Zstd)
    ));
    assert!(matches!(
        add_decoder(0, &coder(EncoderMethod::Lz4, &[]), &none, 0, 1),
        Ok(Decoder::Lz4)
    ));
    assert!(matches!(
        add_decoder(0, &coder(EncoderMethod::Bzip2, &[]), &none, 0, 1),
        Ok(Decoder::Bzip2)
    ));
    assert!(matches!(
        add_decoder(0, &coder(EncoderMethod::Deflate, &[]), &none, 0, 1),
        Ok(Decoder::Deflate)
    ));
}

#[test]
fn aes_needs_a_password() {
    let properties = [0x13 | 0xC0, 0xFF]
        .iter()
        .copied()
        .chain([5u8; 32])
        .collect::<Vec<u8>>();
    let c = coder(EncoderMethod::Aes256Sha256, &properties);
    assert!(matches!(
        add_decoder(0, &c, &Password::empty(), usize::MAX, 1),
        Err(Error::PasswordRequired)
    ));
    // Even properties that are malformed ask for the password first.
    let broken = coder(EncoderMethod::Aes256Sha256, &[0x13]);
    assert!(matches!(
        add_decoder(0, &broken, &Password::empty(), usize::MAX, 1),
        Err(Error::PasswordRequired)
    ));
    assert!(matches!(
        add_decoder(0, &broken, &Password::new("pw"), usize::MAX, 1),
        Err(Error::Other("AES256 properties too short"))
    ));
    let small = coder(EncoderMethod::Aes256Sha256, &[0x03, 0x00]);
    assert!(matches!(
        add_decoder(0, &small, &Password::new("pw"), usize::MAX, 1),
        Ok(Decoder::Aes256Sha256(_))
    ));
}

#[test]
fn async_std_read_keeps_what_it_wraps() {
    let reader = AsyncStdRead::new(vec![1u8, 2, 3]);
    assert_eq!(reader.into_inner(), vec![1u8, 2, 3]);
}
