use sevenz_rust2::method::{BcjArch, EncoderMethod};

#[test]
fn lzma2_is_found_by_its_id() {
    assert_eq!(EncoderMethod::by_id(&[0x21]), Some(EncoderMethod::Lzma2));
    assert_eq!(EncoderMethod::Lzma2.id(), vec![0x21]);
}

#[test]
fn unknown_id_is_not_found() {
    assert_eq!(EncoderMethod::by_id(&[0x04, 0xF7, 0x11, 0x03]), None);
    assert_eq!(EncoderMethod::by_id(&[]), None);
    assert_eq!(EncoderMethod::by_id(&[0x03, 0x03, 0x01, 0x1B]), None);
}

#[test]
fn bcj_ids() {
    assert_eq!(EncoderMethod::by_id(&[0x0A]), Some(EncoderMethod::Bcj(BcjArch::Arm64)));
    assert_eq!(EncoderMethod::Bcj(BcjArch::X86).id(), vec![3, 3, 1, 3]);
}
