use sevenz_rust2::aes::{
    get_aes_key, Aes256Sha256Decoder, Aes256Sha256Encoder, Cipher, ReadStep, INPUT_CHUNK,
};
use sevenz_rust2::error::{Error, IoKind};
use sevenz_rust2::options::AesEncoderOptions;
use sevenz_rust2::password::Password;
use sevenz_rust2::step::{SinkStep, WriteStep};

fn sample_text() -> Vec<u8> {
    let mut text = Vec::new();
    let mut line = 0u32;
    while text.len() < 16_411 {
        text.extend_from_slice(format!("line {line}: the quick brown fox\n").as_bytes());
        line += 1;
    }
    text.truncate(16_411);
    text
}

fn drain(encoder: &mut Aes256Sha256Encoder, sink: &mut Vec<u8>) {
    loop {
        let pending = encoder.pending_output().to_vec();
        if pending.is_empty() {
            break;
        }
        // A sink that takes seven bytes at a time.
        let n = pending.len().min(7);
        sink.extend_from_slice(&pending[..n]);
        encoder.advance(n);
    }
}

fn encrypt_all(options: &AesEncoderOptions, plain: &[u8], piece: usize) -> Vec<u8> {
    let mut encoded = Vec::new();
    let mut encoder = Aes256Sha256Encoder::new(options).unwrap();
    let mut at = 0;
    while at < plain.len() {
        let end = (at + piece).min(plain.len());
        match encoder.poll_write(&plain[at..end]) {
            WriteStep::Accepted(n) => at += n,
            WriteStep::Drain => drain(&mut encoder, &mut encoded),
        }
    }
    drain(&mut encoder, &mut encoded);
    assert_eq!(encoder.poll_write(&[]), WriteStep::Accepted(0));
    drain(&mut encoder, &mut encoded);
    assert_eq!(encoder.poll_close(), SinkStep::Forward);
    encoded
}

fn decrypt_all(properties: &[u8], password: &Password, encoded: &[u8], max: usize) -> Vec<u8> {
    let mut decoder = Aes256Sha256Decoder::new(properties, password).unwrap();
    let mut decoded = Vec::new();
    let mut at = 0;
    loop {
        match decoder.poll_read(max) {
            ReadStep::Deliver(bytes) => decoded.extend_from_slice(&bytes),
            ReadStep::NeedInput => {
                let end = (at + INPUT_CHUNK).min(encoded.len());
                decoder.feed(&encoded[at..end]).unwrap();
                at = end;
            }
            ReadStep::End => break,
        }
    }
    decoded
}

#[test]
fn test_aes_codec() {
    let password: Password = Password::new("1234");
    let options = AesEncoderOptions::new(password.clone(), [7u8; 16], [9u8; 16]);
    let plain = sample_text();
    let encoded = encrypt_all(&options, &plain, plain.len());

    let decoded = decrypt_all(&options.properties(), &password, &encoded, 4096);
    assert_eq!(&decoded[..plain.len()], &plain[..]);
}

#[test]
fn ciphertext_is_whole_blocks_and_differs_from_plaintext() {
    let password = Password::new("1234");
    let options = AesEncoderOptions::new(password, [1u8; 16], [2u8; 16]);
    let plain = sample_text();
    let encoded = encrypt_all(&options, &plain, 1000);
    assert_eq!(encoded.len(), 16_416);
    assert_ne!(&encoded[..plain.len()], &plain[..]);
    // The last block is the plaintext's tail filled with zero bytes.
    let decoded = decrypt_all(&options.properties(), &options.password, &encoded, 33);
    assert_eq!(decoded.len(), 16_416);
    assert_eq!(&decoded[16_411..], &[0u8; 5]);
}

#[test]
fn pieces_do_not_change_the_ciphertext() {
    let password = Password::new("secret");
    let options = AesEncoderOptions::new(password, [3u8; 16], [4u8; 16]);
    let plain = sample_text();
    let whole = encrypt_all(&options, &plain, plain.len());
    for piece in [1usize, 5, 16, 17, 512, 4099] {
        assert_eq!(encrypt_all(&options, &plain, piece), whole);
    }
}

#[test]
fn known_answer_for_aes_256_cbc() {
    // NIST SP 800-38A, F.2.5 CBC-AES256.Encrypt, first block.
    let key: [u8; 32] = [
        0x60, 0x3d, 0xeb, 0x10, 0x15, 0xca, 0x71, 0xbe, 0x2b, 0x73, 0xae, 0xf0, 0x85, 0x7d, 0x77,
        0x81, 0x1f, 0x35, 0x2c, 0x07, 0x3b, 0x61, 0x08, 0xd7, 0x2d, 0x98, 0x10, 0xa3, 0x09, 0x14,
        0xdf, 0xf4,
    ];
    let iv: [u8; 16] = [0, 1, 2, 3, 4, 5, 6, 7, 8, 9, 10, 11, 12, 13, 14, 15];
    let plain: [u8; 16] = [
        0x6b, 0xc1, 0xbe, 0xe2, 0x2e, 0x40, 0x9f, 0x96, 0xe9, 0x3d, 0x7e, 0x11, 0x73, 0x93, 0x17,
        0x2a,
    ];
    let sealed: [u8; 16] = [
        0xf5, 0x8c, 0x4c, 0x04, 0xd6, 0xe5, 0xf1, 0xba, 0x77, 0x9e, 0xab, 0xfb, 0x5f, 0x7b, 0xfb,
        0xd6,
    ];
    // Properties with 0x3F cycles take the key from salt and password as they are.
    let mut properties = vec![0x3F | 0xC0, 0xFF];
    properties.extend_from_slice(&key[..16]);
    properties.extend_from_slice(&iv);
    let (derived, got_iv) = get_aes_key(&properties, &key[16..]).unwrap();
    assert_eq!(derived, key);
    assert_eq!(got_iv, iv);
    let mut cipher = Cipher::from_properties(&properties, &key[16..]).unwrap();
    assert_eq!(cipher.update(&sealed), plain.to_vec());
    assert!(cipher.do_final().is_ok());
}

#[test]
fn key_is_sha256_of_the_rounds() {
    // One round (2^0) with no salt: SHA-256 of the password and eight zero bytes.
    let (key, iv) = get_aes_key(&[0u8, 0u8], b"abc").unwrap();
    assert_eq!(iv, [0u8; 16]);
    let expected: [u8; 32] = [
        0x4b, 0x5c, 0x6f, 0xd3, 0x14, 0xd0, 0xd8, 0x3d, 0x29, 0xa1, 0xe1, 0x29, 0x03, 0x30, 0x92,
        0x28, 0x98, 0x34, 0xa2, 0xb5, 0x0d, 0xa2, 0x2f, 0x2c, 0x0f, 0x74, 0x17, 0x7d, 0xc3, 0xe7,
        0x52, 0x5e,
    ];
    assert_eq!(key, expected);
}

#[test]
fn key_of_eight_rounds_with_salt() {
    // 2^3 rounds, two bytes of salt, one byte of IV.
    let properties = [0x03 | 0x80 | 0x40, 0x10, 1, 2, 0xAA];
    let password = Password::new("1234");
    let (key, iv) = get_aes_key(&properties, password.as_slice()).unwrap();
    let expected: [u8; 32] = [
        0x2d, 0x3c, 0x8d, 0x32, 0x50, 0x63, 0x34, 0x46, 0x26, 0x99, 0x18, 0xae, 0x08, 0x90, 0xf0,
        0x83, 0xdf, 0x5b, 0x98, 0x8f, 0x54, 0x33, 0x83, 0xe3, 0xe3, 0x34, 0x3b, 0x91, 0xc8, 0x89,
        0xe5, 0x04,
    ];
    assert_eq!(key, expected);
    assert_eq!(iv, [0xAA, 0, 0, 0, 0, 0, 0, 0, 0, 0, 0, 0, 0, 0, 0, 0]);
}

#[test]
fn key_without_hashing_is_salt_and_password() {
    let properties = [0x3F | 0x80, 0x10, 0x11, 0x22];
    let (key, _) = get_aes_key(&properties, &[0x33; 40]).unwrap();
    let mut expected = [0x33u8; 32];
    expected[0] = 0x11;
    expected[1] = 0x22;
    assert_eq!(key, expected);
    let (short, _) = get_aes_key(&properties, &[0x44, 0x55]).unwrap();
    let mut expected = [0u8; 32];
    expected[..4].copy_from_slice(&[0x11, 0x22, 0x44, 0x55]);
    assert_eq!(short, expected);
}

#[test]
fn aes_properties_are_checked() {
    assert!(matches!(
        get_aes_key(&[0x13], b"pw"),
        Err(Error::Other("AES256 properties too short"))
    ));
    assert!(matches!(
        get_aes_key(&[0xD3, 0xFF, 1, 2, 3], b"pw"),
        Err(Error::Other("Salt size + IV size too long"))
    ));
    assert!(matches!(get_aes_key(&[0x13, 0x00], b""), Err(Error::PasswordRequired)));
}

#[test]
fn a_partial_block_at_the_end_is_refused() {
    let password = Password::new("1234");
    let options = AesEncoderOptions::new(password.clone(), [7u8; 16], [9u8; 16]);
    let mut decoder = Aes256Sha256Decoder::new(&options.properties(), &password).unwrap();
    decoder.feed(&[1, 2, 3]).unwrap();
    let ended = decoder.feed(&[]);
    assert!(matches!(ended, Err(Error::Io(IoKind::InvalidData, "IllegalBlockSize"))));
}

#[test]
fn nothing_is_taken_after_the_end() {
    let options = AesEncoderOptions::new(Password::new("pw"), [0u8; 16], [0u8; 16]);
    let mut encoder = Aes256Sha256Encoder::new(&options).unwrap();
    assert_eq!(encoder.poll_write(b"0123456789"), WriteStep::Accepted(10));
    assert_eq!(encoder.poll_write(&[]), WriteStep::Accepted(0));
    assert_eq!(encoder.pending_output().len(), 16);
    assert_eq!(encoder.poll_write(b"more"), WriteStep::Drain);
    encoder.advance(16);
    assert_eq!(encoder.poll_write(b"more"), WriteStep::Accepted(0));
    assert_eq!(encoder.poll_flush(), SinkStep::Forward);
}

#[test]
fn an_empty_password_makes_no_encoder() {
    let options = AesEncoderOptions::new(Password::empty(), [0u8; 16], [0u8; 16]);
    assert!(matches!(Aes256Sha256Encoder::new(&options), Err(Error::PasswordRequired)));
}

#[test]
fn password_is_utf16_little_endian() {
    assert_eq!(Password::new("1234").as_slice(), &[0x31, 0, 0x32, 0, 0x33, 0, 0x34, 0]);
    assert_eq!(Password::new("\u{1F600}").as_slice(), &[0x3D, 0xD8, 0x00, 0xDE]);
    assert!(Password::new("").is_empty());
    assert!(Password::empty().is_empty());
}
