//! AES-256 in CBC mode with a key derived by SHA-256: the key schedule of the
//! properties of an AES coder, and the cipher as a stream that arrives in pieces.

use cbc::cipher::block_padding::NoPadding;
use cbc::cipher::{BlockDecryptMut, BlockEncryptMut, KeyIvInit};
use vstd::prelude::*;

use crate::error::{Error, IoKind};
use crate::le::{le_bytes, u64_to_le};
use crate::step::{SinkStep, WriteStep};

verus! {

/// A SHA-256 computation in progress: the hasher of the `sha2` crate, `sha2::Sha256`.
/// The name of that type is made of types bound by traits of other crates, which the
/// verifier does not take in a signature; so the hasher is held in a field that the
/// verifier does not look into.
#[verifier::external_body]
pub struct Sha256 {
    inner: sha2::Sha256,
}

/// The bytes that a hasher has been fed so far, in order.
pub uninterp spec fn sha256_input(hasher: Sha256) -> Seq<u8>;

/// The SHA-256 digest of `message`: 32 bytes.
pub uninterp spec fn sha256_digest(message: Seq<u8>) -> Seq<u8>;

/// What AES-256 in CBC mode, keyed with `key` and started at `iv`, makes of the
/// ciphertext blocks `data`.
pub uninterp spec fn aes256_cbc_decrypt(key: Seq<u8>, iv: Seq<u8>, data: Seq<u8>) -> Seq<u8>;

/// What AES-256 in CBC mode, keyed with `key` and started at `iv`, makes of the
/// plaintext blocks `data`.
pub uninterp spec fn aes256_cbc_encrypt(key: Seq<u8>, iv: Seq<u8>, data: Seq<u8>) -> Seq<u8>;

/// `sha2::Sha256::default`: a hasher that has been fed nothing.
#[verifier::external_body]
fn sha256_new() -> (hasher: Sha256)
    ensures
        sha256_input(hasher) == Seq::<u8>::empty(),
{
    Sha256 { inner: sha2::Sha256::default() }
}

/// `sha2::Digest::update`: feeds `data` to the hasher, after what it was fed before.
#[verifier::external_body]
fn sha256_update(hasher: &mut Sha256, data: &[u8])
    ensures
        sha256_input(*final(hasher)) == sha256_input(*old(hasher)) + data@,
{
    sha2::Digest::update(&mut hasher.inner, data)
}

/// `sha2::Digest::finalize`: the digest of everything the hasher was fed.
#[verifier::external_body]
fn sha256_finalize(hasher: Sha256) -> (digest: [u8; 32])
    ensures
        digest@ == sha256_digest(sha256_input(hasher)),
{
    sha2::Digest::finalize(hasher.inner).into()
}

/// `cbc::Decryptor::<aes::Aes256>`, made from `key` and `iv` and run over the whole
/// blocks of `data` without padding: the plaintext has the length of `data`.
#[verifier::external_body]
fn cbc_decrypt(key: &[u8; 32], iv: &[u8; 16], data: &[u8]) -> (plain: Vec<u8>)
    requires
        data.len() % 16 == 0,
    ensures
        plain@ == aes256_cbc_decrypt(key@, iv@, data@),
        plain.len() == data.len(),
{
    let cipher = cbc::Decryptor::<aes::Aes256>::new(key.into(), iv.into());
    let mut plain = vec![0u8; data.len()];
    cipher.decrypt_padded_b2b_mut::<NoPadding>(data, &mut plain).expect("whole blocks");
    plain
}

/// `cbc::Encryptor::<aes::Aes256>`, made from `key` and `iv` and run over the whole
/// blocks of `data` without padding: the ciphertext has the length of `data`.
#[verifier::external_body]
fn cbc_encrypt(key: &[u8; 32], iv: &[u8; 16], data: &[u8]) -> (sealed: Vec<u8>)
    requires
        data.len() % 16 == 0,
    ensures
        sealed@ == aes256_cbc_encrypt(key@, iv@, data@),
        sealed.len() == data.len(),
{
    let cipher = cbc::Encryptor::<aes::Aes256>::new(key.into(), iv.into());
    let mut sealed = vec![0u8; data.len()];
    cipher.encrypt_padded_b2b_mut::<NoPadding>(data, &mut sealed).expect("whole blocks");
    sealed
}

/// The exponent of the number of hashing rounds that AES properties declare.
pub open spec fn aes_cycles_power(properties: Seq<u8>) -> u8 {
    properties[0] & 0x3F
}

/// The number of IV bytes that AES properties carry.
pub open spec fn aes_iv_size(properties: Seq<u8>) -> int {
    ((properties[0] >> 6) & 1) + (properties[1] & 0x0F)
}

/// The number of salt bytes that AES properties carry.
pub open spec fn aes_salt_size(properties: Seq<u8>) -> int {
    ((properties[0] >> 7) & 1) + (properties[1] >> 4)
}

/// The salt that AES properties carry.
pub open spec fn aes_salt(properties: Seq<u8>) -> Seq<u8> {
    properties.subrange(2, 2 + aes_salt_size(properties))
}

/// `bytes`, cut or filled with zero bytes to the length `width`.
pub open spec fn zero_padded(bytes: Seq<u8>, width: nat) -> Seq<u8> {
    Seq::new(width, |i: int| if i < bytes.len() { bytes[i] } else { 0u8 })
}

/// The IV that AES properties carry, filled with zero bytes to 16.
pub open spec fn aes_iv(properties: Seq<u8>) -> Seq<u8> {
    zero_padded(
        properties.subrange(
            2 + aes_salt_size(properties),
            2 + aes_salt_size(properties) + aes_iv_size(properties),
        ),
        16,
    )
}

/// What is hashed in `rounds` rounds: in round `i`, counted from zero, the salt, the
/// password and the eight little-endian bytes of `i`.
pub open spec fn key_material(salt: Seq<u8>, password: Seq<u8>, rounds: nat) -> Seq<u8>
    decreases rounds,
{
    if rounds == 0 {
        Seq::empty()
    } else {
        key_material(salt, password, (rounds - 1) as nat) + salt + password + le_bytes(
            (rounds - 1) as nat,
            8,
        )
    }
}

/// The 32-byte key that properties and password give.
pub open spec fn aes_key(properties: Seq<u8>, password: Seq<u8>) -> Seq<u8> {
    if aes_cycles_power(properties) == 0x3F {
        zero_padded(aes_salt(properties) + password, 32)
    } else {
        sha256_digest(
            key_material(
                aes_salt(properties),
                password,
                (1u64 << aes_cycles_power(properties) as u64) as nat,
            ),
        )
    }
}

/// Why [`get_aes_key`] refuses properties and password, if it does.
pub open spec fn aes_key_refusal(properties: Seq<u8>, password: Seq<u8>) -> Option<Error> {
    if properties.len() < 2 {
        Some(Error::Other("AES256 properties too short"))
    } else if 2 + aes_salt_size(properties) + aes_iv_size(properties) > properties.len() {
        Some(Error::Other("Salt size + IV size too long"))
    } else if password.len() == 0 {
        Some(Error::PasswordRequired)
    } else {
        None
    }
}

/// Derives the AES key and reads the IV from the properties of an AES coder and the
/// password.
pub fn get_aes_key(properties: &[u8], password: &[u8]) -> (derived: Result<
    ([u8; 32], [u8; 16]),
    Error,
>)
    ensures
        match derived {
            Ok((key, iv)) => {
                &&& aes_key_refusal(properties@, password@) is None
                &&& key@ == aes_key(properties@, password@)
                &&& iv@ == aes_iv(properties@)
            },
            Err(e) => aes_key_refusal(properties@, password@) == Some(e),
        },
{
    if properties.len() < 2 {
        return Err(Error::other("AES256 properties too short"));
    }
    let b0: u8 = properties[0];
    let num_cycles_power: u8 = b0 & 63;
    let b1: u8 = properties[1];
    assert(((b0 >> 6) & 1) <= 1 && (b1 & 15) <= 15 && ((b0 >> 7) & 1) <= 1 && (b1 >> 4) <= 15 && (b0
        & 63) <= 63) by (bit_vector);
    let iv_size: usize = (((b0 >> 6) & 1) + (b1 & 15)) as usize;
    let salt_size: usize = (((b0 >> 7) & 1) + (b1 >> 4)) as usize;
    if 2 + salt_size + iv_size > properties.len() {
        return Err(Error::other("Salt size + IV size too long"));
    }
    let mut salt: Vec<u8> = Vec::new();
    let mut i: usize = 0;
    while i < salt_size
        invariant
            i <= salt_size,
            2 + salt_size <= properties.len(),
            salt@ == properties@.subrange(2, 2 + i),
        decreases salt_size - i,
    {
        salt.push(properties[2 + i]);
        i += 1;
        assert(salt@ =~= properties@.subrange(2, 2 + i));
    }
    let mut iv: [u8; 16] = [0u8; 16];
    let mut j: usize = 0;
    while j < iv_size
        invariant
            j <= iv_size <= 16,
            2 + salt_size + iv_size <= properties.len(),
            forall|k: int| 0 <= k < j ==> iv@[k] == properties@[2 + salt_size + k],
            forall|k: int| j <= k < 16 ==> iv@[k] == 0u8,
        decreases iv_size - j,
    {
        iv[j] = properties[2 + salt_size + j];
        j += 1;
    }
    assert(iv@ =~= aes_iv(properties@));
    if password.len() == 0 {
        return Err(Error::PasswordRequired);
    }
    let key: [u8; 32] = if num_cycles_power == 0x3F {
        let mut key: [u8; 32] = [0u8; 32];
        let mut k: usize = 0;
        while k < 32
            invariant
                k <= 32,
                salt.len() == salt_size,
                salt_size <= 16,
                forall|m: int| 0 <= m < k ==> key@[m] == zero_padded(salt@ + password@, 32)[m],
                forall|m: int| k <= m < 32 ==> key@[m] == 0u8,
            decreases 32 - k,
        {
            if k < salt_size {
                key[k] = salt[k];
            } else if k - salt_size < password.len() {
                key[k] = password[k - salt_size];
            }
            k += 1;
        }
        assert(key@ =~= zero_padded(salt@ + password@, 32));
        key
    } else {
        assert(num_cycles_power < 63);
        let rounds: u64 = 1u64 << (num_cycles_power as u64);
        let mut hasher = sha256_new();
        let mut round: u64 = 0;
        while round < rounds
            invariant
                round <= rounds,
                sha256_input(hasher) == key_material(salt@, password@, round as nat),
            decreases rounds - round,
        {
            sha256_update(&mut hasher, salt.as_slice());
            sha256_update(&mut hasher, password);
            let counter = u64_to_le(round);
            sha256_update(&mut hasher, counter.as_slice());
            round += 1;
            assert(sha256_input(hasher) =~= key_material(salt@, password@, round as nat));
        }
        sha256_finalize(hasher)
    };
    Ok((key, iv))
}


/// The largest multiple of 16 that is not above `len`.
pub open spec fn whole_blocks(len: int) -> int {
    len - len % 16
}

/// AES-256-CBC decryption of a stream that arrives in pieces of any length.
///
/// The bytes of an incomplete block wait in the buffer until the rest of the block
/// arrives; the chaining value moves on with each block decrypted.
pub struct Cipher {
    key: [u8; 32],
    iv: [u8; 16],
    buf: Vec<u8>,
}

impl Cipher {
    /// At most 15 bytes wait for the rest of their block.
    pub closed spec fn wf(&self) -> bool {
        self.buf.len() < 16
    }

    /// The key.
    pub closed spec fn key(&self) -> Seq<u8> {
        self.key@
    }

    /// The chaining value: the IV at first, then the last ciphertext block decrypted.
    pub closed spec fn chain(&self) -> Seq<u8> {
        self.iv@
    }

    /// The bytes that wait for the rest of their block.
    pub closed spec fn buffered(&self) -> Seq<u8> {
        self.buf@
    }

    /// A cipher for the key and IV that properties and password give.
    pub fn from_properties(properties: &[u8], password: &[u8]) -> (made: Result<Cipher, Error>)
        ensures
            match made {
                Ok(cipher) => {
                    &&& aes_key_refusal(properties@, password@) is None
                    &&& cipher.wf()
                    &&& cipher.key() == aes_key(properties@, password@)
                    &&& cipher.chain() == aes_iv(properties@)
                    &&& cipher.buffered() == Seq::<u8>::empty()
                },
                Err(e) => aes_key_refusal(properties@, password@) == Some(e),
            },
    {
        match get_aes_key(properties, password) {
            Ok((key, iv)) => Ok(Cipher { key, iv, buf: Vec::new() }),
            Err(e) => Err(e),
        }
    }

    /// Takes the next piece of ciphertext and returns the plaintext of the blocks that
    /// are now complete.
    pub fn update(&mut self, data: &[u8]) -> (plain: Vec<u8>)
        requires
            old(self).wf(),
        ensures
            final(self).wf(),
            final(self).key() == old(self).key(),
            ({
                let input = old(self).buffered() + data@;
                let whole = whole_blocks(input.len() as int);
                &&& final(self).buffered() == input.skip(whole)
                &&& plain@.len() == whole
                &&& whole == 0 ==> plain@ == Seq::<u8>::empty() && final(self).chain() == old(self).chain()
                &&& whole > 0 ==> plain@ == aes256_cbc_decrypt(
                    old(self).key(),
                    old(self).chain(),
                    input.take(whole),
                ) && final(self).chain() == input.subrange(whole - 16, whole)
            }),
    {
        let ghost input = self.buf@ + data@;
        let held: usize = self.buf.len();
        if data.len() < 16 - held {
            crate::buf::append(&mut self.buf, data);
            proof {
                assert(self.buf@ =~= input.skip(0));
            }
            return Vec::new();
        }
        // The bytes of `data` that complete blocks together with what was held.
        let take: usize = (16 - held) + (data.len() - (16 - held)) / 16 * 16;
        let mut joined: Vec<u8> = Vec::new();
        crate::buf::append(&mut joined, self.buf.as_slice());
        crate::buf::append(&mut joined, vstd::slice::slice_subrange(data, 0, take));
        let whole: usize = joined.len();
        proof {
            assert(whole == whole_blocks(input.len() as int));
            assert(joined@ =~= input.take(whole as int));
        }
        let plain = cbc_decrypt(&self.key, &self.iv, joined.as_slice());
        let mut k: usize = 0;
        while k < 16
            invariant
                k <= 16,
                16 <= whole == joined.len(),
                forall|m: int| 0 <= m < k ==> self.iv@[m] == joined@[whole - 16 + m],
                self.key == old(self).key,
            decreases 16 - k,
        {
            self.iv[k] = joined[whole - 16 + k];
            k += 1;
        }
        self.buf = crate::buf::copy_range(data, take, data.len());
        proof {
            assert(self.iv@ =~= input.subrange(whole - 16, whole as int));
            assert(self.buf@ =~= input.skip(whole as int));
        }
        plain
    }

    /// Ends the stream: refused when bytes of an incomplete block are left over.
    pub fn do_final(&mut self) -> (ended: Result<(), Error>)
        requires
            old(self).wf(),
        ensures
            *final(self) == *old(self),
            old(self).buffered().len() == 0 ==> ended is Ok,
            old(self).buffered().len() > 0 ==> ended == Err::<(), Error>(
                Error::Io(IoKind::InvalidData, "IllegalBlockSize"),
            ),
    {
        if self.buf.len() == 0 {
            Ok(())
        } else {
            Err(Error::Io(IoKind::InvalidData, "IllegalBlockSize"))
        }
    }
}

/// What [`Aes256Sha256Decoder::poll_read`] asks of the one who drives the decoder.
pub enum ReadStep {
    /// These plaintext bytes go to the reader.
    Deliver(Vec<u8>),
    /// Ciphertext has to be read from the source and handed to
    /// [`Aes256Sha256Decoder::feed`].
    NeedInput,
    /// The stream has ended.
    End,
}

/// The most ciphertext bytes that the decoder asks for at a time.
pub const INPUT_CHUNK: usize = 512;

/// Decrypts the pack stream of an AES coder, piece by piece.
pub struct Aes256Sha256Decoder {
    cipher: Cipher,
    done: bool,
    obuffer: Vec<u8>,
    ostart: usize,
}

impl Aes256Sha256Decoder {
    /// The cursor lies inside the output buffer, and the cipher is well formed.
    pub closed spec fn wf(&self) -> bool {
        &&& self.cipher.wf()
        &&& self.ostart <= self.obuffer.len()
    }

    /// The cipher state.
    pub closed spec fn cipher(&self) -> Cipher {
        self.cipher
    }

    /// The plaintext that is decrypted and not yet delivered.
    pub closed spec fn pending(&self) -> Seq<u8> {
        self.obuffer@.skip(self.ostart as int)
    }

    /// Whether the end of the ciphertext has been seen.
    pub closed spec fn done(&self) -> bool {
        self.done
    }

    /// A decoder for the properties of an AES coder and the password.
    pub fn new(properties: &[u8], password: &crate::password::Password) -> (made: Result<
        Aes256Sha256Decoder,
        Error,
    >)
        ensures
            match made {
                Ok(decoder) => {
                    &&& aes_key_refusal(properties@, password@) is None
                    &&& decoder.wf()
                    &&& decoder.cipher().key() == aes_key(properties@, password@)
                    &&& decoder.cipher().chain() == aes_iv(properties@)
                    &&& decoder.cipher().buffered() == Seq::<u8>::empty()
                    &&& decoder.pending() == Seq::<u8>::empty()
                    &&& !decoder.done()
                },
                Err(e) => aes_key_refusal(properties@, password@) == Some(e),
            },
    {
        match Cipher::from_properties(properties, password.as_slice()) {
            Ok(cipher) => {
                let decoder = Aes256Sha256Decoder {
                    cipher,
                    done: false,
                    obuffer: Vec::new(),
                    ostart: 0,
                };
                assert(decoder.pending() =~= Seq::<u8>::empty());
                Ok(decoder)
            },
            Err(e) => Err(e),
        }
    }

    /// One step of a read of at most `max` bytes: plaintext that waits is delivered
    /// first; without any, the decoder asks for ciphertext unless the end was seen.
    pub fn poll_read(&mut self, max: usize) -> (step: ReadStep)
        requires
            old(self).wf(),
        ensures
            final(self).wf(),
            final(self).cipher() == old(self).cipher(),
            final(self).done() == old(self).done(),
            old(self).pending().len() > 0 ==> {
                &&& step matches ReadStep::Deliver(bytes)
                &&& bytes@ == old(self).pending().take(
                    if max <= old(self).pending().len() {
                        max as int
                    } else {
                        old(self).pending().len() as int
                    },
                )
                &&& final(self).pending() == old(self).pending().skip(bytes@.len() as int)
            },
            old(self).pending().len() == 0 ==> {
                &&& final(self).pending() == old(self).pending()
                &&& old(self).done() ==> step is End
                &&& !old(self).done() ==> step is NeedInput
            },
    {
        let available: usize = self.obuffer.len() - self.ostart;
        if available > 0 {
            let n: usize = if max <= available {
                max
            } else {
                available
            };
            let bytes = crate::buf::copy_range(self.obuffer.as_slice(), self.ostart, self.ostart + n);
            self.ostart = self.ostart + n;
            proof {
                assert(bytes@ =~= old(self).pending().take(n as int));
                assert(self.pending() =~= old(self).pending().skip(n as int));
            }
            return ReadStep::Deliver(bytes);
        }
        if self.done {
            ReadStep::End
        } else {
            ReadStep::NeedInput
        }
    }

    /// Takes what a read of the source gave: no bytes mean that the source has ended,
    /// which is refused when an incomplete block is left; other bytes are decrypted
    /// as far as they complete blocks. After the end nothing more is taken.
    pub fn feed(&mut self, input: &[u8]) -> (fed: Result<(), Error>)
        requires
            old(self).wf(),
        ensures
            final(self).wf(),
            old(self).done() ==> fed is Ok && *final(self) == *old(self),
            !old(self).done() && input@.len() == 0 ==> {
                &&& final(self).done()
                &&& final(self).cipher() == old(self).cipher()
                &&& final(self).pending() == old(self).pending()
                &&& old(self).cipher().buffered().len() == 0 ==> fed is Ok
                &&& old(self).cipher().buffered().len() > 0 ==> fed == Err::<(), Error>(
                    Error::Io(IoKind::InvalidData, "IllegalBlockSize"),
                )
            },
            !old(self).done() && input@.len() > 0 ==> {
                let joined = old(self).cipher().buffered() + input@;
                let whole = whole_blocks(joined.len() as int);
                &&& fed is Ok
                &&& !final(self).done()
                &&& final(self).cipher().key() == old(self).cipher().key()
                &&& final(self).cipher().buffered() == joined.skip(whole)
                &&& final(self).pending().len() == old(self).pending().len() + whole
                &&& whole == 0 ==> final(self).pending() == old(self).pending() && final(self).cipher().chain() == old(self).cipher().chain()
                &&& whole > 0 ==> final(self).pending() == old(self).pending()
                    + aes256_cbc_decrypt(
                    old(self).cipher().key(),
                    old(self).cipher().chain(),
                    joined.take(whole),
                ) && final(self).cipher().chain() == joined.subrange(whole - 16, whole)
            },
    {
        if self.done {
            return Ok(());
        }
        if input.len() == 0 {
            self.done = true;
            return self.cipher.do_final();
        }
        let plain = self.cipher.update(input);
        let mut rest = crate::buf::copy_range(self.obuffer.as_slice(), self.ostart, self.obuffer.len());
        crate::buf::append(&mut rest, plain.as_slice());
        self.obuffer = rest;
        self.ostart = 0;
        proof {
            assert(self.pending() =~= old(self).pending() + plain@);
            assert(old(self).pending() + Seq::<u8>::empty() =~= old(self).pending());
        }
        Ok(())
    }

    /// What the decoder still delivers when `input` is all the ciphertext that is
    /// left: the plaintext that waits, then the plaintext of what is buffered
    /// followed by `input`, which must end with a whole block. After the end of the
    /// ciphertext was seen, `input` counts for nothing.
    pub open spec fn rest_of(self, input: Seq<u8>) -> Result<Seq<u8>, Error> {
        let joined = self.cipher().buffered() + input;
        if self.done() {
            Ok(self.pending())
        } else if joined.len() % 16 != 0 {
            Err(Error::Io(IoKind::InvalidData, "IllegalBlockSize"))
        } else if joined.len() == 0 {
            Ok(self.pending())
        } else {
            Ok(
                self.pending() + aes256_cbc_decrypt(
                    self.cipher().key(),
                    self.cipher().chain(),
                    joined,
                ),
            )
        }
    }

    /// Decrypts all the ciphertext that is left, `input`, and gives all the plaintext
    /// that the decoder has not delivered yet.
    pub fn decrypt_all(self, input: &[u8]) -> (plain: Result<Vec<u8>, Error>)
        requires
            self.wf(),
        ensures
            match self.rest_of(input@) {
                Ok(bytes) => plain matches Ok(got) && got@ == bytes,
                Err(e) => plain == Err::<Vec<u8>, Error>(e),
            },
    {
        let mut decoder = self;
        let ghost joined = self.cipher().buffered() + input@;
        if input.len() > 0 {
            match decoder.feed(input) {
                Ok(()) => {},
                Err(e) => {
                    return Err(e);
                },
            }
        }
        proof {
            assert(joined.take(joined.len() as int) =~= joined);
            assert(joined.skip(0) =~= joined);
        }
        match decoder.feed(&[]) {
            Ok(()) => {},
            Err(e) => {
                return Err(e);
            },
        }
        match decoder.poll_read(usize::MAX) {
            ReadStep::Deliver(bytes) => {
                assert(bytes@ =~= decoder.pending() + bytes@.take(0) + bytes@);
                Ok(bytes)
            },
            _ => Ok(Vec::new()),
        }
    }
}

/// The length of the ciphertext of what is left over at the end of a stream: one
/// block where bytes are left over, which are filled to a block, and nothing else.
pub open spec fn tail_len(left: nat) -> nat {
    if left > 0 {
        16
    } else {
        0
    }
}

/// The ciphertext of `input` as the end of a stream: its whole blocks encrypted from
/// the chaining value `chain` on, then what is left of it, filled with zero bytes to
/// one block and encrypted from the last block of ciphertext on.
pub open spec fn sealed(key: Seq<u8>, chain: Seq<u8>, input: Seq<u8>) -> Seq<u8> {
    let whole = whole_blocks(input.len() as int);
    let first = if whole > 0 {
        aes256_cbc_encrypt(key, chain, input.take(whole))
    } else {
        Seq::<u8>::empty()
    };
    let next = if whole > 0 {
        first.subrange(whole - 16, whole)
    } else {
        chain
    };
    let rest = input.skip(whole);
    if rest.len() > 0 {
        first + aes256_cbc_encrypt(key, next, zero_padded(rest, 16))
    } else {
        first
    }
}

/// Encrypts the output of the coders before it for an AES coder, piece by piece.
///
/// Bytes short of a block wait in the buffer; at the end the last block is filled
/// with zero bytes. Ciphertext waits in the encoder until the sink has taken it.
pub struct Aes256Sha256Encoder {
    key: [u8; 32],
    iv: [u8; 16],
    buffer: Vec<u8>,
    out_buf: Vec<u8>,
    out_pos: usize,
    finished: bool,
}

impl Aes256Sha256Encoder {
    /// At most 15 bytes wait for the rest of their block, and the cursor lies inside
    /// the ciphertext that waits.
    pub closed spec fn wf(&self) -> bool {
        &&& self.buffer.len() < 16
        &&& self.out_pos <= self.out_buf.len()
    }

    /// The key.
    pub closed spec fn key(&self) -> Seq<u8> {
        self.key@
    }

    /// The chaining value: the IV at first, then the last ciphertext block made.
    pub closed spec fn chain(&self) -> Seq<u8> {
        self.iv@
    }

    /// The plaintext bytes that wait for the rest of their block.
    pub closed spec fn buffered(&self) -> Seq<u8> {
        self.buffer@
    }

    /// The ciphertext that the sink has not taken yet.
    pub closed spec fn pending(&self) -> Seq<u8> {
        self.out_buf@.skip(self.out_pos as int)
    }

    /// Whether the end of the plaintext has been declared.
    pub closed spec fn finished(&self) -> bool {
        self.finished
    }

    /// An encoder for the key and IV that `options` give.
    pub fn new(options: &crate::options::AesEncoderOptions) -> (made: Result<
        Aes256Sha256Encoder,
        Error,
    >)
        ensures
            options.password@.len() == 0 ==> made == Err::<Aes256Sha256Encoder, Error>(
                Error::PasswordRequired,
            ),
            options.password@.len() > 0 ==> {
                &&& made matches Ok(encoder)
                &&& encoder.wf()
                &&& encoder.key() == aes_key(
                    crate::options::aes_properties(*options),
                    options.password@,
                )
                &&& encoder.chain() == options.iv@
                &&& encoder.buffered() == Seq::<u8>::empty()
                &&& encoder.pending() == Seq::<u8>::empty()
                &&& !encoder.finished()
            },
    {
        let properties = options.properties();
        proof {
            crate::options::lemma_aes_properties_round_trip(*options);
        }
        match get_aes_key(properties.as_slice(), options.password.as_slice()) {
            Ok((key, iv)) => {
                let encoder = Aes256Sha256Encoder {
                    key,
                    iv,
                    buffer: Vec::new(),
                    out_buf: Vec::new(),
                    out_pos: 0,
                    finished: false,
                };
                assert(encoder.pending() =~= Seq::<u8>::empty());
                Ok(encoder)
            },
            Err(e) => Err(e),
        }
    }

    /// The ciphertext that waits for the sink.
    pub fn pending_output(&self) -> (bytes: &[u8])
        requires
            self.wf(),
        ensures
            bytes@ == self.pending(),
    {
        vstd::slice::slice_subrange(self.out_buf.as_slice(), self.out_pos, self.out_buf.len())
    }

    /// Records that the sink took the first `written` bytes of what waits.
    pub fn advance(&mut self, written: usize)
        requires
            old(self).wf(),
        ensures
            final(self).wf(),
            final(self).key() == old(self).key(),
            final(self).chain() == old(self).chain(),
            final(self).buffered() == old(self).buffered(),
            final(self).finished() == old(self).finished(),
            final(self).pending() == old(self).pending().skip(
                if written <= old(self).pending().len() {
                    written as int
                } else {
                    old(self).pending().len() as int
                },
            ),
    {
        let left: usize = self.out_buf.len() - self.out_pos;
        if written >= left {
            self.out_buf = Vec::new();
            self.out_pos = 0;
            assert(self.pending() =~= old(self).pending().skip(left as int));
        } else {
            self.out_pos = self.out_pos + written;
            assert(self.pending() =~= old(self).pending().skip(written as int));
        }
    }

    /// Encrypts the whole blocks of what is buffered followed by `data`, keeps the
    /// rest in the buffer and queues the ciphertext for the sink.
    fn absorb(&mut self, data: &[u8])
        requires
            old(self).wf(),
            old(self).pending().len() == 0,
        ensures
            final(self).wf(),
            final(self).key() == old(self).key(),
            final(self).finished() == old(self).finished(),
            ({
                let input = old(self).buffered() + data@;
                let whole = whole_blocks(input.len() as int);
                &&& final(self).buffered() == input.skip(whole)
                &&& final(self).pending().len() == whole
                &&& whole == 0 ==> final(self).pending() == Seq::<u8>::empty() && final(self).chain()
                    == old(self).chain()
                &&& whole > 0 ==> final(self).pending() == aes256_cbc_encrypt(
                    old(self).key(),
                    old(self).chain(),
                    input.take(whole),
                ) && final(self).chain() == final(self).pending().subrange(whole - 16, whole)
            }),
    {
        let ghost input = self.buffer@ + data@;
        let held: usize = self.buffer.len();
        if data.len() < 16 - held {
            crate::buf::append(&mut self.buffer, data);
            self.out_buf = Vec::new();
            self.out_pos = 0;
            proof {
                assert(self.buffer@ =~= input.skip(0));
                assert(self.pending() =~= Seq::<u8>::empty());
            }
            return ;
        }
        let take: usize = (16 - held) + (data.len() - (16 - held)) / 16 * 16;
        let mut joined: Vec<u8> = Vec::new();
        crate::buf::append(&mut joined, self.buffer.as_slice());
        crate::buf::append(&mut joined, vstd::slice::slice_subrange(data, 0, take));
        let whole: usize = joined.len();
        proof {
            assert(whole == whole_blocks(input.len() as int));
            assert(joined@ =~= input.take(whole as int));
        }
        let sealed = cbc_encrypt(&self.key, &self.iv, joined.as_slice());
        let mut k: usize = 0;
        while k < 16
            invariant
                k <= 16,
                16 <= whole == sealed.len(),
                forall|m: int| 0 <= m < k ==> self.iv@[m] == sealed@[whole - 16 + m],
                self.key == old(self).key,
                self.finished == old(self).finished,
            decreases 16 - k,
        {
            self.iv[k] = sealed[whole - 16 + k];
            k += 1;
        }
        self.buffer = crate::buf::copy_range(data, take, data.len());
        self.out_buf = sealed;
        self.out_pos = 0;
        proof {
            assert(self.pending() =~= sealed@);
            assert(self.iv@ =~= sealed@.subrange(whole - 16, whole as int));
            assert(self.buffer@ =~= input.skip(whole as int));
        }
    }

    /// Fills what is buffered with zero bytes to one block, encrypts it and queues the
    /// ciphertext; with nothing buffered, nothing happens.
    fn seal_tail(&mut self)
        requires
            old(self).wf(),
            old(self).pending().len() == 0,
        ensures
            final(self).wf(),
            final(self).key() == old(self).key(),
            final(self).finished() == old(self).finished(),
            final(self).buffered() == Seq::<u8>::empty(),
            final(self).pending().len() == tail_len(old(self).buffered().len()),
            old(self).buffered().len() == 0 ==> final(self).pending() == Seq::<u8>::empty()
                && final(self).chain() == old(self).chain(),
            old(self).buffered().len() > 0 ==> final(self).pending() == aes256_cbc_encrypt(
                old(self).key(),
                old(self).chain(),
                zero_padded(old(self).buffered(), 16),
            ) && final(self).chain() == final(self).pending(),
    {
        if self.buffer.len() == 0 {
            self.out_buf = Vec::new();
            self.out_pos = 0;
            assert(self.pending() =~= Seq::<u8>::empty());
            assert(self.buffer@ =~= Seq::<u8>::empty());
            return ;
        }
        let mut block: Vec<u8> = Vec::new();
        crate::buf::append(&mut block, self.buffer.as_slice());
        while block.len() < 16
            invariant
                block.len() <= 16,
                self.buffer.len() <= block.len(),
                forall|m: int| 0 <= m < self.buffer.len() ==> block@[m] == self.buffer@[m],
                forall|m: int| self.buffer.len() <= m < block.len() ==> block@[m] == 0u8,
            decreases 16 - block.len(),
        {
            block.push(0u8);
        }
        assert(block@ =~= zero_padded(self.buffer@, 16));
        let sealed = cbc_encrypt(&self.key, &self.iv, block.as_slice());
        let mut k: usize = 0;
        while k < 16
            invariant
                k <= 16,
                sealed.len() == 16,
                forall|m: int| 0 <= m < k ==> self.iv@[m] == sealed@[m],
                self.key == old(self).key,
                self.finished == old(self).finished,
            decreases 16 - k,
        {
            self.iv[k] = sealed[k];
            k += 1;
        }
        self.buffer = Vec::new();
        self.out_buf = sealed;
        self.out_pos = 0;
        proof {
            assert(self.pending() =~= sealed@);
            assert(self.iv@ =~= sealed@);
        }
    }

    /// One step of a write of `buf`.
    ///
    /// While ciphertext waits for the sink nothing is taken. A write of no bytes
    /// declares the end: the last block is filled and encrypted. After the end no
    /// bytes are taken. Otherwise all of `buf` is taken: the blocks it completes are
    /// encrypted and queued for the sink, the rest waits in the buffer.
    pub fn poll_write(&mut self, buf: &[u8]) -> (step: WriteStep)
        requires
            old(self).wf(),
        ensures
            final(self).wf(),
            final(self).key() == old(self).key(),
            old(self).pending().len() > 0 ==> step == WriteStep::Drain && *final(self) == *old(self),
            old(self).pending().len() == 0 && old(self).finished() && buf@.len() > 0 ==> step
                == WriteStep::Accepted(0) && *final(self) == *old(self),
            old(self).pending().len() == 0 && buf@.len() == 0 ==> {
                &&& step == WriteStep::Accepted(0)
                &&& final(self).finished()
                &&& final(self).buffered() == Seq::<u8>::empty()
                &&& final(self).pending().len() == tail_len(old(self).buffered().len())
                &&& old(self).buffered().len() == 0 ==> final(self).pending() == Seq::<u8>::empty()
                    && final(self).chain() == old(self).chain()
                &&& old(self).buffered().len() > 0 ==> final(self).pending() == aes256_cbc_encrypt(
                    old(self).key(),
                    old(self).chain(),
                    zero_padded(old(self).buffered(), 16),
                ) && final(self).chain() == final(self).pending()
            },
            old(self).pending().len() == 0 && !old(self).finished() && buf@.len() > 0 ==> {
                let input = old(self).buffered() + buf@;
                let whole = whole_blocks(input.len() as int);
                &&& step == WriteStep::Accepted(buf.len())
                &&& !final(self).finished()
                &&& final(self).buffered() == input.skip(whole)
                &&& final(self).pending().len() == whole
                &&& whole == 0 ==> final(self).pending() == Seq::<u8>::empty() && final(self).chain()
                    == old(self).chain()
                &&& whole > 0 ==> final(self).pending() == aes256_cbc_encrypt(
                    old(self).key(),
                    old(self).chain(),
                    input.take(whole),
                ) && final(self).chain() == final(self).pending().subrange(whole - 16, whole)
            },
    {
        if self.out_pos < self.out_buf.len() {
            return WriteStep::Drain;
        }
        if self.finished && buf.len() > 0 {
            return WriteStep::Accepted(0);
        }
        if buf.len() == 0 {
            self.finished = true;
            self.seal_tail();
            return WriteStep::Accepted(0);
        }
        self.absorb(buf);
        WriteStep::Accepted(buf.len())
    }

    /// One step of a flush: once the end has been declared, the last block is filled
    /// and encrypted; while ciphertext waits, it has to go to the sink first.
    pub fn poll_flush(&mut self) -> (step: SinkStep)
        requires
            old(self).wf(),
        ensures
            final(self).wf(),
            final(self).key() == old(self).key(),
            final(self).finished() == old(self).finished(),
            step == SinkStep::Forward <==> final(self).pending().len() == 0,
            old(self).pending().len() > 0 || !old(self).finished() ==> *final(self) == *old(self),
            old(self).pending().len() == 0 && old(self).finished() ==> {
                &&& final(self).buffered() == Seq::<u8>::empty()
                &&& final(self).pending().len() == tail_len(old(self).buffered().len())
                &&& old(self).buffered().len() == 0 ==> final(self).pending() == Seq::<u8>::empty()
                    && final(self).chain() == old(self).chain()
                &&& old(self).buffered().len() > 0 ==> final(self).pending() == aes256_cbc_encrypt(
                    old(self).key(),
                    old(self).chain(),
                    zero_padded(old(self).buffered(), 16),
                ) && final(self).chain() == final(self).pending()
            },
    {
        if self.out_pos < self.out_buf.len() {
            return SinkStep::Drain;
        }
        if self.finished {
            self.seal_tail();
        }
        if self.out_pos < self.out_buf.len() {
            SinkStep::Drain
        } else {
            SinkStep::Forward
        }
    }

    /// One step of a close: declares the end, then goes on as a flush does.
    pub fn poll_close(&mut self) -> (step: SinkStep)
        requires
            old(self).wf(),
        ensures
            final(self).wf(),
            final(self).key() == old(self).key(),
            final(self).finished(),
            step == SinkStep::Forward <==> final(self).pending().len() == 0,
            old(self).pending().len() > 0 ==> final(self).pending() == old(self).pending()
                && final(self).buffered() == old(self).buffered() && final(self).chain() == old(self).chain(),
            old(self).pending().len() == 0 ==> {
                &&& final(self).buffered() == Seq::<u8>::empty()
                &&& final(self).pending().len() == tail_len(old(self).buffered().len())
                &&& old(self).buffered().len() == 0 ==> final(self).pending() == Seq::<u8>::empty()
                    && final(self).chain() == old(self).chain()
                &&& old(self).buffered().len() > 0 ==> final(self).pending() == aes256_cbc_encrypt(
                    old(self).key(),
                    old(self).chain(),
                    zero_padded(old(self).buffered(), 16),
                ) && final(self).chain() == final(self).pending()
            },
    {
        self.finished = true;
        self.poll_flush()
    }

    /// What the encoder still hands to the sink when `data` is all the plaintext that
    /// is left: the ciphertext that waits, then the ciphertext of what is buffered
    /// followed by `data`. After the end of the plaintext was declared, `data`
    /// counts for nothing.
    pub open spec fn rest_of(self, data: Seq<u8>) -> Seq<u8> {
        self.pending() + sealed(
            self.key(),
            self.chain(),
            if self.finished() {
                self.buffered()
            } else {
                self.buffered() + data
            },
        )
    }

    /// Encrypts all the plaintext that is left, `data`, declares the end and gives all
    /// the ciphertext that the sink has not taken yet.
    pub fn encrypt_all(self, data: &[u8]) -> (out: Vec<u8>)
        requires
            self.wf(),
        ensures
            out@ == self.rest_of(data@),
    {
        let mut encoder = self;
        let mut out: Vec<u8> = Vec::new();
        crate::buf::append(&mut out, encoder.pending_output());
        encoder.advance(out.len());
        let ghost input = if self.finished() {
            self.buffered()
        } else {
            self.buffered() + data@
        };
        let ghost whole = whole_blocks(input.len() as int);
        if data.len() > 0 {
            let _ = encoder.poll_write(data);
            let first: usize = out.len();
            crate::buf::append(&mut out, encoder.pending_output());
            encoder.advance(out.len() - first);
        }
        proof {
            if data@.len() == 0 {
                assert(self.buffered() + data@ =~= self.buffered());
            }
            if whole == 0 {
                assert(input.skip(0) =~= input);
            }
            assert(encoder.buffered() == input.skip(whole));
        }
        let _ = encoder.poll_write(&[]);
        crate::buf::append(&mut out, encoder.pending_output());
        proof {
            assert(out@ =~= self.rest_of(data@));
        }
        out
    }
}

} // verus!
