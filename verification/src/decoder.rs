//! The decoder of each method: the properties that set it up, the limits on its
//! memory, and what it makes of the input of its coder.

use vstd::prelude::*;

use crate::aes::{aes256_cbc_decrypt, aes_iv, aes_key, aes_key_refusal, Aes256Sha256Decoder};
use crate::archive::CoderView;
use crate::buf::clipped;
use crate::codec::{
    bcj_arm64_decode, bcj_arm64_decoded, bcj_arm64_decoding, bcj_arm_decode, bcj_arm_decoded,
    bcj_arm_decoding, bcj_arm_thumb_decode, bcj_arm_thumb_decoded, bcj_arm_thumb_decoding,
    bcj_ia64_decode, bcj_ia64_decoded, bcj_ia64_decoding, bcj_ppc_decode, bcj_ppc_decoded,
    bcj_ppc_decoding, bcj_riscv_decode, bcj_riscv_decoded, bcj_riscv_decoding, bcj_sparc_decode,
    bcj_sparc_decoded, bcj_sparc_decoding, bcj_x86_decode, bcj_x86_decoded, bcj_x86_decoding,
    bzip2_decode, bzip2_decoded, bzip2_decoding, deflate_decode, deflate_decoded, deflate_decoding,
    delta_decode, delta_decoded, delta_decoding, lzma2_decode, lzma2_decoded, lzma2_decoding,
    lzma2_mt_decode, lzma_decode, lzma_decoded, lzma_decoding, ppmd_decode, ppmd_decoded,
    ppmd_decoding, zstd_decode, zstd_decoded, zstd_decoding,
};
use crate::coder::Coder;
use crate::error::{Error, IoKind};
use crate::frame::Codec;
use crate::frames::{
    codec_result, decode_frames, is_codec_failure, streams_decode, streams_decoded, streams_of,
};
use crate::le::{le_bytes, le_value, u32_from_le, u32_to_le, u64_to_le};
use crate::method::{BcjArch, EncoderMethod};
use crate::password::Password;

verus! {

/// `ppmd_rust::PPMD7_MIN_ORDER`: the smallest model order a PPMd7 coder takes, which is 2.
#[verifier::external_body]
pub(crate) fn ppmd7_min_order() -> (order: u32)
    ensures
        order == 2,
{
    ppmd_rust::PPMD7_MIN_ORDER
}

/// The dictionary size that the property byte `bits` of an LZMA2 coder stands for,
/// for `bits` below 40.
pub open spec fn lzma2_dict_size(bits: u8) -> u32 {
    (2u32 | (bits as u32 & 1u32)) << ((bits / 2 + 11) as u32)
}

/// What [`get_lzma2_dic_size`] returns for the property bytes `properties`.
pub open spec fn lzma2_dic_size_of(properties: Seq<u8>) -> Result<u32, Error> {
    if properties.len() == 0 {
        Err(Error::Other("LZMA2 properties too short"))
    } else if properties[0] >= 64 {
        Err(Error::Other("Unsupported LZMA2 property bits"))
    } else if properties[0] > 40 {
        Err(Error::Other("Dictionary larger than 4GiB maximum size"))
    } else if properties[0] == 40 {
        Ok(0xFFFF_FFFFu32)
    } else {
        Ok(lzma2_dict_size(properties[0]))
    }
}

/// The dictionary size that the properties of an LZMA2 coder declare.
pub fn get_lzma2_dic_size(coder: &Coder) -> (size: Result<u32, Error>)
    ensures
        size == lzma2_dic_size_of(coder.properties@),
{
    if coder.properties.len() == 0 {
        return Err(Error::other("LZMA2 properties too short"));
    }
    let bits: u8 = coder.properties[0];
    let dict_size_bits: u32 = bits as u32;
    assert((dict_size_bits & !0x3Fu32) != 0 <==> bits >= 64) by (bit_vector)
        requires
            dict_size_bits == bits as u32,
    ;
    if (dict_size_bits & !0x3Fu32) != 0 {
        return Err(Error::other("Unsupported LZMA2 property bits"));
    }
    if dict_size_bits > 40 {
        return Err(Error::other("Dictionary larger than 4GiB maximum size"));
    }
    if dict_size_bits == 40 {
        return Ok(0xFFFF_FFFF);
    }
    Ok(lzma2_dict_size_of_bits(bits))
}

/// The dictionary size that the property byte `bits` of an LZMA2 coder stands for.
pub fn lzma2_dict_size_of_bits(bits: u8) -> (size: u32)
    requires
        bits < 40,
    ensures
        size == lzma2_dict_size(bits),
{
    let dict_size_bits: u32 = bits as u32;
    assert(dict_size_bits / 2 + 11 == ((bits / 2 + 11) as u32) && dict_size_bits / 2 + 11 < 32);
    (2 | (dict_size_bits & 0x1)) << (dict_size_bits / 2 + 11)
}

/// Each property byte of an LZMA2 coder stands for a larger dictionary than the one
/// before it, and the first for 4096 bytes.
pub proof fn lemma_lzma2_dict_size_grows(bits: u8)
    requires
        bits < 39,
    ensures
        lzma2_dict_size(bits) < lzma2_dict_size((bits + 1) as u8),
        lzma2_dict_size(0) == 4096,
{
    assert(bits < 39 ==> ((2u32 | (bits as u32 & 1u32)) << ((bits / 2 + 11) as u32)) < ((2u32 | ((
        bits + 1) as u8 as u32 & 1u32)) << ((((bits + 1) as u8) / 2 + 11) as u32)))
        by (bit_vector);
    assert(((2u32 | (0u8 as u32 & 1u32)) << ((0u8 / 2 + 11) as u32)) == 4096) by (bit_vector);
}

/// No property byte of an LZMA2 coder stands for a dictionary of less than 4096
/// bytes.
pub proof fn lemma_lzma2_dict_size_min(bits: u8)
    requires
        bits < 40,
    ensures
        lzma2_dict_size(bits) >= 4096,
    decreases bits,
{
    lemma_lzma2_dict_size_grows(0);
    if bits > 0 {
        lemma_lzma2_dict_size_min((bits - 1) as u8);
        lemma_lzma2_dict_size_grows((bits - 1) as u8);
    }
}

/// What [`get_lzma_dic_size`] returns for the property bytes `properties`.
pub open spec fn lzma_dic_size_of(properties: Seq<u8>) -> Result<u32, Error> {
    if properties.len() < 5 {
        Err(Error::Io(IoKind::InvalidData, "LZMA properties too short"))
    } else {
        Ok(le_value(properties.subrange(1, 5)) as u32)
    }
}

/// The dictionary size that the properties of an LZMA coder declare: the four bytes
/// after the first, low byte first.
pub fn get_lzma_dic_size(coder: &Coder) -> (size: Result<u32, Error>)
    ensures
        size == lzma_dic_size_of(coder.properties@),
{
    if coder.properties.len() < 5 {
        return Err(Error::Io(IoKind::InvalidData, "LZMA properties too short"));
    }
    Ok(u32_from_le(coder.properties.as_slice(), 1))
}

/// `ppmd_rust::PPMD7_MAX_ORDER`: the largest model order a PPMd7 coder takes, which
/// is 64.
#[verifier::external_body]
pub(crate) fn ppmd7_max_order() -> (order: u32)
    ensures
        order == 64,
{
    ppmd_rust::PPMD7_MAX_ORDER
}

/// `ppmd_rust::PPMD7_MIN_MEM_SIZE`: the least memory a PPMd7 coder takes, which is
/// 2048 bytes.
#[verifier::external_body]
pub(crate) fn ppmd7_min_mem_size() -> (size: u32)
    ensures
        size == 2048,
{
    ppmd_rust::PPMD7_MIN_MEM_SIZE
}

/// `ppmd_rust::PPMD7_MAX_MEM_SIZE`: the most memory a PPMd7 coder takes, which is 36
/// bytes short of what a `u32` can hold.
#[verifier::external_body]
pub(crate) fn ppmd7_max_mem_size() -> (size: u32)
    ensures
        size == 0xFFFF_FFFF - 36,
{
    ppmd_rust::PPMD7_MAX_MEM_SIZE
}

/// The memory in KiB that decoding LZMA2 with the dictionary size `dict_size` takes:
/// 104 KiB besides the dictionary, whose size counts rounded up to a multiple of 16
/// and stops at what a `u32` can hold.
pub open spec fn lzma2_memory_kb(dict_size: u32) -> int {
    104 + (if dict_size >= 0xFFFF_FFFF - 15 {
        0xFFFF_FFFF
    } else {
        (dict_size + 15) / 16 * 16
    }) / 1024
}

/// `lzma_rust2::lzma2_get_memory_usage`: the estimate of [`lzma2_memory_kb`].
#[verifier::external_body]
fn lzma2_memory_usage(dict_size: u32) -> (kb: u32)
    ensures
        kb == lzma2_memory_kb(dict_size),
{
    lzma_rust2::lzma2_get_memory_usage(dict_size)
}

/// What [`get_ppmd_order_memory_size`] returns for the property bytes `properties`
/// under the limit `max_mem_limit_kb`: the model order and the memory size in bytes.
/// The memory is held against the limit in whole KiB, and a refusal states it so.
pub open spec fn ppmd_order_memory_size_of(properties: Seq<u8>, max_mem_limit_kb: usize) -> Result<
    (u32, u32),
    Error,
> {
    let order = properties[0] as u32;
    let memory_size = le_value(properties.subrange(1, 5)) as u32;
    if properties.len() < 5 {
        Err(Error::Other("PPMD properties too short"))
    } else if order < 2 {
        Err(Error::Other("PPMD order smaller than PPMD7_MIN_ORDER"))
    } else if order > 64 {
        Err(Error::Other("PPMD order larger than PPMD7_MAX_ORDER"))
    } else if memory_size < 2048 {
        Err(Error::Other("PPMD memory size smaller than PPMD7_MIN_MEM_SIZE"))
    } else if memory_size > 0xFFFF_FFFF - 36 {
        Err(Error::Other("PPMD memory size larger than PPMD7_MAX_MEM_SIZE"))
    } else if (memory_size / 1024) as usize > max_mem_limit_kb {
        Err(
            Error::MaxMemLimited {
                max_kb: max_mem_limit_kb,
                actaul_kb: (memory_size / 1024) as usize,
            },
        )
    } else {
        Ok((order, memory_size))
    }
}

/// The model order and the memory size that the properties of a PPMd coder declare,
/// held against what the PPMd coder takes and against the memory limit.
pub fn get_ppmd_order_memory_size(coder: &Coder, max_mem_limit_kb: usize) -> (found: Result<
    (u32, u32),
    Error,
>)
    ensures
        found == ppmd_order_memory_size_of(coder.properties@, max_mem_limit_kb),
{
    if coder.properties.len() < 5 {
        return Err(Error::other("PPMD properties too short"));
    }
    let order: u32 = coder.properties[0] as u32;
    let memory_size: u32 = u32_from_le(coder.properties.as_slice(), 1);
    if order < ppmd7_min_order() {
        return Err(Error::other("PPMD order smaller than PPMD7_MIN_ORDER"));
    }
    if order > ppmd7_max_order() {
        return Err(Error::other("PPMD order larger than PPMD7_MAX_ORDER"));
    }
    if memory_size < ppmd7_min_mem_size() {
        return Err(Error::other("PPMD memory size smaller than PPMD7_MIN_MEM_SIZE"));
    }
    if memory_size > ppmd7_max_mem_size() {
        return Err(Error::other("PPMD memory size larger than PPMD7_MAX_MEM_SIZE"));
    }
    let memory_kb: usize = (memory_size / 1024) as usize;
    if memory_kb > max_mem_limit_kb {
        return Err(Error::MaxMemLimited { max_kb: max_mem_limit_kb, actaul_kb: memory_kb });
    }
    Ok((order, memory_size))
}

/// A reader that stands between a blocking decoder and the task that polls it.
pub struct AsyncStdRead<D> {
    inner: D,
}

impl<D> AsyncStdRead<D> {
    /// Wraps `inner`.
    pub fn new(inner: D) -> (reader: AsyncStdRead<D>)
        ensures
            reader.inner() == inner,
    {
        AsyncStdRead { inner }
    }

    /// The decoder inside.
    pub closed spec fn inner(self) -> D {
        self.inner
    }

    /// Hands the decoder inside back.
    pub fn into_inner(self) -> (inner: D)
        ensures
            inner == self.inner(),
    {
        self.inner
    }
}

/// The decoder that a coder of an archive calls for, with all that is needed to set
/// it up over the coder's input.
pub enum Decoder {
    /// The input is the output.
    Copy,
    /// LZMA, to be started with this 13-byte header before the input: the first
    /// property byte, the dictionary size and the length of the output.
    Lzma { header: Vec<u8> },
    /// LZMA2 on one thread.
    Lzma2 { dict_size: u32 },
    /// LZMA2 on several threads.
    Lzma2Mt { dict_size: u32, threads: u32 },
    /// PPMd in the variant of 7z.
    Ppmd { order: u32, memory_size: u32 },
    /// The BCJ filter of one architecture, started at offset 0.
    Bcj(BcjArch),
    /// The delta filter.
    Delta { distance: usize },
    /// Brotli, possibly in skippable frames, read through a buffer of this size.
    Brotli { buffer_size: usize },
    Bzip2,
    Deflate,
    /// LZ4, possibly in skippable frames.
    Lz4,
    Zstd,
    /// AES-256 with a key derived by SHA-256.
    Aes256Sha256(Aes256Sha256Decoder),
}

/// The first `size` bytes, or all, of what the BCJ filter for the architecture `arch`
/// makes of `input` when it decodes.
pub open spec fn bcj_decoded(arch: BcjArch, input: Seq<u8>, size: usize) -> Seq<u8> {
    match arch {
        BcjArch::X86 => bcj_x86_decoded(input, size),
        BcjArch::Ppc => bcj_ppc_decoded(input, size),
        BcjArch::Ia64 => bcj_ia64_decoded(input, size),
        BcjArch::Arm => bcj_arm_decoded(input, size),
        BcjArch::Arm64 => bcj_arm64_decoded(input, size),
        BcjArch::ArmThumb => bcj_arm_thumb_decoded(input, size),
        BcjArch::Sparc => bcj_sparc_decoded(input, size),
        BcjArch::Riscv => bcj_riscv_decoded(input, size),
    }
}

/// Whether the BCJ filter for the architecture `arch` takes `input` when it decodes.
pub open spec fn bcj_decodes(arch: BcjArch, input: Seq<u8>, size: usize) -> bool {
    match arch {
        BcjArch::X86 => bcj_x86_decoding(input, size) is Some,
        BcjArch::Ppc => bcj_ppc_decoding(input, size) is Some,
        BcjArch::Ia64 => bcj_ia64_decoding(input, size) is Some,
        BcjArch::Arm => bcj_arm_decoding(input, size) is Some,
        BcjArch::Arm64 => bcj_arm64_decoding(input, size) is Some,
        BcjArch::ArmThumb => bcj_arm_thumb_decoding(input, size) is Some,
        BcjArch::Sparc => bcj_sparc_decoding(input, size) is Some,
        BcjArch::Riscv => bcj_riscv_decoding(input, size) is Some,
    }
}

/// Runs the BCJ filter of `lzma_rust2` for the architecture `arch` over `input` and
/// reads what it gives, as far as `size` bytes. A failure that the filter reports is
/// the failure of a codec that did not take its input, and there is no other.
fn bcj_decode(arch: BcjArch, input: &[u8], size: usize) -> (out: Result<Vec<u8>, Error>)
    ensures
        out is Ok <==> bcj_decodes(arch, input@, size),
        out matches Ok(bytes) ==> bytes@ == bcj_decoded(arch, input@, size) && bytes@.len()
            <= size,
        out matches Err(e) ==> is_codec_failure(e),
{
    let read = match arch {
        BcjArch::X86 => bcj_x86_decode(input, size),
        BcjArch::Ppc => bcj_ppc_decode(input, size),
        BcjArch::Ia64 => bcj_ia64_decode(input, size),
        BcjArch::Arm => bcj_arm_decode(input, size),
        BcjArch::Arm64 => bcj_arm64_decode(input, size),
        BcjArch::ArmThumb => bcj_arm_thumb_decode(input, size),
        BcjArch::Sparc => bcj_sparc_decode(input, size),
        BcjArch::Riscv => bcj_riscv_decode(input, size),
    };
    codec_result(read)
}

impl Decoder {
    /// The decoder inside is well formed, and the dictionary of an LZMA2 coder is no
    /// smaller than the smallest that the coder takes.
    pub open spec fn wf(&self) -> bool {
        match self {
            Decoder::Aes256Sha256(decoder) => decoder.wf(),
            Decoder::Lzma2 { dict_size } => *dict_size >= 4096,
            Decoder::Lzma2Mt { dict_size, .. } => *dict_size >= 4096,
            _ => true,
        }
    }

    /// The failure that the input of the coder itself calls for, before any codec of
    /// another crate has seen it: frames that are not built as frames are, and
    /// ciphertext that does not end with a whole block.
    pub open spec fn refusal(self, input: Seq<u8>) -> Option<Error> {
        match self {
            Decoder::Brotli { .. } => match streams_of(Codec::Brotli, input) {
                Err(e) => Some(e),
                Ok(_) => None,
            },
            Decoder::Lz4 => match streams_of(Codec::Lz4, input) {
                Err(e) => Some(e),
                Ok(_) => None,
            },
            Decoder::Aes256Sha256(decoder) => match decoder.rest_of(input) {
                Err(e) => Some(e),
                Ok(_) => None,
            },
            _ => None,
        }
    }

    /// What the decoder makes of `input`, read as far as `size` bytes, where neither
    /// the input calls for a failure nor a codec of another crate reports one. Of a
    /// decoder whose outcome is not fixed by its input, nothing is said.
    pub open spec fn output(self, input: Seq<u8>, size: usize) -> Seq<u8> {
        match self {
            Decoder::Copy => input,
            Decoder::Lzma { header } => lzma_decoded(header@ + input, size),
            Decoder::Lzma2 { dict_size } => lzma2_decoded(input, dict_size, size),
            Decoder::Lzma2Mt { .. } => arbitrary(),
            Decoder::Ppmd { order, memory_size } => ppmd_decoded(input, order, memory_size, size),
            Decoder::Bcj(arch) => bcj_decoded(arch, input, size),
            Decoder::Delta { distance } => delta_decoded(input, distance, size),
            Decoder::Brotli { .. } => clipped(
                streams_decoded(Codec::Brotli, streams_of(Codec::Brotli, input)->Ok_0, size),
                size,
            ),
            Decoder::Bzip2 => bzip2_decoded(input, size),
            Decoder::Deflate => deflate_decoded(input, size),
            Decoder::Lz4 => clipped(
                streams_decoded(Codec::Lz4, streams_of(Codec::Lz4, input)->Ok_0, size),
                size,
            ),
            Decoder::Zstd => zstd_decoded(input, size),
            Decoder::Aes256Sha256(decoder) => decoder.rest_of(input)->Ok_0,
        }
    }

    /// Whether no codec of another crate has a say in what the decoder gives.
    pub open spec fn is_own(self) -> bool {
        self is Copy || self is Aes256Sha256
    }

    /// Whether what the decoder gives is fixed by its input. It is not for LZMA2 on
    /// several threads: the workers decode the chunks of the stream side by side, and
    /// whether a damaged chunk behind the bytes asked for is heard of in time is not
    /// fixed.
    pub open spec fn is_fixed(self) -> bool {
        !(self is Lzma2Mt)
    }

    /// Whether the codec behind the decoder takes `input`: it decodes it, as far as
    /// `size` bytes, without reporting a failure. A decoder without a codec of another
    /// crate takes every input.
    pub open spec fn takes(self, input: Seq<u8>, size: usize) -> bool {
        match self {
            Decoder::Copy => true,
            Decoder::Lzma { header } => lzma_decoding(header@ + input, size) is Some,
            Decoder::Lzma2 { dict_size } => lzma2_decoding(input, dict_size, size) is Some,
            Decoder::Lzma2Mt { .. } => arbitrary(),
            Decoder::Ppmd { order, memory_size } => ppmd_decoding(
                input,
                order,
                memory_size,
                size,
            ) is Some,
            Decoder::Bcj(arch) => bcj_decodes(arch, input, size),
            Decoder::Delta { distance } => delta_decoding(input, distance, size) is Some,
            Decoder::Brotli { .. } => streams_decode(
                Codec::Brotli,
                streams_of(Codec::Brotli, input)->Ok_0,
                size,
            ),
            Decoder::Bzip2 => bzip2_decoding(input, size) is Some,
            Decoder::Deflate => deflate_decoding(input, size) is Some,
            Decoder::Lz4 => streams_decode(Codec::Lz4, streams_of(Codec::Lz4, input)->Ok_0, size),
            Decoder::Zstd => zstd_decoding(input, size) is Some,
            Decoder::Aes256Sha256(_) => true,
        }
    }

    /// Decodes `input`, all that the coder is given, as far as `size` bytes: the
    /// number of bytes that the coder is stated to give.
    ///
    /// What the input itself calls for is refused first. After that, decoding fails
    /// where the codec of another crate reports a failure, and only there. Of LZMA2 on
    /// several threads, whose outcome is not fixed by its input, it is only said that
    /// no more than `size` bytes come back, and that a failure is that of the codec.
    pub fn decode(self, input: &[u8], size: usize) -> (out: Result<Vec<u8>, Error>)
        requires
            self.wf(),
        ensures
            self.refusal(input@) matches Some(e) ==> out == Err::<Vec<u8>, Error>(e),
            self.refusal(input@) is None ==> (out matches Err(e) ==> is_codec_failure(e)),
            self.refusal(input@) is None && self.is_fixed() ==> {
                &&& out is Ok <==> self.takes(input@, size)
                &&& out matches Ok(bytes) ==> bytes@ == self.output(input@, size)
            },
            !self.is_fixed() ==> (out matches Ok(bytes) ==> bytes@.len() <= size),
    {
        match self {
            Decoder::Copy => {
                let bytes = crate::buf::copy_range(input, 0, input.len());
                assert(bytes@ =~= input@);
                Ok(bytes)
            },
            Decoder::Lzma { header } => {
                let mut stream = header;
                crate::buf::append(&mut stream, input);
                codec_result(lzma_decode(stream.as_slice(), size))
            },
            Decoder::Lzma2 { dict_size } => codec_result(lzma2_decode(input, dict_size, size)),
            Decoder::Lzma2Mt { dict_size, threads } => codec_result(
                lzma2_mt_decode(input, dict_size, threads, size),
            ),
            Decoder::Ppmd { order, memory_size } => codec_result(
                ppmd_decode(input, order, memory_size, size),
            ),
            Decoder::Bcj(arch) => bcj_decode(arch, input, size),
            Decoder::Delta { distance } => codec_result(delta_decode(input, distance, size)),
            Decoder::Brotli { .. } => decode_frames(Codec::Brotli, input, size),
            Decoder::Bzip2 => codec_result(bzip2_decode(input, size)),
            Decoder::Deflate => codec_result(deflate_decode(input, size)),
            Decoder::Lz4 => decode_frames(Codec::Lz4, input, size),
            Decoder::Zstd => codec_result(zstd_decode(input, size)),
            Decoder::Aes256Sha256(decoder) => decoder.decrypt_all(input),
        }
    }
}

/// The header that starts an LZMA stream: the property byte, the dictionary size in
/// four bytes and the length of the output in eight, both low byte first.
pub open spec fn lzma_header(props: u8, dict_size: u32, uncompressed_len: usize) -> Seq<u8> {
    seq![props] + le_bytes(dict_size as nat, 4) + le_bytes(uncompressed_len as nat, 8)
}

/// The distance that the properties of a delta coder declare: one more than the first
/// byte, and 1 without any byte.
pub open spec fn delta_distance(properties: Seq<u8>) -> int {
    if properties.len() == 0 {
        1
    } else {
        properties[0] + 1
    }
}

/// The size of the buffer through which a Brotli decoder reads.
pub const BROTLI_BUFFER_SIZE: usize = 4096;

/// Whether `made` is what [`add_decoder`] owes for a coder of `method` with the
/// properties `properties`.
pub open spec fn is_decoder_for(
    made: Result<Decoder, Error>,
    method: EncoderMethod,
    properties: Seq<u8>,
    uncompressed_len: usize,
    password: Seq<u8>,
    max_mem_limit_kb: usize,
    threads: u32,
) -> bool {
    match method {
        EncoderMethod::Copy => made matches Ok(Decoder::Copy),
        EncoderMethod::Lzma => match lzma_dic_size_of(properties) {
            Ok(dict_size) => made matches Ok(Decoder::Lzma { header }) && header@ == lzma_header(
                properties[0],
                dict_size,
                uncompressed_len,
            ),
            Err(e) => made matches Err(got) && got == e,
        },
        EncoderMethod::Lzma2 => match lzma2_dic_size_of(properties) {
            Ok(dict_size) => if lzma2_memory_kb(dict_size) > max_mem_limit_kb {
                made matches Err(got) && got == (Error::MaxMemLimited {
                    max_kb: max_mem_limit_kb,
                    actaul_kb: lzma2_memory_kb(dict_size) as usize,
                })
            } else if threads < 2 {
                made matches Ok(Decoder::Lzma2 { dict_size: d }) && d == dict_size
            } else {
                made matches Ok(Decoder::Lzma2Mt { dict_size: d, threads: t }) && d == dict_size
                    && t == threads
            },
            Err(e) => made matches Err(got) && got == e,
        },
        EncoderMethod::Ppmd => match ppmd_order_memory_size_of(properties, max_mem_limit_kb) {
            Ok((order, memory_size)) => made matches Ok(Decoder::Ppmd { order: o, memory_size: m })
                && o == order && m == memory_size,
            Err(e) => made matches Err(got) && got == e,
        },
        EncoderMethod::Bcj(arch) => made matches Ok(Decoder::Bcj(a)) && a == arch,
        EncoderMethod::Delta => made matches Ok(Decoder::Delta { distance })
            && distance == delta_distance(properties),
        EncoderMethod::Brotli => made matches Ok(Decoder::Brotli { buffer_size }) && buffer_size
            == BROTLI_BUFFER_SIZE,
        EncoderMethod::Bzip2 => made matches Ok(Decoder::Bzip2),
        EncoderMethod::Deflate => made matches Ok(Decoder::Deflate),
        EncoderMethod::Lz4 => made matches Ok(Decoder::Lz4),
        EncoderMethod::Zstd => made matches Ok(Decoder::Zstd),
        EncoderMethod::Aes256Sha256 => if password.len() == 0 {
            made matches Err(got) && got == Error::PasswordRequired
        } else {
            match aes_key_refusal(properties, password) {
                Some(e) => made matches Err(got) && got == e,
                None => {
                    &&& made matches Ok(Decoder::Aes256Sha256(decoder))
                    &&& decoder.wf()
                    &&& decoder.cipher().key() == aes_key(properties, password)
                    &&& decoder.cipher().chain() == aes_iv(properties)
                    &&& decoder.cipher().buffered() == Seq::<u8>::empty()
                    &&& decoder.pending() == Seq::<u8>::empty()
                    &&& !decoder.done()
                },
            }
        },
    }
}

/// Chooses the decoder for `coder` and works out what it is set up with.
///
/// A method id outside the table is refused; so are properties too short for the
/// method or out of its range, a decoder whose memory estimate is above
/// `max_mem_limit_kb`, and an AES coder met with an empty password.
pub fn add_decoder(
    uncompressed_len: usize,
    coder: &Coder,
    password: &Password,
    max_mem_limit_kb: usize,
    threads: u32,
) -> (made: Result<Decoder, Error>)
    ensures
        is_plan_of(made, coder@, uncompressed_len, password@, max_mem_limit_kb, threads),
        made matches Ok(plan) ==> plan.wf(),
{
    proof {
        if coder.properties@.len() > 0 && coder.properties@[0] < 40 {
            lemma_lzma2_dict_size_min(coder.properties@[0]);
        }
    }
    let method = match EncoderMethod::by_id(coder.encoder_method_id()) {
        Some(m) => m,
        None => {
            let id = crate::buf::copy_range(coder.encoder_method_id(), 0, coder.method_id.len());
            assert(id@ =~= coder.method_id@);
            return Err(Error::UnsupportedCompressionMethod(id));
        },
    };
    match method {
        EncoderMethod::Copy => Ok(Decoder::Copy),
        EncoderMethod::Lzma => {
            let dict_size = match get_lzma_dic_size(coder) {
                Ok(d) => d,
                Err(e) => {
                    return Err(e);
                },
            };
            let mut header: Vec<u8> = Vec::new();
            header.push(coder.properties[0]);
            crate::buf::append(&mut header, u32_to_le(dict_size).as_slice());
            crate::buf::append(&mut header, u64_to_le(uncompressed_len as u64).as_slice());
            Ok(Decoder::Lzma { header })
        },
        EncoderMethod::Lzma2 => {
            let dic_size = match get_lzma2_dic_size(coder) {
                Ok(d) => d,
                Err(e) => {
                    return Err(e);
                },
            };
            let mem_size: usize = lzma2_memory_usage(dic_size) as usize;
            if mem_size > max_mem_limit_kb {
                return Err(Error::MaxMemLimited { max_kb: max_mem_limit_kb, actaul_kb: mem_size });
            }
            if threads < 2 {
                Ok(Decoder::Lzma2 { dict_size: dic_size })
            } else {
                Ok(Decoder::Lzma2Mt { dict_size: dic_size, threads })
            }
        },
        EncoderMethod::Ppmd => {
            match get_ppmd_order_memory_size(coder, max_mem_limit_kb) {
                Ok((order, memory_size)) => Ok(Decoder::Ppmd { order, memory_size }),
                Err(e) => Err(e),
            }
        },
        EncoderMethod::Brotli => Ok(Decoder::Brotli { buffer_size: BROTLI_BUFFER_SIZE }),
        EncoderMethod::Bzip2 => Ok(Decoder::Bzip2),
        EncoderMethod::Deflate => Ok(Decoder::Deflate),
        EncoderMethod::Lz4 => Ok(Decoder::Lz4),
        EncoderMethod::Zstd => Ok(Decoder::Zstd),
        EncoderMethod::Bcj(arch) => Ok(Decoder::Bcj(arch)),
        EncoderMethod::Delta => {
            let distance: usize = if coder.properties.len() == 0 {
                1
            } else {
                coder.properties[0] as usize + 1
            };
            Ok(Decoder::Delta { distance })
        },
        EncoderMethod::Aes256Sha256 => {
            if password.is_empty() {
                return Err(Error::PasswordRequired);
            }
            match Aes256Sha256Decoder::new(coder.properties.as_slice(), password) {
                Ok(decoder) => Ok(Decoder::Aes256Sha256(decoder)),
                Err(e) => Err(e),
            }
        },
    }
}

/// A coder that names AES is refused with `PasswordRequired` whenever the password is
/// empty, whatever its properties hold, and nothing is decrypted.
pub proof fn lemma_aes_needs_password(
    made: Result<Decoder, Error>,
    properties: Seq<u8>,
    uncompressed_len: usize,
    max_mem_limit_kb: usize,
    threads: u32,
)
    requires
        is_decoder_for(
            made,
            EncoderMethod::Aes256Sha256,
            properties,
            uncompressed_len,
            Seq::<u8>::empty(),
            max_mem_limit_kb,
            threads,
        ),
    ensures
        made matches Err(e) && e == Error::PasswordRequired,
{
}

/// Whether `made` is what [`add_decoder`] owes for `coder`.
pub open spec fn is_plan_of(
    made: Result<Decoder, Error>,
    coder: CoderView,
    uncompressed_len: usize,
    password: Seq<u8>,
    max_mem_limit_kb: usize,
    threads: u32,
) -> bool {
    match EncoderMethod::spec_by_id(coder.method_id) {
        None => made matches Err(Error::UnsupportedCompressionMethod(id)) && id@
            == coder.method_id,
        Some(method) => is_decoder_for(
            made,
            method,
            coder.properties,
            uncompressed_len,
            password,
            max_mem_limit_kb,
            threads,
        ),
    }
}

/// Whether no decoder is made for `coder`: its method is outside the table, its
/// properties are not what the method takes, its decoder would take more memory than
/// the limit, or it is an AES coder met with an empty password.
pub open spec fn refuses(
    coder: CoderView,
    password: Seq<u8>,
    max_mem_limit_kb: usize,
) -> bool {
    match EncoderMethod::spec_by_id(coder.method_id) {
        None => true,
        Some(EncoderMethod::Lzma) => lzma_dic_size_of(coder.properties) is Err,
        Some(EncoderMethod::Lzma2) => match lzma2_dic_size_of(coder.properties) {
            Ok(dict_size) => lzma2_memory_kb(dict_size) > max_mem_limit_kb,
            Err(_) => true,
        },
        Some(EncoderMethod::Ppmd) => ppmd_order_memory_size_of(
            coder.properties,
            max_mem_limit_kb,
        ) is Err,
        Some(EncoderMethod::Aes256Sha256) => password.len() == 0 || aes_key_refusal(
            coder.properties,
            password,
        ) is Some,
        Some(_) => false,
    }
}

/// The plaintext of `input` under the key and the IV that the properties of an AES
/// coder and the password give; ciphertext that does not end with a whole block is
/// refused.
pub open spec fn aes_plain(properties: Seq<u8>, password: Seq<u8>, input: Seq<u8>) -> Result<
    Seq<u8>,
    Error,
> {
    if input.len() % 16 != 0 {
        Err(Error::Io(IoKind::InvalidData, "IllegalBlockSize"))
    } else if input.len() == 0 {
        Ok(Seq::empty())
    } else {
        Ok(aes256_cbc_decrypt(aes_key(properties, password), aes_iv(properties), input))
    }
}

/// The failure that the input of `coder` itself calls for, before any codec of
/// another crate has seen it.
pub open spec fn coder_refusal(coder: CoderView, password: Seq<u8>, input: Seq<u8>) -> Option<
    Error,
> {
    match EncoderMethod::spec_by_id(coder.method_id) {
        Some(EncoderMethod::Brotli) => match streams_of(Codec::Brotli, input) {
            Err(e) => Some(e),
            Ok(_) => None,
        },
        Some(EncoderMethod::Lz4) => match streams_of(Codec::Lz4, input) {
            Err(e) => Some(e),
            Ok(_) => None,
        },
        Some(EncoderMethod::Aes256Sha256) => match aes_plain(coder.properties, password, input) {
            Err(e) => Some(e),
            Ok(_) => None,
        },
        _ => None,
    }
}

/// What the decoder of `coder` makes of `input`, read as far as `size` bytes, where
/// a decoder is made for the coder and neither the input calls for a failure nor a
/// codec of another crate reports one. Of a decoder whose outcome is not fixed by
/// its input, nothing is said.
pub open spec fn coder_output(
    coder: CoderView,
    password: Seq<u8>,
    max_mem_limit_kb: usize,
    threads: u32,
    input: Seq<u8>,
    size: usize,
) -> Seq<u8> {
    let properties = coder.properties;
    match EncoderMethod::spec_by_id(coder.method_id) {
        None => input,
        Some(EncoderMethod::Copy) => input,
        Some(EncoderMethod::Lzma) => lzma_decoded(
            lzma_header(properties[0], lzma_dic_size_of(properties)->Ok_0, size) + input,
            size,
        ),
        Some(EncoderMethod::Lzma2) => if threads < 2 {
            lzma2_decoded(input, lzma2_dic_size_of(properties)->Ok_0, size)
        } else {
            arbitrary()
        },
        Some(EncoderMethod::Ppmd) => {
            let (order, memory_size) = ppmd_order_memory_size_of(properties, max_mem_limit_kb)->Ok_0;
            ppmd_decoded(input, order, memory_size, size)
        },
        Some(EncoderMethod::Bcj(arch)) => bcj_decoded(arch, input, size),
        Some(EncoderMethod::Delta) => delta_decoded(
            input,
            delta_distance(properties) as usize,
            size,
        ),
        Some(EncoderMethod::Brotli) => clipped(
            streams_decoded(Codec::Brotli, streams_of(Codec::Brotli, input)->Ok_0, size),
            size,
        ),
        Some(EncoderMethod::Bzip2) => bzip2_decoded(input, size),
        Some(EncoderMethod::Deflate) => deflate_decoded(input, size),
        Some(EncoderMethod::Lz4) => clipped(
            streams_decoded(Codec::Lz4, streams_of(Codec::Lz4, input)->Ok_0, size),
            size,
        ),
        Some(EncoderMethod::Zstd) => zstd_decoded(input, size),
        Some(EncoderMethod::Aes256Sha256) => aes_plain(properties, password, input)->Ok_0,
    }
}

/// Whether the codec behind the decoder of `coder` takes `input`, where a decoder is
/// made for the coder and the input calls for no failure by itself.
pub open spec fn coder_takes(
    coder: CoderView,
    password: Seq<u8>,
    max_mem_limit_kb: usize,
    threads: u32,
    input: Seq<u8>,
    size: usize,
) -> bool {
    let properties = coder.properties;
    match EncoderMethod::spec_by_id(coder.method_id) {
        None => true,
        Some(EncoderMethod::Copy) => true,
        Some(EncoderMethod::Lzma) => lzma_decoding(
            lzma_header(properties[0], lzma_dic_size_of(properties)->Ok_0, size) + input,
            size,
        ) is Some,
        Some(EncoderMethod::Lzma2) => if threads < 2 {
            lzma2_decoding(input, lzma2_dic_size_of(properties)->Ok_0, size) is Some
        } else {
            arbitrary()
        },
        Some(EncoderMethod::Ppmd) => {
            let found = ppmd_order_memory_size_of(properties, max_mem_limit_kb)->Ok_0;
            ppmd_decoding(input, found.0, found.1, size) is Some
        },
        Some(EncoderMethod::Bcj(arch)) => bcj_decodes(arch, input, size),
        Some(EncoderMethod::Delta) => delta_decoding(
            input,
            delta_distance(properties) as usize,
            size,
        ) is Some,
        Some(EncoderMethod::Brotli) => streams_decode(
            Codec::Brotli,
            streams_of(Codec::Brotli, input)->Ok_0,
            size,
        ),
        Some(EncoderMethod::Bzip2) => bzip2_decoding(input, size) is Some,
        Some(EncoderMethod::Deflate) => deflate_decoding(input, size) is Some,
        Some(EncoderMethod::Lz4) => streams_decode(
            Codec::Lz4,
            streams_of(Codec::Lz4, input)->Ok_0,
            size,
        ),
        Some(EncoderMethod::Zstd) => zstd_decoding(input, size) is Some,
        Some(EncoderMethod::Aes256Sha256) => true,
    }
}

/// Whether what the decoder of `coder` gives is fixed by its input: it is not for
/// LZMA2 on several threads.
pub open spec fn is_fixed_coder(coder: CoderView, threads: u32) -> bool {
    !(EncoderMethod::spec_by_id(coder.method_id) == Some(EncoderMethod::Lzma2) && threads >= 2)
}

/// Whether no codec of another crate has a say in what the decoder of `coder` gives.
pub open spec fn is_own_coder(coder: CoderView) -> bool {
    EncoderMethod::spec_by_id(coder.method_id) == Some(EncoderMethod::Copy)
        || EncoderMethod::spec_by_id(coder.method_id) == Some(EncoderMethod::Aes256Sha256)
}

/// A decoder is made for a coder exactly where the coder is not refused, and the
/// decoder made gives what the coder is said to give.
pub proof fn lemma_plan(
    made: Result<Decoder, Error>,
    coder: CoderView,
    password: Seq<u8>,
    max_mem_limit_kb: usize,
    threads: u32,
    input: Seq<u8>,
    size: usize,
)
    requires
        is_plan_of(made, coder, size, password, max_mem_limit_kb, threads),
    ensures
        made is Err <==> refuses(coder, password, max_mem_limit_kb),
        made matches Ok(plan) ==> {
            &&& plan.wf()
            &&& plan.refusal(input) == coder_refusal(coder, password, input)
            &&& plan.is_fixed() == is_fixed_coder(coder, threads)
            &&& plan.is_fixed() && plan.refusal(input) is None ==> plan.output(input, size)
                == coder_output(coder, password, max_mem_limit_kb, threads, input, size)
            &&& plan.is_own() == is_own_coder(coder)
            &&& plan.is_fixed() ==> plan.takes(input, size) == coder_takes(
                coder,
                password,
                max_mem_limit_kb,
                threads,
                input,
                size,
            )
            &&& is_own_coder(coder) ==> plan.takes(input, size) && plan.is_fixed()
        },
{
    match made {
        Ok(Decoder::Aes256Sha256(decoder)) => {
            assert(Seq::<u8>::empty() + input =~= input);
            let plain = aes256_cbc_decrypt(
                aes_key(coder.properties, password),
                aes_iv(coder.properties),
                input,
            );
            assert(Seq::<u8>::empty() + plain =~= plain);
        },
        Ok(Decoder::Lzma2 { .. }) | Ok(Decoder::Lzma2Mt { .. }) => {
            if coder.properties[0] < 40 {
                lemma_lzma2_dict_size_min(coder.properties[0]);
            }
        },
        _ => {},
    }
}

} // verus!
