//! The codecs of other crates, each run over bytes in memory: the whole input goes
//! in, and what the codec makes of it comes out. Nothing is proved of what a codec
//! computes; the outcome of each, its bytes or that it reports a failure, has a
//! name, and the contracts of the library speak of the name.

use std::io::{Read, Write};

use async_compression::futures::bufread::BrotliDecoder as AsyncBrotliDecoder;
use async_compression::futures::bufread::BzDecoder as AsyncBzDecoder;
use async_compression::futures::bufread::DeflateDecoder as AsyncDeflateDecoder;
use async_compression::futures::bufread::Lz4Decoder as AsyncLz4Decoder;
use async_compression::futures::bufread::LzmaDecoder as AsyncLzmaDecoder;
use async_compression::futures::bufread::ZstdDecoder as AsyncZstdDecoder;
use async_compression::futures::write::BzEncoder as AsyncBzEncoder;
use async_compression::futures::write::DeflateEncoder as AsyncDeflateEncoder;
use async_compression::futures::write::LzmaEncoder as AsyncLzmaEncoder;
use async_compression::futures::write::ZstdEncoder as AsyncZstdEncoder;
use async_compression::Level;
use futures::io::{AsyncReadExt, AsyncWriteExt, Cursor};
use lzma_rust2::filter::bcj::{BcjReader, BcjWriter};
use lzma_rust2::filter::delta::{DeltaReader, DeltaWriter};
use lzma_rust2::{Lzma2Reader, Lzma2ReaderMt, Lzma2Writer, Lzma2WriterMt};
use ppmd_rust::{Ppmd7Decoder, Ppmd7Encoder};
use vstd::prelude::*;

verus! {

/// The outcome of the decoder behind [`lzma2_decoded`]: what it makes of its input, or
/// none where it reports a failure.
pub uninterp spec fn lzma2_decoding(input: Seq<u8>, dict_size: u32, size: usize) -> Option<Seq<u8>>;

/// The first `size` bytes, or all, of what the LZMA2 decoder of `lzma_rust2` makes of
/// `input` with a dictionary of `dict_size` bytes.
pub open spec fn lzma2_decoded(input: Seq<u8>, dict_size: u32, size: usize) -> Seq<u8> {
    lzma2_decoding(input, dict_size, size)->0
}

/// `lzma_rust2::Lzma2Reader`, made over `input` with the dictionary size `dict_size`,
/// which is no less than the smallest that the coder takes, and no preset dictionary,
/// and read until it ends or has given `size` bytes: what was read, or the failure the
/// decoder reported.
#[verifier::external_body]
pub(crate) fn lzma2_decode(
    input: &[u8],
    dict_size: u32,
    size: usize,
) -> (out: Result<Vec<u8>, std::io::Error>)
    requires
        dict_size >= 4096,
    ensures
        out matches Ok(bytes) ==> lzma2_decoding(input@, dict_size, size) == Some(bytes@)
            && bytes@.len() <= size,
        out is Err ==> lzma2_decoding(input@, dict_size, size) is None,
{
    let mut out = Vec::new();
    Lzma2Reader::new(input, dict_size, None).take(size as u64).read_to_end(&mut out)?;
    Ok(out)
}

/// `lzma_rust2::Lzma2ReaderMt`, made over `input` with the dictionary size `dict_size`,
/// which is no less than the smallest that the coder takes, no preset dictionary and
/// `threads` workers, and read until it ends or has given `size` bytes: what was read,
/// or the failure the decoder reported. The workers decode the chunks of the stream
/// side by side, and which of them is heard first is not fixed; so nothing is said of
/// the outcome but that no more than `size` bytes are read.
#[verifier::external_body]
pub(crate) fn lzma2_mt_decode(
    input: &[u8],
    dict_size: u32,
    threads: u32,
    size: usize,
) -> (out: Result<Vec<u8>, std::io::Error>)
    requires
        dict_size >= 4096,
    ensures
        out matches Ok(bytes) ==> bytes@.len() <= size,
{
    let mut out = Vec::new();
    Lzma2ReaderMt::new(input, dict_size, None, threads).take(size as u64).read_to_end(&mut out)?;
    Ok(out)
}

/// The outcome of the decoder behind [`ppmd_decoded`]: what it makes of its input, or
/// none where it reports a failure.
pub uninterp spec fn ppmd_decoding(
    input: Seq<u8>,
    order: u32,
    memory_size: u32,
    size: usize,
) -> Option<Seq<u8>>;

/// The first `size` bytes, or all, of what the PPMd7 decoder of `ppmd_rust` makes of
/// `input` with a model of the order `order` in `memory_size` bytes.
pub open spec fn ppmd_decoded(
    input: Seq<u8>,
    order: u32,
    memory_size: u32,
    size: usize,
) -> Seq<u8> {
    ppmd_decoding(input, order, memory_size, size)->0
}

/// `ppmd_rust::Ppmd7Decoder`, made over `input` with the order `order` and the memory
/// size `memory_size`, and read until it ends or has given `size` bytes: what was read,
/// or the failure the decoder reported when it was made or read.
#[verifier::external_body]
pub(crate) fn ppmd_decode(
    input: &[u8],
    order: u32,
    memory_size: u32,
    size: usize,
) -> (out: Result<Vec<u8>, std::io::Error>)
    ensures
        out matches Ok(bytes) ==> ppmd_decoding(input@, order, memory_size, size) == Some(bytes@)
            && bytes@.len() <= size,
        out is Err ==> ppmd_decoding(input@, order, memory_size, size) is None,
{
    let mut out = Vec::new();
    let decoder = Ppmd7Decoder::new(input, order, memory_size).map_err(std::io::Error::other)?;
    decoder.take(size as u64).read_to_end(&mut out)?;
    Ok(out)
}

/// The outcome of the decoder behind [`bcj_x86_decoded`]: what it makes of its input,
/// or none where it reports a failure.
pub uninterp spec fn bcj_x86_decoding(input: Seq<u8>, size: usize) -> Option<Seq<u8>>;

/// The first `size` bytes, or all, of what the BCJ filter of `lzma_rust2` for x86 code,
/// started at offset 0, makes of `input` when it decodes.
pub open spec fn bcj_x86_decoded(input: Seq<u8>, size: usize) -> Seq<u8> {
    bcj_x86_decoding(input, size)->0
}

/// `lzma_rust2::filter::bcj::BcjReader::new_x86`, made over `input` at the start offset
/// 0, and read until it ends or has given `size` bytes: what was read, or the failure
/// the decoder reported.
#[verifier::external_body]
pub(crate) fn bcj_x86_decode(input: &[u8], size: usize) -> (out: Result<Vec<u8>, std::io::Error>)
    ensures
        out matches Ok(bytes) ==> bcj_x86_decoding(input@, size) == Some(bytes@)
            && bytes@.len() <= size,
        out is Err ==> bcj_x86_decoding(input@, size) is None,
{
    let mut out = Vec::new();
    BcjReader::new_x86(input, 0).take(size as u64).read_to_end(&mut out)?;
    Ok(out)
}

/// The outcome of the decoder behind [`bcj_arm_decoded`]: what it makes of its input,
/// or none where it reports a failure.
pub uninterp spec fn bcj_arm_decoding(input: Seq<u8>, size: usize) -> Option<Seq<u8>>;

/// The first `size` bytes, or all, of what the BCJ filter of `lzma_rust2` for ARM code,
/// started at offset 0, makes of `input` when it decodes.
pub open spec fn bcj_arm_decoded(input: Seq<u8>, size: usize) -> Seq<u8> {
    bcj_arm_decoding(input, size)->0
}

/// `lzma_rust2::filter::bcj::BcjReader::new_arm`, made over `input` at the start offset
/// 0, and read until it ends or has given `size` bytes: what was read, or the failure
/// the decoder reported.
#[verifier::external_body]
pub(crate) fn bcj_arm_decode(input: &[u8], size: usize) -> (out: Result<Vec<u8>, std::io::Error>)
    ensures
        out matches Ok(bytes) ==> bcj_arm_decoding(input@, size) == Some(bytes@)
            && bytes@.len() <= size,
        out is Err ==> bcj_arm_decoding(input@, size) is None,
{
    let mut out = Vec::new();
    BcjReader::new_arm(input, 0).take(size as u64).read_to_end(&mut out)?;
    Ok(out)
}

/// The outcome of the decoder behind [`bcj_arm64_decoded`]: what it makes of its input,
/// or none where it reports a failure.
pub uninterp spec fn bcj_arm64_decoding(input: Seq<u8>, size: usize) -> Option<Seq<u8>>;

/// The first `size` bytes, or all, of what the BCJ filter of `lzma_rust2` for ARM64
/// code, started at offset 0, makes of `input` when it decodes.
pub open spec fn bcj_arm64_decoded(input: Seq<u8>, size: usize) -> Seq<u8> {
    bcj_arm64_decoding(input, size)->0
}

/// `lzma_rust2::filter::bcj::BcjReader::new_arm64`, made over `input` at the start
/// offset 0, and read until it ends or has given `size` bytes: what was read, or the
/// failure the decoder reported.
#[verifier::external_body]
pub(crate) fn bcj_arm64_decode(input: &[u8], size: usize) -> (out: Result<Vec<u8>, std::io::Error>)
    ensures
        out matches Ok(bytes) ==> bcj_arm64_decoding(input@, size) == Some(bytes@)
            && bytes@.len() <= size,
        out is Err ==> bcj_arm64_decoding(input@, size) is None,
{
    let mut out = Vec::new();
    BcjReader::new_arm64(input, 0).take(size as u64).read_to_end(&mut out)?;
    Ok(out)
}

/// The outcome of the decoder behind [`bcj_arm_thumb_decoded`]: what it makes of its
/// input, or none where it reports a failure.
pub uninterp spec fn bcj_arm_thumb_decoding(input: Seq<u8>, size: usize) -> Option<Seq<u8>>;

/// The first `size` bytes, or all, of what the BCJ filter of `lzma_rust2` for ARM Thumb
/// code, started at offset 0, makes of `input` when it decodes.
pub open spec fn bcj_arm_thumb_decoded(input: Seq<u8>, size: usize) -> Seq<u8> {
    bcj_arm_thumb_decoding(input, size)->0
}

/// `lzma_rust2::filter::bcj::BcjReader::new_arm_thumb`, made over `input` at the start
/// offset 0, and read until it ends or has given `size` bytes: what was read, or the
/// failure the decoder reported.
#[verifier::external_body]
pub(crate) fn bcj_arm_thumb_decode(
    input: &[u8],
    size: usize,
) -> (out: Result<Vec<u8>, std::io::Error>)
    ensures
        out matches Ok(bytes) ==> bcj_arm_thumb_decoding(input@, size) == Some(bytes@)
            && bytes@.len() <= size,
        out is Err ==> bcj_arm_thumb_decoding(input@, size) is None,
{
    let mut out = Vec::new();
    BcjReader::new_arm_thumb(input, 0).take(size as u64).read_to_end(&mut out)?;
    Ok(out)
}

/// The outcome of the decoder behind [`bcj_ppc_decoded`]: what it makes of its input,
/// or none where it reports a failure.
pub uninterp spec fn bcj_ppc_decoding(input: Seq<u8>, size: usize) -> Option<Seq<u8>>;

/// The first `size` bytes, or all, of what the BCJ filter of `lzma_rust2` for PowerPC
/// code, started at offset 0, makes of `input` when it decodes.
pub open spec fn bcj_ppc_decoded(input: Seq<u8>, size: usize) -> Seq<u8> {
    bcj_ppc_decoding(input, size)->0
}

/// `lzma_rust2::filter::bcj::BcjReader::new_ppc`, made over `input` at the start offset
/// 0, and read until it ends or has given `size` bytes: what was read, or the failure
/// the decoder reported.
#[verifier::external_body]
pub(crate) fn bcj_ppc_decode(input: &[u8], size: usize) -> (out: Result<Vec<u8>, std::io::Error>)
    ensures
        out matches Ok(bytes) ==> bcj_ppc_decoding(input@, size) == Some(bytes@)
            && bytes@.len() <= size,
        out is Err ==> bcj_ppc_decoding(input@, size) is None,
{
    let mut out = Vec::new();
    BcjReader::new_ppc(input, 0).take(size as u64).read_to_end(&mut out)?;
    Ok(out)
}

/// The outcome of the decoder behind [`bcj_sparc_decoded`]: what it makes of its input,
/// or none where it reports a failure.
pub uninterp spec fn bcj_sparc_decoding(input: Seq<u8>, size: usize) -> Option<Seq<u8>>;

/// The first `size` bytes, or all, of what the BCJ filter of `lzma_rust2` for SPARC
/// code, started at offset 0, makes of `input` when it decodes.
pub open spec fn bcj_sparc_decoded(input: Seq<u8>, size: usize) -> Seq<u8> {
    bcj_sparc_decoding(input, size)->0
}

/// `lzma_rust2::filter::bcj::BcjReader::new_sparc`, made over `input` at the start
/// offset 0, and read until it ends or has given `size` bytes: what was read, or the
/// failure the decoder reported.
#[verifier::external_body]
pub(crate) fn bcj_sparc_decode(input: &[u8], size: usize) -> (out: Result<Vec<u8>, std::io::Error>)
    ensures
        out matches Ok(bytes) ==> bcj_sparc_decoding(input@, size) == Some(bytes@)
            && bytes@.len() <= size,
        out is Err ==> bcj_sparc_decoding(input@, size) is None,
{
    let mut out = Vec::new();
    BcjReader::new_sparc(input, 0).take(size as u64).read_to_end(&mut out)?;
    Ok(out)
}

/// The outcome of the decoder behind [`bcj_ia64_decoded`]: what it makes of its input,
/// or none where it reports a failure.
pub uninterp spec fn bcj_ia64_decoding(input: Seq<u8>, size: usize) -> Option<Seq<u8>>;

/// The first `size` bytes, or all, of what the BCJ filter of `lzma_rust2` for IA-64
/// code, started at offset 0, makes of `input` when it decodes.
pub open spec fn bcj_ia64_decoded(input: Seq<u8>, size: usize) -> Seq<u8> {
    bcj_ia64_decoding(input, size)->0
}

/// `lzma_rust2::filter::bcj::BcjReader::new_ia64`, made over `input` at the start
/// offset 0, and read until it ends or has given `size` bytes: what was read, or the
/// failure the decoder reported.
#[verifier::external_body]
pub(crate) fn bcj_ia64_decode(input: &[u8], size: usize) -> (out: Result<Vec<u8>, std::io::Error>)
    ensures
        out matches Ok(bytes) ==> bcj_ia64_decoding(input@, size) == Some(bytes@)
            && bytes@.len() <= size,
        out is Err ==> bcj_ia64_decoding(input@, size) is None,
{
    let mut out = Vec::new();
    BcjReader::new_ia64(input, 0).take(size as u64).read_to_end(&mut out)?;
    Ok(out)
}

/// The outcome of the decoder behind [`bcj_riscv_decoded`]: what it makes of its input,
/// or none where it reports a failure.
pub uninterp spec fn bcj_riscv_decoding(input: Seq<u8>, size: usize) -> Option<Seq<u8>>;

/// The first `size` bytes, or all, of what the BCJ filter of `lzma_rust2` for RISC-V
/// code, started at offset 0, makes of `input` when it decodes.
pub open spec fn bcj_riscv_decoded(input: Seq<u8>, size: usize) -> Seq<u8> {
    bcj_riscv_decoding(input, size)->0
}

/// `lzma_rust2::filter::bcj::BcjReader::new_riscv`, made over `input` at the start
/// offset 0, and read until it ends or has given `size` bytes: what was read, or the
/// failure the decoder reported.
#[verifier::external_body]
pub(crate) fn bcj_riscv_decode(input: &[u8], size: usize) -> (out: Result<Vec<u8>, std::io::Error>)
    ensures
        out matches Ok(bytes) ==> bcj_riscv_decoding(input@, size) == Some(bytes@)
            && bytes@.len() <= size,
        out is Err ==> bcj_riscv_decoding(input@, size) is None,
{
    let mut out = Vec::new();
    BcjReader::new_riscv(input, 0).take(size as u64).read_to_end(&mut out)?;
    Ok(out)
}

/// The outcome of the decoder behind [`delta_decoded`]: what it makes of its input, or
/// none where it reports a failure.
pub uninterp spec fn delta_decoding(
    input: Seq<u8>,
    distance: usize,
    size: usize,
) -> Option<Seq<u8>>;

/// The first `size` bytes, or all, of what the delta filter of `lzma_rust2` with the
/// distance `distance` makes of `input` when it decodes.
pub open spec fn delta_decoded(input: Seq<u8>, distance: usize, size: usize) -> Seq<u8> {
    delta_decoding(input, distance, size)->0
}

/// `lzma_rust2::filter::delta::DeltaReader`, made over `input` with the distance
/// `distance`, and read until it ends or has given `size` bytes: what was read, or the
/// failure the decoder reported.
#[verifier::external_body]
pub(crate) fn delta_decode(
    input: &[u8],
    distance: usize,
    size: usize,
) -> (out: Result<Vec<u8>, std::io::Error>)
    ensures
        out matches Ok(bytes) ==> delta_decoding(input@, distance, size) == Some(bytes@)
            && bytes@.len() <= size,
        out is Err ==> delta_decoding(input@, distance, size) is None,
{
    let mut out = Vec::new();
    DeltaReader::new(input, distance).take(size as u64).read_to_end(&mut out)?;
    Ok(out)
}

/// The outcome of the decoder behind [`lzma_decoded`]: what it makes of its input, or
/// none where it reports a failure.
pub uninterp spec fn lzma_decoding(input: Seq<u8>, size: usize) -> Option<Seq<u8>>;

/// The first `size` bytes, or all, of what the decoder of `async_compression` makes of
/// `input` as an LZMA stream with its header of 13 bytes.
pub open spec fn lzma_decoded(input: Seq<u8>, size: usize) -> Seq<u8> {
    lzma_decoding(input, size)->0
}

/// `async_compression::futures::bufread::LzmaDecoder`, made over `input`, and read
/// until it ends or has given `size` bytes: what was read, or the failure the decoder
/// reported.
#[verifier::external_body]
pub(crate) fn lzma_decode(input: &[u8], size: usize) -> (out: Result<Vec<u8>, std::io::Error>)
    ensures
        out matches Ok(bytes) ==> lzma_decoding(input@, size) == Some(bytes@)
            && bytes@.len() <= size,
        out is Err ==> lzma_decoding(input@, size) is None,
{
    let mut out = Vec::new();
    let decoder = AsyncLzmaDecoder::new(Cursor::new(input));
    async_io::block_on(decoder.take(size as u64).read_to_end(&mut out))?;
    Ok(out)
}

/// The outcome of the decoder behind [`bzip2_decoded`]: what it makes of its input, or
/// none where it reports a failure.
pub uninterp spec fn bzip2_decoding(input: Seq<u8>, size: usize) -> Option<Seq<u8>>;

/// The first `size` bytes, or all, of what the decoder of `async_compression` makes of
/// `input` as a bzip2 stream.
pub open spec fn bzip2_decoded(input: Seq<u8>, size: usize) -> Seq<u8> {
    bzip2_decoding(input, size)->0
}

/// `async_compression::futures::bufread::BzDecoder`, made over `input`, and read until
/// it ends or has given `size` bytes: what was read, or the failure the decoder
/// reported.
#[verifier::external_body]
pub(crate) fn bzip2_decode(input: &[u8], size: usize) -> (out: Result<Vec<u8>, std::io::Error>)
    ensures
        out matches Ok(bytes) ==> bzip2_decoding(input@, size) == Some(bytes@)
            && bytes@.len() <= size,
        out is Err ==> bzip2_decoding(input@, size) is None,
{
    let mut out = Vec::new();
    let decoder = AsyncBzDecoder::new(Cursor::new(input));
    async_io::block_on(decoder.take(size as u64).read_to_end(&mut out))?;
    Ok(out)
}

/// The outcome of the decoder behind [`deflate_decoded`]: what it makes of its input,
/// or none where it reports a failure.
pub uninterp spec fn deflate_decoding(input: Seq<u8>, size: usize) -> Option<Seq<u8>>;

/// The first `size` bytes, or all, of what the decoder of `async_compression` makes of
/// `input` as a raw deflate stream.
pub open spec fn deflate_decoded(input: Seq<u8>, size: usize) -> Seq<u8> {
    deflate_decoding(input, size)->0
}

/// `async_compression::futures::bufread::DeflateDecoder`, made over `input`, and read
/// until it ends or has given `size` bytes: what was read, or the failure the decoder
/// reported.
#[verifier::external_body]
pub(crate) fn deflate_decode(input: &[u8], size: usize) -> (out: Result<Vec<u8>, std::io::Error>)
    ensures
        out matches Ok(bytes) ==> deflate_decoding(input@, size) == Some(bytes@)
            && bytes@.len() <= size,
        out is Err ==> deflate_decoding(input@, size) is None,
{
    let mut out = Vec::new();
    let decoder = AsyncDeflateDecoder::new(Cursor::new(input));
    async_io::block_on(decoder.take(size as u64).read_to_end(&mut out))?;
    Ok(out)
}

/// The outcome of the decoder behind [`zstd_decoded`]: what it makes of its input, or
/// none where it reports a failure.
pub uninterp spec fn zstd_decoding(input: Seq<u8>, size: usize) -> Option<Seq<u8>>;

/// The first `size` bytes, or all, of what the decoder of `async_compression` makes of
/// `input` as a Zstandard frame.
pub open spec fn zstd_decoded(input: Seq<u8>, size: usize) -> Seq<u8> {
    zstd_decoding(input, size)->0
}

/// `async_compression::futures::bufread::ZstdDecoder`, made over `input`, and read
/// until it ends or has given `size` bytes: what was read, or the failure the decoder
/// reported.
#[verifier::external_body]
pub(crate) fn zstd_decode(input: &[u8], size: usize) -> (out: Result<Vec<u8>, std::io::Error>)
    ensures
        out matches Ok(bytes) ==> zstd_decoding(input@, size) == Some(bytes@)
            && bytes@.len() <= size,
        out is Err ==> zstd_decoding(input@, size) is None,
{
    let mut out = Vec::new();
    let decoder = AsyncZstdDecoder::new(Cursor::new(input));
    async_io::block_on(decoder.take(size as u64).read_to_end(&mut out))?;
    Ok(out)
}

/// The outcome of the decoder behind [`brotli_decoded`]: what it makes of its input, or
/// none where it reports a failure.
pub uninterp spec fn brotli_decoding(input: Seq<u8>, size: usize) -> Option<Seq<u8>>;

/// The first `size` bytes, or all, of what the decoder of `async_compression` makes of
/// `input` as a Brotli stream.
pub open spec fn brotli_decoded(input: Seq<u8>, size: usize) -> Seq<u8> {
    brotli_decoding(input, size)->0
}

/// `async_compression::futures::bufread::BrotliDecoder`, made over `input`, and read
/// until it ends or has given `size` bytes: what was read, or the failure the decoder
/// reported.
#[verifier::external_body]
pub(crate) fn brotli_decode(input: &[u8], size: usize) -> (out: Result<Vec<u8>, std::io::Error>)
    ensures
        out matches Ok(bytes) ==> brotli_decoding(input@, size) == Some(bytes@)
            && bytes@.len() <= size,
        out is Err ==> brotli_decoding(input@, size) is None,
{
    let mut out = Vec::new();
    let decoder = AsyncBrotliDecoder::new(Cursor::new(input));
    async_io::block_on(decoder.take(size as u64).read_to_end(&mut out))?;
    Ok(out)
}

/// The outcome of the decoder behind [`lz4_decoded`]: what it makes of its input, or
/// none where it reports a failure.
pub uninterp spec fn lz4_decoding(input: Seq<u8>, size: usize) -> Option<Seq<u8>>;

/// The first `size` bytes, or all, of what the decoder of `async_compression` makes of
/// `input` as an LZ4 frame.
pub open spec fn lz4_decoded(input: Seq<u8>, size: usize) -> Seq<u8> {
    lz4_decoding(input, size)->0
}

/// `async_compression::futures::bufread::Lz4Decoder`, made over `input`, and read until
/// it ends or has given `size` bytes: what was read, or the failure the decoder
/// reported.
#[verifier::external_body]
pub(crate) fn lz4_decode(input: &[u8], size: usize) -> (out: Result<Vec<u8>, std::io::Error>)
    ensures
        out matches Ok(bytes) ==> lz4_decoding(input@, size) == Some(bytes@)
            && bytes@.len() <= size,
        out is Err ==> lz4_decoding(input@, size) is None,
{
    let mut out = Vec::new();
    let decoder = AsyncLz4Decoder::new(Cursor::new(input));
    async_io::block_on(decoder.take(size as u64).read_to_end(&mut out))?;
    Ok(out)
}

/// The outcome of the encoder behind [`lzma2_encoded`]: what it makes of its input, or
/// none where it reports a failure.
pub uninterp spec fn lzma2_encoding(
    data: Seq<u8>,
    level: u32,
    dict_size: u32,
    lc: u32,
    lp: u32,
    pb: u32,
) -> Option<Seq<u8>>;

/// What the LZMA2 encoder of `lzma_rust2` makes of `data` with the preset `level`, a
/// dictionary of `dict_size` bytes and `lc`, `lp` and `pb` context and position bits.
pub open spec fn lzma2_encoded(
    data: Seq<u8>,
    level: u32,
    dict_size: u32,
    lc: u32,
    lp: u32,
    pb: u32,
) -> Seq<u8> {
    lzma2_encoding(data, level, dict_size, lc, lp, pb)->0
}

/// `lzma_rust2::Lzma2Writer`, made over a buffer in memory with the options of the
/// preset `level` in which the dictionary size and the bit counts are set as given,
/// given all of `data` and finished: what the buffer then holds, or the failure the
/// encoder reported.
#[verifier::external_body]
pub(crate) fn lzma2_encode(
    data: &[u8],
    level: u32,
    dict_size: u32,
    lc: u32,
    lp: u32,
    pb: u32,
) -> (out: Result<Vec<u8>, std::io::Error>)
    requires
        4096 <= dict_size <= 0x4000_0000,
        lc <= 8,
        lp <= 4,
        pb <= 4,
    ensures
        out matches Ok(bytes) ==> lzma2_encoding(
            data@,
            level,
            dict_size,
            lc,
            lp,
            pb,
        ) == Some(bytes@),
        out is Err ==> lzma2_encoding(data@, level, dict_size, lc, lp, pb) is None,
{
    let mut options = lzma_rust2::Lzma2Options::with_preset(level);
    options.lzma_options.dict_size = dict_size;
    options.lzma_options.lc = lc;
    options.lzma_options.lp = lp;
    options.lzma_options.pb = pb;
    let mut writer = Lzma2Writer::new(Vec::new(), options);
    writer.write_all(data)?;
    writer.finish()
}

/// The outcome of the encoder behind [`lzma2_mt_encoded`]: what it makes of its input,
/// or none where it reports a failure.
pub uninterp spec fn lzma2_mt_encoding(
    data: Seq<u8>,
    level: u32,
    dict_size: u32,
    chunk_size: u64,
    threads: u32,
) -> Option<Seq<u8>>;

/// What the LZMA2 encoder of `lzma_rust2` that works on `threads` threads makes of
/// `data`, cut into chunks of `chunk_size` bytes, with the preset `level` and a
/// dictionary of `dict_size` bytes.
pub open spec fn lzma2_mt_encoded(
    data: Seq<u8>,
    level: u32,
    dict_size: u32,
    chunk_size: u64,
    threads: u32,
) -> Seq<u8> {
    lzma2_mt_encoding(data, level, dict_size, chunk_size, threads)->0
}

/// `lzma_rust2::Lzma2WriterMt`, made over a buffer in memory with the options of the
/// preset `level` in which the dictionary size and the chunk size are set as given, and
/// with `threads` workers, given all of `data` and finished: what the buffer then
/// holds, or the failure the encoder reported when it was made or written. A chunk size
/// of 0 stands for none, which the encoder refuses.
#[verifier::external_body]
pub(crate) fn lzma2_mt_encode(
    data: &[u8],
    level: u32,
    dict_size: u32,
    chunk_size: u64,
    threads: u32,
) -> (out: Result<Vec<u8>, std::io::Error>)
    requires
        4096 <= dict_size <= 0x4000_0000,
        chunk_size <= 0x4000_0000,
    ensures
        out matches Ok(bytes) ==> lzma2_mt_encoding(
            data@,
            level,
            dict_size,
            chunk_size,
            threads,
        ) == Some(bytes@),
        out is Err ==> lzma2_mt_encoding(data@, level, dict_size, chunk_size, threads) is None,
{
    let mut options = lzma_rust2::Lzma2Options::with_preset(level);
    options.lzma_options.dict_size = dict_size;
    options.chunk_size = std::num::NonZeroU64::new(chunk_size);
    let mut writer = Lzma2WriterMt::new(Vec::new(), options, threads)?;
    writer.write_all(data)?;
    writer.finish()
}

/// The outcome of the encoder behind [`ppmd_encoded`]: what it makes of its input, or
/// none where it reports a failure.
pub uninterp spec fn ppmd_encoding(data: Seq<u8>, order: u32, memory_size: u32) -> Option<Seq<u8>>;

/// What the PPMd7 encoder of `ppmd_rust` makes of `data` with a model of the order
/// `order` in `memory_size` bytes, without an end marker.
pub open spec fn ppmd_encoded(data: Seq<u8>, order: u32, memory_size: u32) -> Seq<u8> {
    ppmd_encoding(data, order, memory_size)->0
}

/// `ppmd_rust::Ppmd7Encoder`, made over a buffer in memory with the order `order` and
/// the memory size `memory_size`, given all of `data` and finished without an end
/// marker: what the buffer then holds, or the failure the encoder reported when it was
/// made or written.
#[verifier::external_body]
pub(crate) fn ppmd_encode(
    data: &[u8],
    order: u32,
    memory_size: u32,
) -> (out: Result<Vec<u8>, std::io::Error>)
    ensures
        out matches Ok(bytes) ==> ppmd_encoding(data@, order, memory_size) == Some(bytes@),
        out is Err ==> ppmd_encoding(data@, order, memory_size) is None,
{
    let made = Ppmd7Encoder::new(Vec::new(), order, memory_size);
    let mut writer = made.map_err(std::io::Error::other)?;
    writer.write_all(data)?;
    writer.finish(false)
}

/// The outcome of the encoder behind [`bcj_x86_encoded`]: what it makes of its input,
/// or none where it reports a failure.
pub uninterp spec fn bcj_x86_encoding(data: Seq<u8>) -> Option<Seq<u8>>;

/// What the BCJ filter of `lzma_rust2` for x86 code, started at offset 0, makes of
/// `data` when it encodes.
pub open spec fn bcj_x86_encoded(data: Seq<u8>) -> Seq<u8> {
    bcj_x86_encoding(data)->0
}

/// `lzma_rust2::filter::bcj::BcjWriter::new_x86`, made over a buffer in memory at the
/// start offset 0, given all of `data` and finished: what the buffer then holds, or the
/// failure the encoder reported.
#[verifier::external_body]
pub(crate) fn bcj_x86_encode(data: &[u8]) -> (out: Result<Vec<u8>, std::io::Error>)
    ensures
        out matches Ok(bytes) ==> bcj_x86_encoding(data@) == Some(bytes@),
        out is Err ==> bcj_x86_encoding(data@) is None,
{
    let mut writer = BcjWriter::new_x86(Vec::new(), 0);
    writer.write_all(data)?;
    writer.finish()
}

/// The outcome of the encoder behind [`bcj_arm_encoded`]: what it makes of its input,
/// or none where it reports a failure.
pub uninterp spec fn bcj_arm_encoding(data: Seq<u8>) -> Option<Seq<u8>>;

/// What the BCJ filter of `lzma_rust2` for ARM code, started at offset 0, makes of
/// `data` when it encodes.
pub open spec fn bcj_arm_encoded(data: Seq<u8>) -> Seq<u8> {
    bcj_arm_encoding(data)->0
}

/// `lzma_rust2::filter::bcj::BcjWriter::new_arm`, made over a buffer in memory at the
/// start offset 0, given all of `data` and finished: what the buffer then holds, or the
/// failure the encoder reported.
#[verifier::external_body]
pub(crate) fn bcj_arm_encode(data: &[u8]) -> (out: Result<Vec<u8>, std::io::Error>)
    ensures
        out matches Ok(bytes) ==> bcj_arm_encoding(data@) == Some(bytes@),
        out is Err ==> bcj_arm_encoding(data@) is None,
{
    let mut writer = BcjWriter::new_arm(Vec::new(), 0);
    writer.write_all(data)?;
    writer.finish()
}

/// The outcome of the encoder behind [`bcj_arm64_encoded`]: what it makes of its input,
/// or none where it reports a failure.
pub uninterp spec fn bcj_arm64_encoding(data: Seq<u8>) -> Option<Seq<u8>>;

/// What the BCJ filter of `lzma_rust2` for ARM64 code, started at offset 0, makes of
/// `data` when it encodes.
pub open spec fn bcj_arm64_encoded(data: Seq<u8>) -> Seq<u8> {
    bcj_arm64_encoding(data)->0
}

/// `lzma_rust2::filter::bcj::BcjWriter::new_arm64`, made over a buffer in memory at the
/// start offset 0, given all of `data` and finished: what the buffer then holds, or the
/// failure the encoder reported.
#[verifier::external_body]
pub(crate) fn bcj_arm64_encode(data: &[u8]) -> (out: Result<Vec<u8>, std::io::Error>)
    ensures
        out matches Ok(bytes) ==> bcj_arm64_encoding(data@) == Some(bytes@),
        out is Err ==> bcj_arm64_encoding(data@) is None,
{
    let mut writer = BcjWriter::new_arm64(Vec::new(), 0);
    writer.write_all(data)?;
    writer.finish()
}

/// The outcome of the encoder behind [`bcj_arm_thumb_encoded`]: what it makes of its
/// input, or none where it reports a failure.
pub uninterp spec fn bcj_arm_thumb_encoding(data: Seq<u8>) -> Option<Seq<u8>>;

/// What the BCJ filter of `lzma_rust2` for ARM Thumb code, started at offset 0, makes
/// of `data` when it encodes.
pub open spec fn bcj_arm_thumb_encoded(data: Seq<u8>) -> Seq<u8> {
    bcj_arm_thumb_encoding(data)->0
}

/// `lzma_rust2::filter::bcj::BcjWriter::new_arm_thumb`, made over a buffer in memory at
/// the start offset 0, given all of `data` and finished: what the buffer then holds, or
/// the failure the encoder reported.
#[verifier::external_body]
pub(crate) fn bcj_arm_thumb_encode(data: &[u8]) -> (out: Result<Vec<u8>, std::io::Error>)
    ensures
        out matches Ok(bytes) ==> bcj_arm_thumb_encoding(data@) == Some(bytes@),
        out is Err ==> bcj_arm_thumb_encoding(data@) is None,
{
    let mut writer = BcjWriter::new_arm_thumb(Vec::new(), 0);
    writer.write_all(data)?;
    writer.finish()
}

/// The outcome of the encoder behind [`bcj_ppc_encoded`]: what it makes of its input,
/// or none where it reports a failure.
pub uninterp spec fn bcj_ppc_encoding(data: Seq<u8>) -> Option<Seq<u8>>;

/// What the BCJ filter of `lzma_rust2` for PowerPC code, started at offset 0, makes of
/// `data` when it encodes.
pub open spec fn bcj_ppc_encoded(data: Seq<u8>) -> Seq<u8> {
    bcj_ppc_encoding(data)->0
}

/// `lzma_rust2::filter::bcj::BcjWriter::new_ppc`, made over a buffer in memory at the
/// start offset 0, given all of `data` and finished: what the buffer then holds, or the
/// failure the encoder reported.
#[verifier::external_body]
pub(crate) fn bcj_ppc_encode(data: &[u8]) -> (out: Result<Vec<u8>, std::io::Error>)
    ensures
        out matches Ok(bytes) ==> bcj_ppc_encoding(data@) == Some(bytes@),
        out is Err ==> bcj_ppc_encoding(data@) is None,
{
    let mut writer = BcjWriter::new_ppc(Vec::new(), 0);
    writer.write_all(data)?;
    writer.finish()
}

/// The outcome of the encoder behind [`bcj_sparc_encoded`]: what it makes of its input,
/// or none where it reports a failure.
pub uninterp spec fn bcj_sparc_encoding(data: Seq<u8>) -> Option<Seq<u8>>;

/// What the BCJ filter of `lzma_rust2` for SPARC code, started at offset 0, makes of
/// `data` when it encodes.
pub open spec fn bcj_sparc_encoded(data: Seq<u8>) -> Seq<u8> {
    bcj_sparc_encoding(data)->0
}

/// `lzma_rust2::filter::bcj::BcjWriter::new_sparc`, made over a buffer in memory at the
/// start offset 0, given all of `data` and finished: what the buffer then holds, or the
/// failure the encoder reported.
#[verifier::external_body]
pub(crate) fn bcj_sparc_encode(data: &[u8]) -> (out: Result<Vec<u8>, std::io::Error>)
    ensures
        out matches Ok(bytes) ==> bcj_sparc_encoding(data@) == Some(bytes@),
        out is Err ==> bcj_sparc_encoding(data@) is None,
{
    let mut writer = BcjWriter::new_sparc(Vec::new(), 0);
    writer.write_all(data)?;
    writer.finish()
}

/// The outcome of the encoder behind [`bcj_ia64_encoded`]: what it makes of its input,
/// or none where it reports a failure.
pub uninterp spec fn bcj_ia64_encoding(data: Seq<u8>) -> Option<Seq<u8>>;

/// What the BCJ filter of `lzma_rust2` for IA-64 code, started at offset 0, makes of
/// `data` when it encodes.
pub open spec fn bcj_ia64_encoded(data: Seq<u8>) -> Seq<u8> {
    bcj_ia64_encoding(data)->0
}

/// `lzma_rust2::filter::bcj::BcjWriter::new_ia64`, made over a buffer in memory at the
/// start offset 0, given all of `data` and finished: what the buffer then holds, or the
/// failure the encoder reported.
#[verifier::external_body]
pub(crate) fn bcj_ia64_encode(data: &[u8]) -> (out: Result<Vec<u8>, std::io::Error>)
    ensures
        out matches Ok(bytes) ==> bcj_ia64_encoding(data@) == Some(bytes@),
        out is Err ==> bcj_ia64_encoding(data@) is None,
{
    let mut writer = BcjWriter::new_ia64(Vec::new(), 0);
    writer.write_all(data)?;
    writer.finish()
}

/// The outcome of the encoder behind [`bcj_riscv_encoded`]: what it makes of its input,
/// or none where it reports a failure.
pub uninterp spec fn bcj_riscv_encoding(data: Seq<u8>) -> Option<Seq<u8>>;

/// What the BCJ filter of `lzma_rust2` for RISC-V code, started at offset 0, makes of
/// `data` when it encodes.
pub open spec fn bcj_riscv_encoded(data: Seq<u8>) -> Seq<u8> {
    bcj_riscv_encoding(data)->0
}

/// `lzma_rust2::filter::bcj::BcjWriter::new_riscv`, made over a buffer in memory at the
/// start offset 0, given all of `data` and finished: what the buffer then holds, or the
/// failure the encoder reported.
#[verifier::external_body]
pub(crate) fn bcj_riscv_encode(data: &[u8]) -> (out: Result<Vec<u8>, std::io::Error>)
    ensures
        out matches Ok(bytes) ==> bcj_riscv_encoding(data@) == Some(bytes@),
        out is Err ==> bcj_riscv_encoding(data@) is None,
{
    let mut writer = BcjWriter::new_riscv(Vec::new(), 0);
    writer.write_all(data)?;
    writer.finish()
}

/// The outcome of the encoder behind [`delta_encoded`]: what it makes of its input, or
/// none where it reports a failure.
pub uninterp spec fn delta_encoding(data: Seq<u8>, distance: usize) -> Option<Seq<u8>>;

/// What the delta filter of `lzma_rust2` with the distance `distance` makes of `data`
/// when it encodes.
pub open spec fn delta_encoded(data: Seq<u8>, distance: usize) -> Seq<u8> {
    delta_encoding(data, distance)->0
}

/// `lzma_rust2::filter::delta::DeltaWriter`, made over a buffer in memory with the
/// distance `distance` and given all of `data`: what the buffer then holds, or the
/// failure the filter reported.
#[verifier::external_body]
pub(crate) fn delta_encode(data: &[u8], distance: usize) -> (out: Result<Vec<u8>, std::io::Error>)
    ensures
        out matches Ok(bytes) ==> delta_encoding(data@, distance) == Some(bytes@),
        out is Err ==> delta_encoding(data@, distance) is None,
{
    let mut writer = DeltaWriter::new(Vec::new(), distance);
    writer.write_all(data)?;
    Ok(writer.into_inner())
}

/// The outcome of the encoder behind [`lzma_encoded`]: what it makes of its input, or
/// none where it reports a failure.
pub uninterp spec fn lzma_encoding(data: Seq<u8>, level: u32) -> Option<Seq<u8>>;

/// What the encoder of `async_compression` makes of `data` as an LZMA stream with its
/// header of 13 bytes, at the preset `level`.
pub open spec fn lzma_encoded(data: Seq<u8>, level: u32) -> Seq<u8> {
    lzma_encoding(data, level)->0
}

/// `async_compression::futures::write::LzmaEncoder`, made over a buffer in memory with
/// `Level::Precise(level)`, which stands for one of the presets 0 to 9, given all of
/// `data` and closed: what the buffer then holds, or the failure the encoder reported.
#[verifier::external_body]
pub(crate) fn lzma_encode(data: &[u8], level: u32) -> (out: Result<Vec<u8>, std::io::Error>)
    ensures
        out matches Ok(bytes) ==> lzma_encoding(data@, level) == Some(bytes@),
        out is Err ==> lzma_encoding(data@, level) is None,
{
    let quality = Level::Precise(level as i32);
    let mut encoder = AsyncLzmaEncoder::with_quality(Cursor::new(Vec::new()), quality);
    async_io::block_on(encoder.write_all(data))?;
    async_io::block_on(encoder.close())?;
    Ok(encoder.into_inner().into_inner())
}

/// The outcome of the encoder behind [`bzip2_encoded`]: what it makes of its input, or
/// none where it reports a failure.
pub uninterp spec fn bzip2_encoding(data: Seq<u8>, level: u32) -> Option<Seq<u8>>;

/// What the encoder of `async_compression` makes of `data` as a bzip2 stream at the
/// level `level`.
pub open spec fn bzip2_encoded(data: Seq<u8>, level: u32) -> Seq<u8> {
    bzip2_encoding(data, level)->0
}

/// `async_compression::futures::write::BzEncoder`, made over a buffer in memory with
/// `Level::Precise(level)`, given all of `data` and closed: what the buffer then holds,
/// or the failure the encoder reported.
#[verifier::external_body]
pub(crate) fn bzip2_encode(data: &[u8], level: u32) -> (out: Result<Vec<u8>, std::io::Error>)
    ensures
        out matches Ok(bytes) ==> bzip2_encoding(data@, level) == Some(bytes@),
        out is Err ==> bzip2_encoding(data@, level) is None,
{
    let quality = Level::Precise(level as i32);
    let mut encoder = AsyncBzEncoder::with_quality(Cursor::new(Vec::new()), quality);
    async_io::block_on(encoder.write_all(data))?;
    async_io::block_on(encoder.close())?;
    Ok(encoder.into_inner().into_inner())
}

/// The outcome of the encoder behind [`deflate_encoded`]: what it makes of its input,
/// or none where it reports a failure.
pub uninterp spec fn deflate_encoding(data: Seq<u8>, level: u32) -> Option<Seq<u8>>;

/// What the encoder of `async_compression` makes of `data` as a raw deflate stream at
/// the level `level`.
pub open spec fn deflate_encoded(data: Seq<u8>, level: u32) -> Seq<u8> {
    deflate_encoding(data, level)->0
}

/// `async_compression::futures::write::DeflateEncoder`, made over a buffer in memory
/// with `Level::Precise(level)`, given all of `data` and closed: what the buffer then
/// holds, or the failure the encoder reported.
#[verifier::external_body]
pub(crate) fn deflate_encode(data: &[u8], level: u32) -> (out: Result<Vec<u8>, std::io::Error>)
    ensures
        out matches Ok(bytes) ==> deflate_encoding(data@, level) == Some(bytes@),
        out is Err ==> deflate_encoding(data@, level) is None,
{
    let quality = Level::Precise(level as i32);
    let mut encoder = AsyncDeflateEncoder::with_quality(Cursor::new(Vec::new()), quality);
    async_io::block_on(encoder.write_all(data))?;
    async_io::block_on(encoder.close())?;
    Ok(encoder.into_inner().into_inner())
}

/// The outcome of the encoder behind [`zstd_encoded`]: what it makes of its input, or
/// none where it reports a failure.
pub uninterp spec fn zstd_encoding(data: Seq<u8>, level: u32) -> Option<Seq<u8>>;

/// What the encoder of `async_compression` makes of `data` as a Zstandard frame at the
/// level `level`.
pub open spec fn zstd_encoded(data: Seq<u8>, level: u32) -> Seq<u8> {
    zstd_encoding(data, level)->0
}

/// `async_compression::futures::write::ZstdEncoder`, made over a buffer in memory with
/// `Level::Precise(level)`, given all of `data` and closed: what the buffer then holds,
/// or the failure the encoder reported.
#[verifier::external_body]
pub(crate) fn zstd_encode(data: &[u8], level: u32) -> (out: Result<Vec<u8>, std::io::Error>)
    ensures
        out matches Ok(bytes) ==> zstd_encoding(data@, level) == Some(bytes@),
        out is Err ==> zstd_encoding(data@, level) is None,
{
    let quality = Level::Precise(level as i32);
    let mut encoder = AsyncZstdEncoder::with_quality(Cursor::new(Vec::new()), quality);
    async_io::block_on(encoder.write_all(data))?;
    async_io::block_on(encoder.close())?;
    Ok(encoder.into_inner().into_inner())
}

} // verus!
