//! The encoder of each method: the properties that it writes into the archive, the
//! order in which a chain of encoders is finished, and what it makes of its input.

use vstd::prelude::*;

use crate::aes::{aes_key, sealed, Aes256Sha256Encoder};
use crate::brotli::BrotliEncoder;
use crate::codec::{
    bcj_arm64_encode, bcj_arm64_encoded, bcj_arm64_encoding, bcj_arm_encode, bcj_arm_encoded,
    bcj_arm_encoding, bcj_arm_thumb_encode, bcj_arm_thumb_encoded, bcj_arm_thumb_encoding,
    bcj_ia64_encode, bcj_ia64_encoded, bcj_ia64_encoding, bcj_ppc_encode, bcj_ppc_encoded,
    bcj_ppc_encoding, bcj_riscv_encode, bcj_riscv_encoded, bcj_riscv_encoding, bcj_sparc_encode,
    bcj_sparc_encoded, bcj_sparc_encoding, bcj_x86_encode, bcj_x86_encoded, bcj_x86_encoding,
    bzip2_encode, bzip2_encoded, bzip2_encoding, deflate_encode, deflate_encoded, deflate_encoding,
    delta_encode, delta_encoded, delta_encoding, lzma2_encode, lzma2_encoded, lzma2_encoding,
    lzma2_mt_encode, lzma2_mt_encoded, lzma2_mt_encoding, lzma_encode, lzma_encoded, lzma_encoding,
    ppmd_encode, ppmd_encoded, ppmd_encoding, zstd_encode, zstd_encoded, zstd_encoding,
};
use crate::decoder::{
    lemma_lzma2_dict_size_grows, lzma2_dict_size, lzma2_dict_size_of_bits, ppmd7_max_mem_size,
    ppmd7_max_order, ppmd7_min_mem_size, ppmd7_min_order,
};
use crate::error::Error;
use crate::frame::{Codec, InnerWriter};
use crate::frames::{
    codec_result, data_encoded, data_encodes, data_framed, data_frames, encode_rest,
    is_codec_failure, is_frame_failure, writer_output, writer_takes,
};
use crate::le::{le_bytes, u32_to_le};
use crate::lz4::Lz4Encoder;
use crate::method::{BcjArch, EncoderMethod};
use crate::options::{
    aes_properties, BrotliOptions, Bzip2Options, DeflateOptions, DeltaOptions, EncoderConfiguration,
    EncoderOptions, Lz4Options, Lzma2Options, LzmaOptions, PpmdOptions, ZstandardOptions,
};

verus! {

/// The length of the header that an LZMA stream of the `.lzma` format starts with and
/// that a 7z archive does not store.
pub const LZMA_HEADER_LEN: usize = 13;

/// A sink that drops the first 13 bytes written to it and passes the rest on.
pub struct StripLzmaHeaderWrite<W> {
    inner: W,
    offset: usize,
}

impl<W> StripLzmaHeaderWrite<W> {
    /// No more than the 13 header bytes are ever dropped.
    pub closed spec fn wf(&self) -> bool {
        self.offset <= LZMA_HEADER_LEN
    }

    /// The sink inside.
    pub closed spec fn inner(self) -> W {
        self.inner
    }

    /// The number of header bytes dropped so far.
    pub closed spec fn dropped(&self) -> usize {
        self.offset
    }

    /// Wraps `inner`; nothing has been dropped yet.
    pub fn new(inner: W) -> (writer: StripLzmaHeaderWrite<W>)
        ensures
            writer.wf(),
            writer.inner() == inner,
            writer.dropped() == 0,
    {
        StripLzmaHeaderWrite { inner, offset: 0 }
    }

    /// Hands the sink back.
    pub fn into_inner(self) -> (inner: W)
        ensures
            inner == self.inner(),
    {
        self.inner
    }

    /// The sink inside, to be written to.
    pub fn get_mut(&mut self) -> (inner: &mut W)
        ensures
            *inner == old(self).inner(),
            final(self).inner() == *final(inner),
            final(self).dropped() == old(self).dropped(),
    {
        &mut self.inner
    }

    /// Takes a write of `len` bytes and returns how many of its first bytes are
    /// dropped as header: as many as are still missing from the 13, and no more than
    /// the write has. The rest of the write goes on to the sink inside.
    pub fn poll_write(&mut self, len: usize) -> (skip: usize)
        requires
            old(self).wf(),
        ensures
            final(self).wf(),
            final(self).inner() == old(self).inner(),
            skip == if len <= LZMA_HEADER_LEN - old(self).dropped() {
                len as int
            } else {
                LZMA_HEADER_LEN - old(self).dropped()
            },
            final(self).dropped() == old(self).dropped() + skip,
    {
        if self.offset < LZMA_HEADER_LEN {
            let skip: usize = LZMA_HEADER_LEN - self.offset;
            if len <= skip {
                self.offset = self.offset + len;
                return len;
            } else {
                self.offset = LZMA_HEADER_LEN;
                return skip;
            }
        }
        0
    }
}

/// The dictionary size that the property byte `bits` of an LZMA2 coder declares: the
/// byte 40 declares all that 32 bits can count.
pub open spec fn declared_dict_size(bits: u8) -> u32 {
    if bits >= 40 {
        0xFFFF_FFFFu32
    } else {
        lzma2_dict_size(bits)
    }
}

/// Whether `bits` is the property byte that declares the smallest dictionary not
/// below `dict_size`, so that a decoder holds no less than the encoder looked back.
pub open spec fn is_lzma2_dict_bits(dict_size: u32, bits: u8) -> bool {
    &&& bits <= 40
    &&& declared_dict_size(bits) >= dict_size
    &&& bits > 0 ==> declared_dict_size((bits - 1) as u8) < dict_size
}

/// The property byte of an LZMA2 coder with a dictionary of `dict_size` bytes.
pub open spec fn lzma2_dict_bits(dict_size: u32) -> u8 {
    choose|bits: u8| is_lzma2_dict_bits(dict_size, bits)
}

/// The dictionary sizes that property bytes declare grow with the byte.
pub proof fn lemma_lzma2_dict_size_ordered(low: u8, high: u8)
    requires
        low <= high <= 40,
    ensures
        declared_dict_size(low) <= declared_dict_size(high),
        low < high ==> declared_dict_size(low) < declared_dict_size(high),
    decreases high - low,
{
    if low < high {
        lemma_lzma2_dict_size_ordered(low, (high - 1) as u8);
        if high == 40 {
            assert(((2u32 | (39u8 as u32 & 1u32)) << ((39u8 / 2 + 11) as u32)) < 0xFFFF_FFFFu32)
                by (bit_vector);
        } else {
            lemma_lzma2_dict_size_grows((high - 1) as u8);
        }
    }
}

/// At most one property byte declares the smallest dictionary not below a size.
pub proof fn lemma_lzma2_dict_bits_unique(dict_size: u32, a: u8, b: u8)
    requires
        is_lzma2_dict_bits(dict_size, a),
        is_lzma2_dict_bits(dict_size, b),
    ensures
        a == b,
{
    if a < b {
        lemma_lzma2_dict_size_ordered(a, (b - 1) as u8);
    } else if b < a {
        lemma_lzma2_dict_size_ordered(b, (a - 1) as u8);
    }
}

/// A dictionary size that a property byte declares is written as that byte, so that
/// a decoder reads back the size that the encoder used.
pub proof fn lemma_lzma2_dict_bits_round_trip(bits: u8)
    requires
        bits <= 40,
    ensures
        lzma2_dict_bits(declared_dict_size(bits)) == bits,
{
    if bits > 0 {
        lemma_lzma2_dict_size_ordered((bits - 1) as u8, bits);
    }
    assert(is_lzma2_dict_bits(declared_dict_size(bits), bits));
    lemma_lzma2_dict_bits_unique(
        declared_dict_size(bits),
        bits,
        lzma2_dict_bits(declared_dict_size(bits)),
    );
}

/// The dictionary that the property byte of a size declares to a decoder is never
/// smaller than the size.
pub proof fn lemma_declared_dictionary_is_large_enough(dict_size: u32)
    ensures
        is_lzma2_dict_bits(dict_size, lzma2_dict_bits(dict_size)),
        crate::decoder::lzma2_dic_size_of(seq![lzma2_dict_bits(dict_size)]) matches Ok(declared)
            && declared >= dict_size,
{
    lemma_lzma2_dict_bits_exist(dict_size, 40);
}

/// Some property byte up to `upto` declares the smallest dictionary not below
/// `dict_size`, where the byte `upto` declares one that is not below it.
proof fn lemma_lzma2_dict_bits_exist(dict_size: u32, upto: u8)
    requires
        upto <= 40,
        declared_dict_size(upto) >= dict_size,
    ensures
        exists|bits: u8| is_lzma2_dict_bits(dict_size, bits),
    decreases upto,
{
    if upto > 0 && declared_dict_size((upto - 1) as u8) >= dict_size {
        lemma_lzma2_dict_bits_exist(dict_size, (upto - 1) as u8);
    } else {
        assert(is_lzma2_dict_bits(dict_size, upto));
    }
}

/// The property byte of an LZMA2 coder with a dictionary of `dict_size` bytes: the
/// one that declares the smallest dictionary not below `dict_size`.
pub fn get_lzma2_dict_bits(dict_size: u32) -> (bits: u8)
    ensures
        is_lzma2_dict_bits(dict_size, bits),
        bits == lzma2_dict_bits(dict_size),
{
    let mut bits: u8 = 0;
    while bits < 40 && lzma2_dict_size_of_bits(bits) < dict_size
        invariant
            bits <= 40,
            bits > 0 ==> declared_dict_size((bits - 1) as u8) < dict_size,
        decreases 40 - bits,
    {
        bits += 1;
    }
    proof {
        lemma_declared_dictionary_is_large_enough(dict_size);
        lemma_lzma2_dict_bits_unique(dict_size, bits, lzma2_dict_bits(dict_size));
    }
    bits
}

/// The property bytes that a coder of `method` with `options` stores in the archive;
/// options of another method count as none, and without options the defaults of the
/// method are taken. An LZMA coder declares the larger of the dictionary of its
/// options and that of its preset, which its encoder works with.
pub open spec fn options_properties(method: EncoderMethod, options: Option<EncoderOptions>) -> Seq<
    u8,
> {
    match method {
        EncoderMethod::Delta => {
            let distance = match options {
                Some(EncoderOptions::Delta(o)) => o.0,
                _ => 1u32,
            };
            seq![
                (if distance == 0 {
                    0
                } else {
                    (distance - 1) % 256
                }) as u8,
            ]
        },
        EncoderMethod::Lzma2 => {
            let dict_size = match options {
                Some(EncoderOptions::Lzma2(o)) => o.options.spec_dict_size(),
                _ => 0x80_0000u32,
            };
            seq![lzma2_dict_bits(dict_size)]
        },
        EncoderMethod::Lzma => {
            match options {
                Some(EncoderOptions::Lzma(o)) => seq![o.spec_props()] + le_bytes(
                    o.spec_declared_dict() as nat,
                    4,
                ),
                _ => seq![93u8] + le_bytes(0x80_0000, 4),
            }
        },
        EncoderMethod::Ppmd => {
            let (order, memory_size) = match options {
                Some(EncoderOptions::Ppmd(o)) => (o.order, o.memory_size),
                _ => (6u32, 0x100_0000u32),
            };
            seq![(order % 256) as u8] + le_bytes(memory_size as nat, 4)
        },
        EncoderMethod::Brotli => {
            let quality = match options {
                Some(EncoderOptions::Brotli(o)) => o.quality,
                _ => 11u32,
            };
            seq![1u8, 0u8, (quality % 256) as u8]
        },
        EncoderMethod::Lz4 => seq![1u8, 0u8, 3u8],
        EncoderMethod::Zstd => {
            let level = match options {
                Some(EncoderOptions::Zstd(o)) => o.0,
                _ => 3u32,
            };
            seq![1u8, 0u8, (level % 256) as u8]
        },
        EncoderMethod::Aes256Sha256 => match options {
            Some(EncoderOptions::Aes(o)) => aes_properties(o),
            _ => Seq::<u8>::empty(),
        },
        _ => Seq::<u8>::empty(),
    }
}

/// The property bytes are at most 34.
pub proof fn lemma_options_properties_len(method: EncoderMethod, options: Option<EncoderOptions>)
    ensures
        options_properties(method, options).len() <= 34,
{
    crate::le::lemma_le_bytes_len(0x80_0000, 4);
    match options {
        Some(EncoderOptions::Lzma(o)) => {
            crate::le::lemma_le_bytes_len(o.spec_declared_dict() as nat, 4);
        },
        Some(EncoderOptions::Ppmd(o)) => {
            crate::le::lemma_le_bytes_len(o.memory_size as nat, 4);
        },
        _ => {},
    }
    crate::le::lemma_le_bytes_len(0x100_0000, 4);
}

/// Writes the property bytes of a coder of `method` with `options` to the start of
/// `out` and returns them; `out` behind them stays as it was. The buffer has to hold
/// the bytes of the method: none to five for most, 34 for AES.
pub fn get_options_as_properties<'a>(
    method: EncoderMethod,
    options: Option<&EncoderOptions>,
    out: &'a mut [u8],
) -> (properties: &'a [u8])
    requires
        old(out).len() >= options_properties(
            method,
            match options {
                Some(o) => Some(*o),
                None => None,
            },
        ).len(),
        options matches Some(o) ==> o.wf(),
    ensures
        properties@ == options_properties(
            method,
            match options {
                Some(o) => Some(*o),
                None => None,
            },
        ),
        final(out)@.len() == old(out)@.len(),
        final(out)@.take(properties@.len() as int) == properties@,
        final(out)@.skip(properties@.len() as int) == old(out)@.skip(properties@.len() as int),
{
    proof {
        crate::le::lemma_le_bytes_len(0x80_0000, 4);
        crate::le::lemma_le_bytes_len(0x100_0000, 4);
        match options {
            Some(EncoderOptions::Lzma(o)) => {
                crate::le::lemma_le_bytes_len(o.spec_declared_dict() as nat, 4);
            },
            Some(EncoderOptions::Ppmd(o)) => {
                crate::le::lemma_le_bytes_len(o.memory_size as nat, 4);
            },
            _ => {},
        }
    }
    match method {
        EncoderMethod::Delta => {
            let options: DeltaOptions = match options {
                Some(EncoderOptions::Delta(o)) => *o,
                _ => DeltaOptions::default(),
            };
            let less: u32 = if options.0 == 0 {
                0
            } else {
                options.0 - 1
            };
            out[0] = (less % 256) as u8;
            let properties = &out[0..1];
            assert(properties@ =~= seq![(less % 256) as u8]);
            properties
        },
        EncoderMethod::Lzma2 => {
            let options: Lzma2Options = match options {
                Some(EncoderOptions::Lzma2(o)) => *o,
                _ => Lzma2Options::default(),
            };
            let dict_size: u32 = options.options.dict_size();
            out[0] = get_lzma2_dict_bits(dict_size);
            let properties = &out[0..1];
            assert(properties@ =~= seq![lzma2_dict_bits(dict_size)]);
            properties
        },
        EncoderMethod::Lzma => {
            let options: LzmaOptions = match options {
                Some(EncoderOptions::Lzma(o)) => *o,
                _ => LzmaOptions::default(),
            };
            let dict_size: u32 = options.declared_dict();
            let props: u8 = options.get_props();
            let bytes = u32_to_le(dict_size);
            proof {
                crate::le::lemma_le_bytes_len(dict_size as nat, 4);
            }
            out[0] = props;
            out[1] = bytes[0];
            out[2] = bytes[1];
            out[3] = bytes[2];
            out[4] = bytes[3];
            let properties = &out[0..5];
            assert(properties@ =~= seq![props] + le_bytes(dict_size as nat, 4));
            properties
        },
        EncoderMethod::Ppmd => {
            let options: PpmdOptions = match options {
                Some(EncoderOptions::Ppmd(o)) => *o,
                _ => PpmdOptions::default(),
            };
            let bytes = u32_to_le(options.memory_size);
            proof {
                crate::le::lemma_le_bytes_len(options.memory_size as nat, 4);
            }
            out[0] = (options.order % 256) as u8;
            out[1] = bytes[0];
            out[2] = bytes[1];
            out[3] = bytes[2];
            out[4] = bytes[3];
            let properties = &out[0..5];
            assert(properties@ =~= seq![(options.order % 256) as u8] + le_bytes(
                options.memory_size as nat,
                4,
            ));
            properties
        },
        EncoderMethod::Brotli => {
            let options: BrotliOptions = match options {
                Some(EncoderOptions::Brotli(o)) => *o,
                _ => BrotliOptions::default(),
            };
            out[0] = 1;
            out[1] = 0;
            out[2] = (options.quality % 256) as u8;
            let properties = &out[0..3];
            assert(properties@ =~= seq![1u8, 0u8, (options.quality % 256) as u8]);
            properties
        },
        EncoderMethod::Lz4 => {
            out[0] = 1;
            out[1] = 0;
            out[2] = 3;
            let properties = &out[0..3];
            assert(properties@ =~= seq![1u8, 0u8, 3u8]);
            properties
        },
        EncoderMethod::Zstd => {
            let options: ZstandardOptions = match options {
                Some(EncoderOptions::Zstd(o)) => *o,
                _ => ZstandardOptions::default(),
            };
            out[0] = 1;
            out[1] = 0;
            out[2] = (options.0 % 256) as u8;
            let properties = &out[0..3];
            assert(properties@ =~= seq![1u8, 0u8, (options.0 % 256) as u8]);
            properties
        },
        EncoderMethod::Aes256Sha256 => {
            match options {
                Some(EncoderOptions::Aes(o)) => {
                    o.write_properties(out);
                    let properties = &out[0..34];
                    assert(properties@ =~= aes_properties(*o));
                    properties
                },
                _ => {
                    let properties = &out[0..0];
                    assert(properties@ =~= Seq::<u8>::empty());
                    properties
                },
            }
        },
        _ => {
            let properties = &out[0..0];
            assert(properties@ =~= Seq::<u8>::empty());
            properties
        },
    }
}

/// What the one who drives an encoder has to do with the codec behind it.
#[derive(Clone, Copy, Debug, PartialEq, Eq, Structural)]
pub enum EncoderAction {
    /// The bytes of the write go to the codec.
    Write,
    /// The codec is finished: it writes its trailer and gives up its sink. The
    /// encoder is closed from now on.
    Finish,
    /// The codec is flushed.
    Flush,
    /// The codec is closed, and its sink with it.
    Close,
    /// The encoder is closed, or has nothing to do: nothing happens.
    Nothing,
}

/// The encoder that one coder of a chain calls for, with all that is needed to set
/// it up over the coder's sink, and the mark of whether it is still open.
///
/// A codec that writes a trailer owes it before its sink is asked how many bytes it
/// took: such an encoder is finished by a write of no bytes or by a close, and
/// takes nothing after that.
#[allow(inconsistent_fields)]
pub enum Encoder {
    /// The input is the output.
    Copy,
    /// The BCJ filter of one architecture, started at offset 0.
    Bcj { arch: BcjArch, open: bool },
    /// The delta filter.
    Delta { distance: usize },
    /// LZMA, without the 13-byte header of its stream.
    Lzma { options: LzmaOptions, open: bool },
    /// LZMA2 on one thread.
    Lzma2 { options: Lzma2Options, open: bool },
    /// LZMA2 on several threads.
    Lzma2Mt { options: Lzma2Options, open: bool },
    /// PPMd in the variant of 7z.
    Ppmd { options: PpmdOptions, open: bool },
    /// Brotli, in skippable frames where a frame size is set.
    Brotli(BrotliEncoder),
    Bzip2 { level: u32, open: bool },
    Deflate { level: u32, open: bool },
    /// LZ4, in skippable frames where a frame size is set.
    Lz4 { encoder: Lz4Encoder, open: bool },
    Zstd { level: u32, open: bool },
    /// AES-256 with a key derived by SHA-256.
    Aes(Aes256Sha256Encoder),
}

impl Encoder {
    /// The encoders inside are well formed.
    pub open spec fn wf(&self) -> bool {
        match self {
            Encoder::Brotli(encoder) => encoder.inner.wf(),
            Encoder::Lz4 { encoder, .. } => encoder.inner.wf(),
            Encoder::Aes(encoder) => encoder.wf(),
            Encoder::Lzma { options, .. } => options.wf(),
            Encoder::Lzma2 { options, .. } => options.wf(),
            Encoder::Lzma2Mt { options, .. } => options.wf(),
            _ => true,
        }
    }

    /// Whether the encoder still takes bytes. An encoder without a trailer of its own
    /// is always open.
    pub open spec fn is_open(&self) -> bool {
        match self {
            Encoder::Bcj { open, .. } => *open,
            Encoder::Lzma { open, .. } => *open,
            Encoder::Lzma2 { open, .. } => *open,
            Encoder::Lzma2Mt { open, .. } => *open,
            Encoder::Ppmd { open, .. } => *open,
            Encoder::Bzip2 { open, .. } => *open,
            Encoder::Deflate { open, .. } => *open,
            Encoder::Lz4 { open, .. } => *open,
            Encoder::Zstd { open, .. } => *open,
            _ => true,
        }
    }

    /// Whether the codec is finished by a write of no bytes.
    pub open spec fn finishes_on_empty_write(&self) -> bool {
        !(self is Copy || self is Delta || self is Brotli || self is Aes)
    }

    /// Whether a close finishes the codec by itself, rather than closing it together
    /// with its sink.
    pub open spec fn finishes_on_close(&self) -> bool {
        self is Bcj || self is Lzma2 || self is Lzma2Mt || self is Ppmd || self is Lz4 || self is Aes
    }

    /// This encoder, closed.
    pub open spec fn closed(self) -> Encoder {
        match self {
            Encoder::Bcj { arch, .. } => Encoder::Bcj { arch, open: false },
            Encoder::Lzma { options, .. } => Encoder::Lzma { options, open: false },
            Encoder::Lzma2 { options, .. } => Encoder::Lzma2 { options, open: false },
            Encoder::Lzma2Mt { options, .. } => Encoder::Lzma2Mt { options, open: false },
            Encoder::Ppmd { options, .. } => Encoder::Ppmd { options, open: false },
            Encoder::Bzip2 { level, .. } => Encoder::Bzip2 { level, open: false },
            Encoder::Deflate { level, .. } => Encoder::Deflate { level, open: false },
            Encoder::Lz4 { encoder, .. } => Encoder::Lz4 { encoder, open: false },
            Encoder::Zstd { level, .. } => Encoder::Zstd { level, open: false },
            other => other,
        }
    }

    /// Whether the encoder still takes bytes.
    pub fn open(&self) -> (open: bool)
        ensures
            open == self.is_open(),
    {
        match self {
            Encoder::Bcj { open, .. } => *open,
            Encoder::Lzma { open, .. } => *open,
            Encoder::Lzma2 { open, .. } => *open,
            Encoder::Lzma2Mt { open, .. } => *open,
            Encoder::Ppmd { open, .. } => *open,
            Encoder::Bzip2 { open, .. } => *open,
            Encoder::Deflate { open, .. } => *open,
            Encoder::Lz4 { open, .. } => *open,
            Encoder::Zstd { open, .. } => *open,
            _ => true,
        }
    }

    /// Marks the encoder as closed.
    fn close(&mut self)
        ensures
            *final(self) == old(self).closed(),
    {
        match self {
            Encoder::Bcj { open, .. } => {
                *open = false;
            },
            Encoder::Lzma { open, .. } => {
                *open = false;
            },
            Encoder::Lzma2 { open, .. } => {
                *open = false;
            },
            Encoder::Lzma2Mt { open, .. } => {
                *open = false;
            },
            Encoder::Ppmd { open, .. } => {
                *open = false;
            },
            Encoder::Bzip2 { open, .. } => {
                *open = false;
            },
            Encoder::Deflate { open, .. } => {
                *open = false;
            },
            Encoder::Lz4 { open, .. } => {
                *open = false;
            },
            Encoder::Zstd { open, .. } => {
                *open = false;
            },
            _ => {},
        }
    }

    /// What a write of `len` bytes does: a closed encoder takes nothing; a write of no
    /// bytes finishes a codec that owes a trailer; any other write goes to the codec.
    pub fn poll_write(&mut self, len: usize) -> (action: EncoderAction)
        ensures
            !old(self).is_open() ==> action == EncoderAction::Nothing && *final(self) == *old(self),
            old(self).is_open() && len == 0 && old(self).finishes_on_empty_write() ==> action
                == EncoderAction::Finish && *final(self) == old(self).closed(),
            old(self).is_open() && !(len == 0 && old(self).finishes_on_empty_write()) ==> action
                == EncoderAction::Write && *final(self) == *old(self),
    {
        if !self.open() {
            return EncoderAction::Nothing;
        }
        let finishes = match self {
            Encoder::Copy => false,
            Encoder::Delta { .. } => false,
            Encoder::Brotli(_) => false,
            Encoder::Aes(_) => false,
            _ => true,
        };
        if len == 0 && finishes {
            self.close();
            EncoderAction::Finish
        } else {
            EncoderAction::Write
        }
    }

    /// What a flush does: it goes to the codec, unless the encoder is closed.
    pub fn poll_flush(&mut self) -> (action: EncoderAction)
        ensures
            *final(self) == *old(self),
            old(self).is_open() ==> action == EncoderAction::Flush,
            !old(self).is_open() ==> action == EncoderAction::Nothing,
    {
        if self.open() {
            EncoderAction::Flush
        } else {
            EncoderAction::Nothing
        }
    }

    /// What a close does: a closed encoder and the delta filter have nothing to do; a
    /// codec that owes a trailer and gives up its sink is finished; any other is
    /// closed together with its sink.
    pub fn poll_close(&mut self) -> (action: EncoderAction)
        ensures
            !old(self).is_open() || *old(self) is Delta ==> action == EncoderAction::Nothing
                && *final(self) == *old(self),
            old(self).is_open() && old(self).finishes_on_close() ==> action
                == EncoderAction::Finish && *final(self) == old(self).closed(),
            old(self).is_open() && !old(self).finishes_on_close() && !(*old(self) is Delta)
                ==> action == EncoderAction::Close && *final(self) == *old(self),
    {
        if !self.open() {
            return EncoderAction::Nothing;
        }
        match self {
            Encoder::Delta { .. } => EncoderAction::Nothing,
            Encoder::Bcj { .. } | Encoder::Lzma2 { .. } | Encoder::Lzma2Mt { .. } | Encoder::Ppmd {
                ..
            } | Encoder::Lz4 { .. } => {
                self.close();
                EncoderAction::Finish
            },
            Encoder::Aes(_) => EncoderAction::Finish,
            _ => EncoderAction::Close,
        }
    }
}

/// What the BCJ filter for the architecture `arch` makes of `data` when it encodes.
pub open spec fn bcj_encoded(arch: BcjArch, data: Seq<u8>) -> Seq<u8> {
    match arch {
        BcjArch::X86 => bcj_x86_encoded(data),
        BcjArch::Ppc => bcj_ppc_encoded(data),
        BcjArch::Ia64 => bcj_ia64_encoded(data),
        BcjArch::Arm => bcj_arm_encoded(data),
        BcjArch::Arm64 => bcj_arm64_encoded(data),
        BcjArch::ArmThumb => bcj_arm_thumb_encoded(data),
        BcjArch::Sparc => bcj_sparc_encoded(data),
        BcjArch::Riscv => bcj_riscv_encoded(data),
    }
}

/// Whether the BCJ filter for the architecture `arch` takes `data` when it encodes.
pub open spec fn bcj_encodes(arch: BcjArch, data: Seq<u8>) -> bool {
    match arch {
        BcjArch::X86 => bcj_x86_encoding(data) is Some,
        BcjArch::Ppc => bcj_ppc_encoding(data) is Some,
        BcjArch::Ia64 => bcj_ia64_encoding(data) is Some,
        BcjArch::Arm => bcj_arm_encoding(data) is Some,
        BcjArch::Arm64 => bcj_arm64_encoding(data) is Some,
        BcjArch::ArmThumb => bcj_arm_thumb_encoding(data) is Some,
        BcjArch::Sparc => bcj_sparc_encoding(data) is Some,
        BcjArch::Riscv => bcj_riscv_encoding(data) is Some,
    }
}

/// Runs the BCJ filter of `lzma_rust2` for the architecture `arch` over `data`, all
/// that there is to encode, and finishes it. A failure that the filter reports is the
/// failure of a codec that did not take its input, and there is no other.
fn bcj_encode(arch: BcjArch, data: &[u8]) -> (out: Result<Vec<u8>, Error>)
    ensures
        out is Ok <==> bcj_encodes(arch, data@),
        out matches Ok(bytes) ==> bytes@ == bcj_encoded(arch, data@),
        out matches Err(e) ==> is_codec_failure(e),
{
    let written = match arch {
        BcjArch::X86 => bcj_x86_encode(data),
        BcjArch::Ppc => bcj_ppc_encode(data),
        BcjArch::Ia64 => bcj_ia64_encode(data),
        BcjArch::Arm => bcj_arm_encode(data),
        BcjArch::Arm64 => bcj_arm64_encode(data),
        BcjArch::ArmThumb => bcj_arm_thumb_encode(data),
        BcjArch::Sparc => bcj_sparc_encode(data),
        BcjArch::Riscv => bcj_riscv_encode(data),
    };
    codec_result(written)
}

/// `stream` without the header of 13 bytes that starts an LZMA stream.
pub open spec fn without_lzma_header(stream: Seq<u8>) -> Seq<u8> {
    if stream.len() <= LZMA_HEADER_LEN {
        Seq::empty()
    } else {
        stream.skip(LZMA_HEADER_LEN as int)
    }
}

/// The failure of an encoder that was finished and is written to again.
pub open spec fn closed_encoder() -> Error {
    Error::Other("The encoder is closed")
}

impl Encoder {
    /// What the encoder makes of `data`, all that it is given, where no codec of
    /// another crate reports a failure.
    pub open spec fn output(self, data: Seq<u8>) -> Seq<u8> {
        match self {
            Encoder::Copy => data,
            Encoder::Bcj { arch, .. } => bcj_encoded(arch, data),
            Encoder::Delta { distance } => delta_encoded(data, distance),
            Encoder::Lzma { options, .. } => without_lzma_header(
                lzma_encoded(data, options.spec_level()),
            ),
            Encoder::Lzma2 { options, .. } => lzma2_encoded(
                data,
                options.options.spec_level(),
                options.options.spec_dict_size(),
                options.options.spec_lc(),
                options.options.spec_lp(),
                options.options.spec_pb(),
            ),
            Encoder::Lzma2Mt { options, .. } => lzma2_mt_encoded(
                data,
                options.options.spec_level(),
                options.options.spec_dict_size(),
                options.chunk_size,
                options.threads,
            ),
            Encoder::Ppmd { options, .. } => ppmd_encoded(data, options.order, options.memory_size),
            Encoder::Brotli(encoder) => writer_output(
                encoder.inner,
                Codec::Brotli,
                encoder.quality,
                data,
            ),
            Encoder::Bzip2 { level, .. } => bzip2_encoded(data, level),
            Encoder::Deflate { level, .. } => deflate_encoded(data, level),
            Encoder::Lz4 { encoder, .. } => writer_output(encoder.inner, Codec::Lz4, 0, data),
            Encoder::Zstd { level, .. } => zstd_encoded(data, level),
            Encoder::Aes(encoder) => encoder.rest_of(data),
        }
    }

    /// Whether no codec of another crate has a say in what the encoder gives.
    pub open spec fn is_own(self) -> bool {
        self is Copy || self is Aes
    }

    /// Whether the codec behind the encoder takes `data`: it encodes it without
    /// reporting a failure, and of a framed stream no frame is too large. An encoder
    /// without a codec of another crate takes every input.
    pub open spec fn takes(self, data: Seq<u8>) -> bool {
        match self {
            Encoder::Copy => true,
            Encoder::Bcj { arch, .. } => bcj_encodes(arch, data),
            Encoder::Delta { distance } => delta_encoding(data, distance) is Some,
            Encoder::Lzma { options, .. } => lzma_encoding(data, options.spec_level()) is Some,
            Encoder::Lzma2 { options, .. } => lzma2_encoding(
                data,
                options.options.spec_level(),
                options.options.spec_dict_size(),
                options.options.spec_lc(),
                options.options.spec_lp(),
                options.options.spec_pb(),
            ) is Some,
            Encoder::Lzma2Mt { options, .. } => lzma2_mt_encoding(
                data,
                options.options.spec_level(),
                options.options.spec_dict_size(),
                options.chunk_size,
                options.threads,
            ) is Some,
            Encoder::Ppmd { options, .. } => ppmd_encoding(
                data,
                options.order,
                options.memory_size,
            ) is Some,
            Encoder::Brotli(encoder) => writer_takes(
                encoder.inner,
                Codec::Brotli,
                encoder.quality,
                data,
            ),
            Encoder::Bzip2 { level, .. } => bzip2_encoding(data, level) is Some,
            Encoder::Deflate { level, .. } => deflate_encoding(data, level) is Some,
            Encoder::Lz4 { encoder, .. } => writer_takes(encoder.inner, Codec::Lz4, 0, data),
            Encoder::Zstd { level, .. } => zstd_encoding(data, level) is Some,
            Encoder::Aes(_) => true,
        }
    }

    /// Encodes `data`, all that the coder is given, and finishes the codec, so that
    /// what comes back ends with the trailer of the codec.
    ///
    /// An encoder that was finished before is refused. After that, encoding fails
    /// where the codec of another crate reports a failure or gives more bytes than a
    /// frame can declare, and only there.
    pub fn encode(self, data: &[u8]) -> (out: Result<Vec<u8>, Error>)
        requires
            self.wf(),
        ensures
            !self.is_open() ==> out == Err::<Vec<u8>, Error>(closed_encoder()),
            self.is_open() ==> {
                &&& out is Ok <==> self.takes(data@)
                &&& out matches Ok(bytes) ==> bytes@ == self.output(data@)
                &&& out matches Err(e) ==> is_codec_failure(e) || is_frame_failure(e)
            },
    {
        if !self.open() {
            return Err(Error::other("The encoder is closed"));
        }
        match self {
            Encoder::Copy => {
                let bytes = crate::buf::copy_range(data, 0, data.len());
                assert(bytes@ =~= data@);
                Ok(bytes)
            },
            Encoder::Bcj { arch, .. } => bcj_encode(arch, data),
            Encoder::Delta { distance } => codec_result(delta_encode(data, distance)),
            Encoder::Lzma { options, .. } => match codec_result(lzma_encode(data, options.level())) {
                Ok(stream) => {
                    let from: usize = if stream.len() <= LZMA_HEADER_LEN {
                        stream.len()
                    } else {
                        LZMA_HEADER_LEN
                    };
                    let bytes = crate::buf::copy_range(stream.as_slice(), from, stream.len());
                    assert(bytes@ =~= without_lzma_header(stream@));
                    Ok(bytes)
                },
                Err(e) => Err(e),
            },
            Encoder::Lzma2 { options, .. } => codec_result(
                lzma2_encode(
                    data,
                    options.options.level(),
                    options.options.dict_size(),
                    options.options.lc(),
                    options.options.lp(),
                    options.options.pb(),
                ),
            ),
            Encoder::Lzma2Mt { options, .. } => codec_result(
                lzma2_mt_encode(
                    data,
                    options.options.level(),
                    options.options.dict_size(),
                    options.chunk_size,
                    options.threads,
                ),
            ),
            Encoder::Ppmd { options, .. } => codec_result(
                ppmd_encode(data, options.order, options.memory_size),
            ),
            Encoder::Brotli(encoder) => encode_rest(
                encoder.inner,
                Codec::Brotli,
                encoder.quality,
                data,
            ),
            Encoder::Bzip2 { level, .. } => codec_result(bzip2_encode(data, level)),
            Encoder::Deflate { level, .. } => codec_result(deflate_encode(data, level)),
            Encoder::Lz4 { encoder, .. } => encode_rest(encoder.inner, Codec::Lz4, 0, data),
            Encoder::Zstd { level, .. } => codec_result(zstd_encode(data, level)),
            Encoder::Aes(encoder) => Ok(encoder.encrypt_all(data)),
        }
    }
}

/// Whether `made` is what [`add_encoder`] owes for the method and the options.
pub open spec fn is_encoder_for(
    made: Result<Encoder, Error>,
    method: EncoderMethod,
    options: Option<EncoderOptions>,
) -> bool {
    match method {
        EncoderMethod::Copy => made matches Ok(Encoder::Copy),
        EncoderMethod::Delta => made matches Ok(Encoder::Delta { distance }) && distance == (
        match options {
            Some(EncoderOptions::Delta(o)) => o.0 as usize,
            _ => 1usize,
        }),
        EncoderMethod::Bcj(arch) => made matches Ok(Encoder::Bcj { arch: a, open }) && a == arch
            && open,
        EncoderMethod::Lzma => {
            &&& made matches Ok(Encoder::Lzma { options: o, open })
            &&& open
            &&& o.wf()
            &&& match options {
                Some(EncoderOptions::Lzma(given)) => o == given,
                _ => o.spec_level() == 6 && o.spec_dict_size() == 0x80_0000 && o.spec_props() == 93,
            }
        },
        EncoderMethod::Lzma2 => {
            let threads = match options {
                Some(EncoderOptions::Lzma2(given)) => given.threads,
                _ => 1u32,
            };
            &&& made matches Ok(encoder)
            &&& if threads < 2 {
                encoder is Lzma2
            } else {
                encoder is Lzma2Mt
            }
            &&& encoder.is_open()
            &&& encoder.wf()
            &&& match encoder {
                Encoder::Lzma2 { options: o, .. } | Encoder::Lzma2Mt { options: o, .. } => match options {
                    Some(EncoderOptions::Lzma2(given)) => o == given,
                    _ => o.threads == 1 && o.chunk_size == 0 && o.options.spec_level() == 6
                        && o.options.spec_dict_size() == 0x80_0000 && o.options.spec_lc() == 3
                        && o.options.spec_lp() == 0 && o.options.spec_pb() == 2,
                },
                _ => false,
            }
        },
        EncoderMethod::Ppmd => {
            let given = match options {
                Some(EncoderOptions::Ppmd(o)) => o,
                _ => PpmdOptions { order: 6, memory_size: 0x100_0000 },
            };
            if 2 <= given.order <= 64 && 2048 <= given.memory_size <= 0xFFFF_FFFF - 36 {
                made matches Ok(Encoder::Ppmd { options: o, open }) && o == given && open
            } else {
                made matches Err(e) && e == Error::Other("PPMD parameters out of range")
            }
        },
        EncoderMethod::Brotli => {
            let given = match options {
                Some(EncoderOptions::Brotli(o)) => o,
                _ => BrotliOptions { quality: 11, window: 22, skippable_frame_size: 0x2_0000 },
            };
            &&& made matches Ok(Encoder::Brotli(encoder))
            &&& encoder.quality == given.quality
            &&& encoder.inner.wf()
            &&& given.skippable_frame_size == 0 ==> encoder.inner is Standard
            &&& given.skippable_frame_size > 0 ==> {
                &&& encoder.inner matches InnerWriter::Framed(frames)
                &&& frames.codec() == Codec::Brotli
                &&& frames.quality() == given.quality
                &&& frames.frame_size() == given.skippable_frame_size
                &&& frames.in_frame() == Seq::<u8>::empty()
                &&& frames.pending() == Seq::<u8>::empty()
            }
        },
        EncoderMethod::Bzip2 => made matches Ok(Encoder::Bzip2 { level, open }) && open && level == (
        match options {
            Some(EncoderOptions::Bzip2(o)) => o.0,
            _ => 6u32,
        }),
        EncoderMethod::Deflate => made matches Ok(Encoder::Deflate { level, open }) && open && level
            == (match options {
            Some(EncoderOptions::Deflate(o)) => o.0,
            _ => 6u32,
        }),
        EncoderMethod::Zstd => made matches Ok(Encoder::Zstd { level, open }) && open && level == (
        match options {
            Some(EncoderOptions::Zstd(o)) => o.0,
            _ => 3u32,
        }),
        EncoderMethod::Lz4 => {
            let frame_size = match options {
                Some(EncoderOptions::Lz4(o)) => o.skippable_frame_size,
                _ => 0x2_0000u32,
            };
            &&& made matches Ok(Encoder::Lz4 { encoder, open })
            &&& open
            &&& encoder.inner.wf()
            &&& frame_size == 0 ==> encoder.inner is Standard
            &&& frame_size > 0 ==> {
                &&& encoder.inner matches InnerWriter::Framed(frames)
                &&& frames.codec() == Codec::Lz4
                &&& frames.frame_size() == frame_size
                &&& frames.in_frame() == Seq::<u8>::empty()
                &&& frames.pending() == Seq::<u8>::empty()
            }
        },
        EncoderMethod::Aes256Sha256 => match options {
            Some(EncoderOptions::Aes(given)) => if given.password@.len() == 0 {
                made matches Err(e) && e == Error::PasswordRequired
            } else {
                &&& made matches Ok(Encoder::Aes(encoder))
                &&& encoder.wf()
                &&& encoder.key() == aes_key(aes_properties(given), given.password@)
                &&& encoder.chain() == given.iv@
                &&& encoder.buffered() == Seq::<u8>::empty()
                &&& encoder.pending() == Seq::<u8>::empty()
                &&& !encoder.finished()
            },
            _ => made matches Err(e) && e == Error::PasswordRequired,
        },
    }
}

/// Chooses the encoder for one coder of the chain and works out what it is set up
/// with; options of another method count as none, and without options the defaults
/// of the method are taken.
///
/// An AES coder without options, or with an empty password, is refused, and so is
/// a PPMd coder whose order or memory size is outside what PPMd takes.
pub fn add_encoder(method_config: &EncoderConfiguration) -> (made: Result<Encoder, Error>)
    requires
        method_config.options matches Some(o) ==> o.wf(),
    ensures
        is_encoder_for(made, method_config.method, method_config.options),
        made matches Ok(encoder) ==> encoder.wf() && encoder.is_open(),
{
    match method_config.method {
        EncoderMethod::Copy => Ok(Encoder::Copy),
        EncoderMethod::Delta => {
            let options: DeltaOptions = match &method_config.options {
                Some(EncoderOptions::Delta(o)) => *o,
                _ => DeltaOptions::default(),
            };
            Ok(Encoder::Delta { distance: options.0 as usize })
        },
        EncoderMethod::Bcj(arch) => Ok(Encoder::Bcj { arch, open: true }),
        EncoderMethod::Lzma => {
            let options: LzmaOptions = match &method_config.options {
                Some(EncoderOptions::Lzma(o)) => *o,
                _ => LzmaOptions::default(),
            };
            Ok(Encoder::Lzma { options, open: true })
        },
        EncoderMethod::Lzma2 => {
            let options: Lzma2Options = match &method_config.options {
                Some(EncoderOptions::Lzma2(o)) => *o,
                _ => Lzma2Options::default(),
            };
            if options.threads < 2 {
                Ok(Encoder::Lzma2 { options, open: true })
            } else {
                Ok(Encoder::Lzma2Mt { options, open: true })
            }
        },
        EncoderMethod::Ppmd => {
            let options: PpmdOptions = match &method_config.options {
                Some(EncoderOptions::Ppmd(o)) => *o,
                _ => PpmdOptions::default(),
            };
            if options.order < ppmd7_min_order() || options.order > ppmd7_max_order()
                || options.memory_size < ppmd7_min_mem_size() || options.memory_size
                > ppmd7_max_mem_size() {
                return Err(Error::other("PPMD parameters out of range"));
            }
            Ok(Encoder::Ppmd { options, open: true })
        },
        EncoderMethod::Brotli => {
            let options: BrotliOptions = match &method_config.options {
                Some(EncoderOptions::Brotli(o)) => *o,
                _ => BrotliOptions::default(),
            };
            match BrotliEncoder::new(options.quality, options.skippable_frame_size as usize) {
                Ok(encoder) => Ok(Encoder::Brotli(encoder)),
                Err(e) => Err(e),
            }
        },
        EncoderMethod::Bzip2 => {
            let options: Bzip2Options = match &method_config.options {
                Some(EncoderOptions::Bzip2(o)) => *o,
                _ => Bzip2Options::default(),
            };
            Ok(Encoder::Bzip2 { level: options.0, open: true })
        },
        EncoderMethod::Deflate => {
            let options: DeflateOptions = match &method_config.options {
                Some(EncoderOptions::Deflate(o)) => *o,
                _ => DeflateOptions::default(),
            };
            Ok(Encoder::Deflate { level: options.0, open: true })
        },
        EncoderMethod::Lz4 => {
            let options: Lz4Options = match &method_config.options {
                Some(EncoderOptions::Lz4(o)) => *o,
                _ => Lz4Options::default(),
            };
            match Lz4Encoder::new(options.skippable_frame_size as usize) {
                Ok(encoder) => Ok(Encoder::Lz4 { encoder, open: true }),
                Err(e) => Err(e),
            }
        },
        EncoderMethod::Zstd => {
            let options: ZstandardOptions = match &method_config.options {
                Some(EncoderOptions::Zstd(o)) => *o,
                _ => ZstandardOptions::default(),
            };
            Ok(Encoder::Zstd { level: options.0, open: true })
        },
        EncoderMethod::Aes256Sha256 => {
            match &method_config.options {
                Some(EncoderOptions::Aes(options)) => {
                    match Aes256Sha256Encoder::new(options) {
                        Ok(encoder) => Ok(Encoder::Aes(encoder)),
                        Err(e) => Err(e),
                    }
                },
                _ => Err(Error::PasswordRequired),
            }
        },
    }
}

/// The failure for which no encoder is made for a method with its options: PPMd
/// parameters outside the ranges of the coder, and AES without a password.
pub open spec fn config_refusal(configuration: EncoderConfiguration) -> Option<Error> {
    match configuration.method {
        EncoderMethod::Ppmd => {
            let given = match configuration.options {
                Some(EncoderOptions::Ppmd(o)) => o,
                _ => PpmdOptions { order: 6, memory_size: 0x100_0000 },
            };
            if 2 <= given.order <= 64 && 2048 <= given.memory_size <= 0xFFFF_FFFF - 36 {
                None
            } else {
                Some(Error::Other("PPMD parameters out of range"))
            }
        },
        EncoderMethod::Aes256Sha256 => match configuration.options {
            Some(EncoderOptions::Aes(given)) => if given.password@.len() == 0 {
                Some(Error::PasswordRequired)
            } else {
                None
            },
            _ => Some(Error::PasswordRequired),
        },
        _ => None,
    }
}

/// What the encoder of a method with its options makes of `data`, all that it is
/// given, where an encoder is made and no codec of another crate reports a failure.
pub open spec fn config_output(configuration: EncoderConfiguration, data: Seq<u8>) -> Seq<u8> {
    match configuration.method {
        EncoderMethod::Copy => data,
        EncoderMethod::Delta => delta_encoded(
            data,
            match configuration.options {
                Some(EncoderOptions::Delta(o)) => o.0 as usize,
                _ => 1usize,
            },
        ),
        EncoderMethod::Bcj(arch) => bcj_encoded(arch, data),
        EncoderMethod::Lzma => without_lzma_header(
            lzma_encoded(
                data,
                match configuration.options {
                    Some(EncoderOptions::Lzma(o)) => o.spec_level(),
                    _ => 6u32,
                },
            ),
        ),
        EncoderMethod::Lzma2 => match configuration.options {
            Some(EncoderOptions::Lzma2(given)) => if given.threads < 2 {
                lzma2_encoded(
                    data,
                    given.options.spec_level(),
                    given.options.spec_dict_size(),
                    given.options.spec_lc(),
                    given.options.spec_lp(),
                    given.options.spec_pb(),
                )
            } else {
                lzma2_mt_encoded(
                    data,
                    given.options.spec_level(),
                    given.options.spec_dict_size(),
                    given.chunk_size,
                    given.threads,
                )
            },
            _ => lzma2_encoded(data, 6, 0x80_0000, 3, 0, 2),
        },
        EncoderMethod::Ppmd => match configuration.options {
            Some(EncoderOptions::Ppmd(o)) => ppmd_encoded(data, o.order, o.memory_size),
            _ => ppmd_encoded(data, 6, 0x100_0000),
        },
        EncoderMethod::Brotli => match configuration.options {
            Some(EncoderOptions::Brotli(o)) => data_encoded(
                Codec::Brotli,
                o.quality,
                o.skippable_frame_size as usize,
                data,
            ),
            _ => data_encoded(Codec::Brotli, 11, 0x2_0000, data),
        },
        EncoderMethod::Bzip2 => bzip2_encoded(
            data,
            match configuration.options {
                Some(EncoderOptions::Bzip2(o)) => o.0,
                _ => 6u32,
            },
        ),
        EncoderMethod::Deflate => deflate_encoded(
            data,
            match configuration.options {
                Some(EncoderOptions::Deflate(o)) => o.0,
                _ => 6u32,
            },
        ),
        EncoderMethod::Zstd => zstd_encoded(
            data,
            match configuration.options {
                Some(EncoderOptions::Zstd(o)) => o.0,
                _ => 3u32,
            },
        ),
        EncoderMethod::Lz4 => match configuration.options {
            Some(EncoderOptions::Lz4(o)) => data_encoded(
                Codec::Lz4,
                0,
                o.skippable_frame_size as usize,
                data,
            ),
            _ => data_encoded(Codec::Lz4, 0, 0x2_0000, data),
        },
        EncoderMethod::Aes256Sha256 => match configuration.options {
            Some(EncoderOptions::Aes(given)) => sealed(
                aes_key(aes_properties(given), given.password@),
                given.iv@,
                data,
            ),
            _ => data,
        },
    }
}

/// Whether the codec behind the encoder of a method with its options takes `data`,
/// where an encoder is made.
pub open spec fn config_takes(configuration: EncoderConfiguration, data: Seq<u8>) -> bool {
    match configuration.method {
        EncoderMethod::Copy => true,
        EncoderMethod::Delta => delta_encoding(
            data,
            match configuration.options {
                Some(EncoderOptions::Delta(o)) => o.0 as usize,
                _ => 1usize,
            },
        ) is Some,
        EncoderMethod::Bcj(arch) => bcj_encodes(arch, data),
        EncoderMethod::Lzma => lzma_encoding(
            data,
            match configuration.options {
                Some(EncoderOptions::Lzma(o)) => o.spec_level(),
                _ => 6u32,
            },
        ) is Some,
        EncoderMethod::Lzma2 => match configuration.options {
            Some(EncoderOptions::Lzma2(given)) => if given.threads < 2 {
                lzma2_encoding(
                    data,
                    given.options.spec_level(),
                    given.options.spec_dict_size(),
                    given.options.spec_lc(),
                    given.options.spec_lp(),
                    given.options.spec_pb(),
                ) is Some
            } else {
                lzma2_mt_encoding(
                    data,
                    given.options.spec_level(),
                    given.options.spec_dict_size(),
                    given.chunk_size,
                    given.threads,
                ) is Some
            },
            _ => lzma2_encoding(data, 6, 0x80_0000, 3, 0, 2) is Some,
        },
        EncoderMethod::Ppmd => match configuration.options {
            Some(EncoderOptions::Ppmd(o)) => ppmd_encoding(data, o.order, o.memory_size) is Some,
            _ => ppmd_encoding(data, 6, 0x100_0000) is Some,
        },
        EncoderMethod::Brotli => match configuration.options {
            Some(EncoderOptions::Brotli(o)) => data_encodes(
                Codec::Brotli,
                o.quality,
                o.skippable_frame_size as usize,
                data,
            ),
            _ => data_encodes(Codec::Brotli, 11, 0x2_0000, data),
        },
        EncoderMethod::Bzip2 => bzip2_encoding(
            data,
            match configuration.options {
                Some(EncoderOptions::Bzip2(o)) => o.0,
                _ => 6u32,
            },
        ) is Some,
        EncoderMethod::Deflate => deflate_encoding(
            data,
            match configuration.options {
                Some(EncoderOptions::Deflate(o)) => o.0,
                _ => 6u32,
            },
        ) is Some,
        EncoderMethod::Zstd => zstd_encoding(
            data,
            match configuration.options {
                Some(EncoderOptions::Zstd(o)) => o.0,
                _ => 3u32,
            },
        ) is Some,
        EncoderMethod::Lz4 => match configuration.options {
            Some(EncoderOptions::Lz4(o)) => data_encodes(
                Codec::Lz4,
                0,
                o.skippable_frame_size as usize,
                data,
            ),
            _ => data_encodes(Codec::Lz4, 0, 0x2_0000, data),
        },
        EncoderMethod::Aes256Sha256 => true,
    }
}

/// Whether no codec of another crate has a say in what the encoder of the method
/// gives.
pub open spec fn is_own_method(method: EncoderMethod) -> bool {
    method == EncoderMethod::Copy || method == EncoderMethod::Aes256Sha256
}

/// An encoder is made for a method with its options exactly where they are not
/// refused, and the encoder made gives what the method is said to give.
pub proof fn lemma_encoder(
    made: Result<Encoder, Error>,
    configuration: EncoderConfiguration,
    data: Seq<u8>,
)
    requires
        is_encoder_for(made, configuration.method, configuration.options),
    ensures
        match config_refusal(configuration) {
            Some(e) => made == Err::<Encoder, Error>(e),
            None => {
                &&& made matches Ok(encoder)
                &&& encoder.is_open()
                &&& encoder.output(data) == config_output(configuration, data)
                &&& encoder.is_own() == is_own_method(configuration.method)
                &&& encoder.takes(data) == config_takes(configuration, data)
                &&& is_own_method(configuration.method) ==> encoder.takes(data)
            },
        },
{
    match made {
        Ok(Encoder::Brotli(encoder)) => {
            assert(Seq::<u8>::empty() + data =~= data);
            match encoder.inner {
                InnerWriter::Framed(frames) => {
                    let framed = data_framed(
                        frames.codec(),
                        frames.quality(),
                        frames.frame_size(),
                        data,
                    );
                    assert(Seq::<u8>::empty() + framed =~= framed);
                },
                _ => {},
            }
        },
        Ok(Encoder::Lz4 { encoder, .. }) => {
            assert(Seq::<u8>::empty() + data =~= data);
            match encoder.inner {
                InnerWriter::Framed(frames) => {
                    let framed = data_framed(
                        frames.codec(),
                        frames.quality(),
                        frames.frame_size(),
                        data,
                    );
                    assert(Seq::<u8>::empty() + framed =~= framed);
                    lemma_lz4_ignores_quality(frames.quality(), frames.frame_size(), data);
                },
                _ => {},
            }
        },
        Ok(Encoder::Aes(encoder)) => {
            assert(Seq::<u8>::empty() + data =~= data);
            let out = sealed(encoder.key(), encoder.chain(), data);
            assert(Seq::<u8>::empty() + out =~= out);
        },
        _ => {},
    }
}

/// The frames of LZ4 are the same at every quality, which LZ4 does not know.
pub proof fn lemma_lz4_ignores_quality(quality: u32, frame_size: usize, data: Seq<u8>)
    ensures
        data_framed(Codec::Lz4, quality, frame_size, data) == data_framed(
            Codec::Lz4,
            0,
            frame_size,
            data,
        ),
        data_frames(Codec::Lz4, quality, frame_size, data) == data_frames(
            Codec::Lz4,
            0,
            frame_size,
            data,
        ),
    decreases data.len(),
{
    if data.len() > 0 && frame_size > 0 {
        let piece = crate::frame_laws::ahead(data, frame_size as nat);
        lemma_lz4_ignores_quality(quality, frame_size, data.skip(piece.len() as int));
    }
}

} // verus!
