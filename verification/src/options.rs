//! What the encoder of each method is set up with.

use vstd::prelude::*;

use crate::aes::{aes_cycles_power, aes_iv, aes_iv_size, aes_salt, aes_salt_size};
use crate::method::EncoderMethod;
use crate::password::Password;

verus! {

/// What an AES coder is set up with when it encrypts.
#[derive(Debug, Clone)]
pub struct AesEncoderOptions {
    /// The password from which the key is derived.
    pub password: Password,
    /// The initialisation vector.
    pub iv: [u8; 16],
    /// The salt that is hashed together with the password.
    pub salt: [u8; 16],
    /// The exponent of the number of hashing rounds; its low six bits count.
    pub num_cycles_power: u8,
}

/// The 34 property bytes that describe `options`: two control bytes, the salt, the IV.
pub open spec fn aes_properties(options: AesEncoderOptions) -> Seq<u8> {
    seq![(options.num_cycles_power & 0x3f) | 0xc0, 0xffu8] + options.salt@ + options.iv@
}

impl AesEncoderOptions {
    /// Options for `password` with the salt and the IV given, which the caller has
    /// drawn at random, and 2^8 hashing rounds.
    pub fn new(password: Password, salt: [u8; 16], iv: [u8; 16]) -> (options: AesEncoderOptions)
        ensures
            options.password == password,
            options.salt == salt,
            options.iv == iv,
            options.num_cycles_power == 8,
    {
        AesEncoderOptions { password, iv, salt, num_cycles_power: 8 }
    }

    /// The property bytes stored with the coder.
    pub fn properties(&self) -> (properties: [u8; 34])
        ensures
            properties@ == aes_properties(*self),
    {
        let mut properties: [u8; 34] = [0u8; 34];
        properties[0] = (self.num_cycles_power & 0x3f) | 0xc0;
        properties[1] = 0xff;
        let mut i: usize = 0;
        while i < 16
            invariant
                i <= 16,
                properties@[0] == (self.num_cycles_power & 0x3f) | 0xc0,
                properties@[1] == 0xffu8,
                forall|k: int| 0 <= k < i ==> properties@[2 + k] == self.salt@[k],
                forall|k: int| 0 <= k < i ==> properties@[18 + k] == self.iv@[k],
            decreases 16 - i,
        {
            properties[2 + i] = self.salt[i];
            properties[18 + i] = self.iv[i];
            i += 1;
        }
        assert(properties@ =~= aes_properties(*self));
        properties
    }

    /// Writes the property bytes to the first 34 places of `out`.
    pub fn write_properties(&self, out: &mut [u8])
        requires
            old(out).len() >= 34,
        ensures
            final(out)@ == aes_properties(*self) + old(out)@.skip(34),
    {
        let properties = self.properties();
        let mut i: usize = 0;
        while i < 34
            invariant
                i <= 34,
                out.len() == old(out).len(),
                old(out).len() >= 34,
                forall|k: int| 0 <= k < i ==> out@[k] == properties@[k],
                forall|k: int| i <= k < out.len() ==> out@[k] == old(out)@[k],
            decreases 34 - i,
        {
            out[i] = properties[i];
            i += 1;
        }
        assert(out@ =~= aes_properties(*self) + old(out)@.skip(34));
    }
}

/// The properties of options carry the options' salt, IV and round exponent, so that
/// whoever reads them back derives the key from the same values.
pub proof fn lemma_aes_properties_round_trip(options: AesEncoderOptions)
    ensures
        aes_properties(options).len() == 34,
        aes_salt_size(aes_properties(options)) == 16,
        aes_iv_size(aes_properties(options)) == 16,
        aes_salt(aes_properties(options)) == options.salt@,
        aes_iv(aes_properties(options)) == options.iv@,
        aes_cycles_power(aes_properties(options)) == options.num_cycles_power & 0x3f,
{
    let p = aes_properties(options);
    let b0 = p[0];
    let power = options.num_cycles_power;
    assert(b0 == (power & 0x3f) | 0xc0);
    assert((((power & 0x3f) | 0xc0) >> 6) & 1 == 1 && (((power & 0x3f) | 0xc0) >> 7) & 1 == 1 && ((
        power & 0x3f) | 0xc0) & 0x3f == power & 0x3f) by (bit_vector);
    assert(0xffu8 & 0x0f == 15 && 0xffu8 >> 4 == 15) by (bit_vector);
    assert(aes_salt(p) =~= options.salt@);
    assert(p.subrange(18, 34) =~= options.iv@);
    assert(aes_iv(p) =~= options.iv@);
}

/// The distance of a delta filter, between 1 and 256.
#[derive(Debug, Clone, Copy)]
pub struct DeltaOptions(pub u32);

impl DeltaOptions {
    /// Options for the distance `distance`, brought into the range from 1 to 256.
    pub fn from_delta_distance(distance: u32) -> (options: DeltaOptions)
        ensures
            options.0 == if distance < 1 {
                1u32
            } else if distance > 256 {
                256u32
            } else {
                distance
            },
    {
        if distance < 1 {
            DeltaOptions(1)
        } else if distance > 256 {
            DeltaOptions(256)
        } else {
            DeltaOptions(distance)
        }
    }
}

impl Default for DeltaOptions {
    /// The distance 1.
    fn default() -> (options: DeltaOptions)
        ensures
            options.0 == 1,
    {
        DeltaOptions(1)
    }
}

/// The smallest dictionary that an LZMA coder takes.
pub const DICT_SIZE_MIN: u32 = 4096;

/// The largest dictionary that an LZMA encoder takes: 1 GiB. The encoder counts the
/// places of its window, which is the dictionary and half as much again, in 31 bits.
pub const DICT_SIZE_MAX: u32 = 0x4000_0000;

/// The dictionary size of the preset `level`; levels above 9 count as 9.
pub open spec fn preset_dict_size(level: u32) -> u32 {
    if level == 0 {
        0x4_0000
    } else if level == 1 {
        0x10_0000
    } else if level == 2 {
        0x20_0000
    } else if level <= 4 {
        0x40_0000
    } else if level <= 6 {
        0x80_0000
    } else if level == 7 {
        0x100_0000
    } else if level == 8 {
        0x200_0000
    } else {
        0x400_0000
    }
}

/// What an LZMA coder is set up with: a preset level, whose choices the dictionary
/// size and the numbers of context and position bits may override.
#[derive(Debug, Clone, Copy)]
pub struct LzmaOptions {
    level: u32,
    dict_size: u32,
    lc: u32,
    lp: u32,
    pb: u32,
}

/// `lzma_rust2::LzmaOptions::with_preset`: the dictionary size of the preset and the
/// default context and position bits, 3, 0 and 2.
#[verifier::external_body]
fn lzma_preset(level: u32) -> (options: LzmaOptions)
    ensures
        options.level == level,
        options.dict_size == preset_dict_size(level),
        options.lc == 3,
        options.lp == 0,
        options.pb == 2,
{
    let preset = lzma_rust2::LzmaOptions::with_preset(level);
    LzmaOptions { level, dict_size: preset.dict_size, lc: preset.lc, lp: preset.lp, pb: preset.pb }
}

impl LzmaOptions {
    /// The dictionary size and the bit counts are in the ranges an LZMA coder takes.
    pub open spec fn wf(&self) -> bool {
        &&& DICT_SIZE_MIN <= self.spec_dict_size() <= DICT_SIZE_MAX
        &&& self.spec_lc() <= 8
        &&& self.spec_lp() <= 4
        &&& self.spec_pb() <= 4
    }

    /// The preset level.
    pub closed spec fn spec_level(&self) -> u32 {
        self.level
    }

    /// The dictionary size in bytes.
    pub closed spec fn spec_dict_size(&self) -> u32 {
        self.dict_size
    }

    /// The number of literal context bits.
    pub closed spec fn spec_lc(&self) -> u32 {
        self.lc
    }

    /// The number of literal position bits.
    pub closed spec fn spec_lp(&self) -> u32 {
        self.lp
    }

    /// The number of position bits.
    pub closed spec fn spec_pb(&self) -> u32 {
        self.pb
    }

    /// The dictionary size that an LZMA coder declares to a decoder: that of the
    /// options, or that of the preset where it is larger. The encoder works with the
    /// dictionary of its preset, and a decoder must hold no less than the encoder
    /// looked back.
    pub open spec fn spec_declared_dict(&self) -> u32 {
        if self.spec_dict_size() >= preset_dict_size(self.spec_level()) {
            self.spec_dict_size()
        } else {
            preset_dict_size(self.spec_level())
        }
    }

    /// The property byte: `(pb * 5 + lp) * 9 + lc`.
    pub open spec fn spec_props(&self) -> u8 {
        ((self.spec_pb() * 5 + self.spec_lp()) * 9 + self.spec_lc()) as u8
    }

    /// The options of the preset `level`.
    pub fn from_level(level: u32) -> (options: LzmaOptions)
        ensures
            options.wf(),
            options.spec_level() == level,
            options.spec_dict_size() == preset_dict_size(level),
            options.spec_lc() == 3,
            options.spec_lp() == 0,
            options.spec_pb() == 2,
            options.spec_props() == 93,
    {
        lzma_preset(level)
    }

    /// Sets the dictionary size, brought into the range an LZMA coder takes.
    pub fn set_dictionary_size(&mut self, dict_size: u32)
        requires
            old(self).wf(),
        ensures
            final(self).wf(),
            final(self).spec_level() == old(self).spec_level(),
            final(self).spec_props() == old(self).spec_props(),
            final(self).spec_dict_size() == if dict_size < DICT_SIZE_MIN {
                DICT_SIZE_MIN
            } else if dict_size > DICT_SIZE_MAX {
                DICT_SIZE_MAX
            } else {
                dict_size
            },
    {
        self.dict_size = if dict_size < DICT_SIZE_MIN {
            DICT_SIZE_MIN
        } else if dict_size > DICT_SIZE_MAX {
            DICT_SIZE_MAX
        } else {
            dict_size
        };
    }

    /// The preset level.
    pub fn level(&self) -> (level: u32)
        ensures
            level == self.spec_level(),
    {
        self.level
    }

    /// The dictionary size in bytes.
    pub fn dict_size(&self) -> (dict_size: u32)
        ensures
            dict_size == self.spec_dict_size(),
    {
        self.dict_size
    }

    /// Whether the options are in the ranges of the coder.
    pub fn is_valid(&self) -> (ok: bool)
        ensures
            ok == self.wf(),
    {
        DICT_SIZE_MIN <= self.dict_size && self.dict_size <= DICT_SIZE_MAX && self.lc <= 8
            && self.lp <= 4 && self.pb <= 4
    }

    /// The dictionary size that an LZMA coder declares to a decoder.
    pub fn declared_dict(&self) -> (dict_size: u32)
        ensures
            dict_size == self.spec_declared_dict(),
            dict_size >= self.spec_dict_size(),
            dict_size >= preset_dict_size(self.spec_level()),
    {
        let preset: u32 = LzmaOptions::from_level(self.level).dict_size;
        if self.dict_size >= preset {
            self.dict_size
        } else {
            preset
        }
    }

    /// The number of literal context bits.
    pub fn lc(&self) -> (lc: u32)
        ensures
            lc == self.spec_lc(),
    {
        self.lc
    }

    /// The number of literal position bits.
    pub fn lp(&self) -> (lp: u32)
        ensures
            lp == self.spec_lp(),
    {
        self.lp
    }

    /// The number of position bits.
    pub fn pb(&self) -> (pb: u32)
        ensures
            pb == self.spec_pb(),
    {
        self.pb
    }

    /// The property byte that tells a decoder the context and position bits.
    pub fn get_props(&self) -> (props: u8)
        requires
            self.wf(),
        ensures
            props == self.spec_props(),
    {
        ((self.pb * 5 + self.lp) * 9 + self.lc) as u8
    }
}

impl Default for LzmaOptions {
    /// The options of the preset 6.
    fn default() -> (options: LzmaOptions)
        ensures
            options.wf(),
            options.spec_level() == 6,
            options.spec_dict_size() == 0x80_0000,
            options.spec_lc() == 3,
            options.spec_lp() == 0,
            options.spec_pb() == 2,
            options.spec_props() == 93,
    {
        LzmaOptions::from_level(6)
    }
}

/// What an LZMA2 coder is set up with.
#[derive(Debug, Clone, Copy)]
pub struct Lzma2Options {
    /// The options of the LZMA coder inside.
    pub options: LzmaOptions,
    /// The number of threads that compress; 0 and 1 both mean one.
    pub threads: u32,
    /// The number of bytes that each of several threads compresses at a time; 0
    /// where none is set, as on one thread.
    pub chunk_size: u64,
}

/// The most bytes that one of several threads is given to compress at a time:
/// 1 GiB. The encoder sets a buffer of that size aside for each chunk.
pub const LZMA2_CHUNK_MAX: u64 = 0x4000_0000;

impl Lzma2Options {
    /// The options of the LZMA coder inside are in its ranges, and a chunk is no larger
    /// than the largest that the encoder takes.
    pub open spec fn wf(&self) -> bool {
        self.options.wf() && self.chunk_size <= LZMA2_CHUNK_MAX
    }

    /// Whether the options are in the ranges of the coder.
    pub fn is_valid(&self) -> (ok: bool)
        ensures
            ok == self.wf(),
    {
        self.options.is_valid() && self.chunk_size <= LZMA2_CHUNK_MAX
    }

    /// The options of the preset `level`, on one thread.
    pub fn from_level(level: u32) -> (options: Lzma2Options)
        ensures
            options.options.wf(),
            options.options.spec_level() == level,
            options.options.spec_dict_size() == preset_dict_size(level),
            options.options.spec_lc() == 3,
            options.options.spec_lp() == 0,
            options.options.spec_pb() == 2,
            options.threads == 1,
            options.chunk_size == 0,
    {
        Lzma2Options { options: LzmaOptions::from_level(level), threads: 1, chunk_size: 0 }
    }

    /// The options of the preset `level`, on `threads` threads that compress
    /// `chunk_size` bytes at a time each, or the most that the encoder takes where
    /// `chunk_size` is more.
    pub fn from_level_mt(level: u32, threads: u32, chunk_size: u64) -> (options: Lzma2Options)
        ensures
            options.wf(),
            options.options.wf(),
            options.options.spec_level() == level,
            options.options.spec_dict_size() == preset_dict_size(level),
            options.options.spec_lc() == 3,
            options.options.spec_lp() == 0,
            options.options.spec_pb() == 2,
            options.threads == threads,
            options.chunk_size == if chunk_size <= LZMA2_CHUNK_MAX {
                chunk_size
            } else {
                LZMA2_CHUNK_MAX
            },
    {
        let chunk_size: u64 = if chunk_size <= LZMA2_CHUNK_MAX {
            chunk_size
        } else {
            LZMA2_CHUNK_MAX
        };
        Lzma2Options { options: LzmaOptions::from_level(level), threads, chunk_size }
    }
}

impl Default for Lzma2Options {
    /// The options of the preset 6, on one thread.
    fn default() -> (options: Lzma2Options)
        ensures
            options.options.wf(),
            options.options.spec_level() == 6,
            options.options.spec_dict_size() == 0x80_0000,
            options.options.spec_lc() == 3,
            options.options.spec_lp() == 0,
            options.options.spec_pb() == 2,
            options.threads == 1,
            options.chunk_size == 0,
    {
        Lzma2Options::from_level(6)
    }
}

/// What a PPMd coder is set up with.
#[derive(Debug, Clone, Copy)]
pub struct PpmdOptions {
    /// The model order.
    pub order: u32,
    /// The memory of the model in bytes.
    pub memory_size: u32,
}

impl Default for PpmdOptions {
    /// The order 6 with 16 MiB of memory.
    fn default() -> (options: PpmdOptions)
        ensures
            options.order == 6,
            options.memory_size == 0x100_0000,
    {
        PpmdOptions { order: 6, memory_size: 0x100_0000 }
    }
}

/// The size of a skippable frame where none is asked for: 128 KiB.
pub const DEFAULT_SKIPPABLE_FRAME_SIZE: u32 = 0x2_0000;

/// What a Brotli coder is set up with.
#[derive(Debug, Clone, Copy)]
pub struct BrotliOptions {
    /// The quality, from 0 to 11.
    pub quality: u32,
    /// The binary logarithm of the window size.
    pub window: u32,
    /// The most uncompressed bytes per skippable frame; 0 for one stream without
    /// frames.
    pub skippable_frame_size: u32,
}

impl Default for BrotliOptions {
    /// The quality 11 and the window 22, in frames of the default size.
    fn default() -> (options: BrotliOptions)
        ensures
            options.quality == 11,
            options.window == 22,
            options.skippable_frame_size == DEFAULT_SKIPPABLE_FRAME_SIZE,
    {
        BrotliOptions { quality: 11, window: 22, skippable_frame_size: DEFAULT_SKIPPABLE_FRAME_SIZE }
    }
}

/// What an LZ4 coder is set up with.
#[derive(Debug, Clone, Copy)]
pub struct Lz4Options {
    /// The most uncompressed bytes per skippable frame; 0 for one stream without
    /// frames.
    pub skippable_frame_size: u32,
}

impl Default for Lz4Options {
    /// Frames of the default size.
    fn default() -> (options: Lz4Options)
        ensures
            options.skippable_frame_size == DEFAULT_SKIPPABLE_FRAME_SIZE,
    {
        Lz4Options { skippable_frame_size: DEFAULT_SKIPPABLE_FRAME_SIZE }
    }
}

/// The level of a Zstandard coder.
#[derive(Debug, Clone, Copy)]
pub struct ZstandardOptions(pub u32);

impl Default for ZstandardOptions {
    /// The level 3.
    fn default() -> (options: ZstandardOptions)
        ensures
            options.0 == 3,
    {
        ZstandardOptions(3)
    }
}

/// The level of a Bzip2 coder.
#[derive(Debug, Clone, Copy)]
pub struct Bzip2Options(pub u32);

impl Default for Bzip2Options {
    /// The level 6.
    fn default() -> (options: Bzip2Options)
        ensures
            options.0 == 6,
    {
        Bzip2Options(6)
    }
}

/// The level of a Deflate coder.
#[derive(Debug, Clone, Copy)]
pub struct DeflateOptions(pub u32);

impl Default for DeflateOptions {
    /// The level 6.
    fn default() -> (options: DeflateOptions)
        ensures
            options.0 == 6,
    {
        DeflateOptions(6)
    }
}

/// The options of one method.
#[derive(Debug, Clone)]
pub enum EncoderOptions {
    Delta(DeltaOptions),
    Lzma(LzmaOptions),
    Lzma2(Lzma2Options),
    Ppmd(PpmdOptions),
    Brotli(BrotliOptions),
    Bzip2(Bzip2Options),
    Deflate(DeflateOptions),
    Lz4(Lz4Options),
    Zstd(ZstandardOptions),
    Aes(AesEncoderOptions),
}

impl EncoderOptions {
    /// The options of an LZMA or LZMA2 coder are in its ranges.
    pub open spec fn wf(&self) -> bool {
        match self {
            EncoderOptions::Lzma(options) => options.wf(),
            EncoderOptions::Lzma2(options) => options.wf(),
            _ => true,
        }
    }

    /// Whether the options are in the ranges of their coder.
    pub fn is_valid(&self) -> (ok: bool)
        ensures
            ok == self.wf(),
    {
        match self {
            EncoderOptions::Lzma(options) => options.is_valid(),
            EncoderOptions::Lzma2(options) => options.is_valid(),
            _ => true,
        }
    }
}

/// One coder of the chain that future blocks are written with: the method, and its
/// options where the defaults are not wanted.
#[derive(Debug, Clone)]
pub struct EncoderConfiguration {
    pub method: EncoderMethod,
    pub options: Option<EncoderOptions>,
}

impl EncoderConfiguration {
    /// The method with its default options.
    pub fn new(method: EncoderMethod) -> (configuration: EncoderConfiguration)
        ensures
            configuration.method == method,
            configuration.options is None,
    {
        EncoderConfiguration { method, options: None }
    }

    /// Whether the options, where there are any, are in the ranges of their coder.
    pub fn is_valid(&self) -> (ok: bool)
        ensures
            ok == (self.options matches Some(o) ==> o.wf()),
    {
        match &self.options {
            Some(options) => options.is_valid(),
            None => true,
        }
    }

    /// The method with the options given.
    pub fn with_options(self, options: EncoderOptions) -> (configuration: EncoderConfiguration)
        ensures
            configuration.method == self.method,
            configuration.options == Some(options),
    {
        EncoderConfiguration { method: self.method, options: Some(options) }
    }
}

} // verus!
