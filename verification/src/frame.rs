//! Skippable frames: their layout, and the state machines that read and write a
//! pack stream frame by frame.

use async_compression::futures::write::BrotliEncoder as AsyncBrotliEncoder;
use async_compression::futures::write::Lz4Encoder as AsyncLz4Encoder;
use async_compression::Level;
use futures::io::{AsyncWriteExt, Cursor};
use vstd::prelude::*;

use crate::error::{Error, IoKind};
use crate::le::{le_bytes, le_value, u16_from_le, u16_to_le, u32_from_le, u32_to_le};
use crate::step::SinkStep;

verus! {

/// The number that starts every skippable frame, stored low byte first.
pub const SKIPPABLE_FRAME_MAGIC: u32 = 0x184D2A50;

/// The number that marks a frame as Brotli's: "BR", stored low byte first.
pub const BROTLI_MAGIC: u16 = 0x5242;

/// The unit in which a Brotli frame states the size of what it holds uncompressed.
pub const HINT_UNIT_SIZE: usize = 65536;

/// The codecs whose streams may come wrapped in skippable frames.
#[derive(Clone, Copy, Debug, PartialEq, Eq, Structural)]
pub enum Codec {
    Brotli,
    Lz4,
}

impl Codec {
    /// The length of a frame header: magic, skip size and payload size, and for Brotli
    /// its own magic and the size hint.
    pub open spec fn spec_header_len(self) -> nat {
        match self {
            Codec::Brotli => 16,
            Codec::Lz4 => 12,
        }
    }

    /// The number of header bytes that follow the skip size field and belong to the
    /// skippable part.
    pub open spec fn spec_skip_size(self) -> nat {
        match self {
            Codec::Brotli => 8,
            Codec::Lz4 => 4,
        }
    }

    /// The length of a frame header.
    pub fn header_len(self) -> (len: usize)
        ensures
            len == self.spec_header_len(),
    {
        match self {
            Codec::Brotli => 16,
            Codec::Lz4 => 12,
        }
    }

    /// The value of the skip size field.
    pub fn skip_size(self) -> (size: u32)
        ensures
            size == self.spec_skip_size(),
    {
        match self {
            Codec::Brotli => 8,
            Codec::Lz4 => 4,
        }
    }
}

/// The size hint of a Brotli frame that holds `uncompressed` bytes: their number in
/// units of 65536, rounded up, and at most 0xFFFF.
pub open spec fn brotli_hint(uncompressed: nat) -> nat {
    let units = (uncompressed + 65535) / 65536;
    if units > 0xFFFF {
        0xFFFF
    } else {
        units
    }
}

/// The header of a frame whose payload has `payload_len` bytes.
pub open spec fn frame_header(codec: Codec, payload_len: nat, uncompressed: nat) -> Seq<u8> {
    le_bytes(0x184D2A50, 4) + le_bytes(codec.spec_skip_size(), 4) + le_bytes(payload_len, 4)
        + match codec {
        Codec::Brotli => le_bytes(0x5242, 2) + le_bytes(brotli_hint(uncompressed), 2),
        Codec::Lz4 => Seq::<u8>::empty(),
    }
}

/// The frame that carries `payload`; for no payload, no bytes at all.
pub open spec fn frame(codec: Codec, payload: Seq<u8>, uncompressed: nat) -> Seq<u8> {
    if payload.len() == 0 {
        Seq::<u8>::empty()
    } else {
        frame_header(codec, payload.len(), uncompressed) + payload
    }
}

/// The header of a frame has the length its codec fixes.
pub proof fn lemma_frame_header_len(codec: Codec, payload_len: nat, uncompressed: nat)
    ensures
        frame_header(codec, payload_len, uncompressed).len() == codec.spec_header_len(),
{
    crate::le::lemma_le_bytes_len(0x184D2A50, 4);
    crate::le::lemma_le_bytes_len(codec.spec_skip_size(), 4);
    crate::le::lemma_le_bytes_len(payload_len, 4);
    crate::le::lemma_le_bytes_len(0x5242, 2);
    crate::le::lemma_le_bytes_len(brotli_hint(uncompressed), 2);
}

/// Wraps the compressed bytes of one frame in a skippable frame; `uncompressed_bytes`
/// says how many bytes they stand for, which only a Brotli frame records.
pub fn build_frame_bytes(codec: Codec, compressed_data: &[u8], uncompressed_bytes: usize) -> (out:
    Vec<u8>)
    requires
        compressed_data.len() <= u32::MAX,
    ensures
        out@ == frame(codec, compressed_data@, uncompressed_bytes as nat),
{
    if compressed_data.len() == 0 {
        return Vec::new();
    }
    let mut out: Vec<u8> = Vec::new();
    crate::buf::append(&mut out, u32_to_le(SKIPPABLE_FRAME_MAGIC).as_slice());
    crate::buf::append(&mut out, u32_to_le(codec.skip_size()).as_slice());
    crate::buf::append(&mut out, u32_to_le(compressed_data.len() as u32).as_slice());
    match codec {
        Codec::Brotli => {
            crate::buf::append(&mut out, u16_to_le(BROTLI_MAGIC).as_slice());
            let units: usize = uncompressed_bytes / HINT_UNIT_SIZE + if uncompressed_bytes
                % HINT_UNIT_SIZE == 0 {
                0usize
            } else {
                1usize
            };
            let hint_value: u16 = if units > 0xFFFF {
                0xFFFF
            } else {
                units as u16
            };
            assert(hint_value == brotli_hint(uncompressed_bytes as nat));
            crate::buf::append(&mut out, u16_to_le(hint_value).as_slice());
        },
        Codec::Lz4 => {},
    }
    crate::buf::append(&mut out, compressed_data);
    assert(out@ =~= frame(codec, compressed_data@, uncompressed_bytes as nat));
    out
}

/// What the bytes read first from a pack stream say of it: `Ok(Some(n))` for a frame
/// with a payload of `n` bytes, `Ok(None)` for a stream that is not framed.
///
/// Fewer than four bytes are no stream at all. A stream that starts with the frame
/// magic and has a whole header must have its codec's skip size and, for Brotli, the
/// Brotli magic.
pub open spec fn first_header(codec: Codec, header: Seq<u8>) -> Result<Option<u32>, Error> {
    if header.len() < 4 {
        Err(Error::Other("Input too short"))
    } else if le_value(header.subrange(0, 4)) == 0x184D2A50 && header.len()
        >= codec.spec_header_len() {
        if le_value(header.subrange(4, 8)) != codec.spec_skip_size() {
            Err(
                Error::Other(
                    match codec {
                        Codec::Brotli => "Invalid brotli skippable frame size",
                        Codec::Lz4 => "Invalid lz4 skippable frame size",
                    },
                ),
            )
        } else if codec == Codec::Brotli && le_value(header.subrange(12, 14)) != 0x5242 {
            Err(Error::Other("Invalid brotli magic value"))
        } else {
            Ok(Some(le_value(header.subrange(8, 12)) as u32))
        }
    } else {
        Ok(None)
    }
}

/// Reads the start of a pack stream as [`first_header`] says.
pub fn read_first_header(codec: Codec, header: &[u8]) -> (found: Result<Option<u32>, Error>)
    ensures
        found == first_header(codec, header@),
{
    if header.len() < 4 {
        return Err(Error::other("Input too short"));
    }
    let magic_value: u32 = u32_from_le(header, 0);
    if magic_value == SKIPPABLE_FRAME_MAGIC && header.len() >= codec.header_len() {
        let skippable_size: u32 = u32_from_le(header, 4);
        if skippable_size != codec.skip_size() {
            return Err(
                Error::other(
                    match codec {
                        Codec::Brotli => "Invalid brotli skippable frame size",
                        Codec::Lz4 => "Invalid lz4 skippable frame size",
                    },
                ),
            );
        }
        let compressed_size: u32 = u32_from_le(header, 8);
        match codec {
            Codec::Brotli => {
                let brotli_magic_value: u16 = u16_from_le(header, 12);
                if brotli_magic_value != BROTLI_MAGIC {
                    return Err(Error::other("Invalid brotli magic value"));
                }
            },
            Codec::Lz4 => {},
        }
        Ok(Some(compressed_size))
    } else {
        Ok(None)
    }
}

/// The failure of a read that could not fill the bytes of a header field.
pub open spec fn short_header() -> Error {
    Error::Io(IoKind::UnexpectedEof, "failed to fill whole buffer")
}

/// What the bytes that follow a finished frame say, `available` being as many of the
/// next header's bytes as the source still had: `Ok(Some(n))` for another frame with a
/// payload of `n` bytes, `Ok(None)` where the frames end.
///
/// The fields are read in order. The frames end where the source has no magic left,
/// or another magic, skip size or Brotli magic than a frame's. A source that ends
/// inside a later field is refused.
pub open spec fn next_header(codec: Codec, available: Seq<u8>) -> Result<Option<u32>, Error> {
    if available.len() < 4 {
        Ok(None)
    } else if le_value(available.subrange(0, 4)) != 0x184D2A50 {
        Ok(None)
    } else if available.len() < 8 {
        Err(short_header())
    } else if le_value(available.subrange(4, 8)) != codec.spec_skip_size() {
        Ok(None)
    } else if available.len() < 12 {
        Err(short_header())
    } else if codec == Codec::Lz4 {
        Ok(Some(le_value(available.subrange(8, 12)) as u32))
    } else if available.len() < 14 {
        Err(short_header())
    } else if le_value(available.subrange(12, 14)) != 0x5242 {
        Ok(None)
    } else if available.len() < 16 {
        Err(short_header())
    } else {
        Ok(Some(le_value(available.subrange(8, 12)) as u32))
    }
}

/// Reads the bytes that follow a finished frame as [`next_header`] says.
pub fn read_next_header(codec: Codec, available: &[u8]) -> (found: Result<Option<u32>, Error>)
    ensures
        found == next_header(codec, available@),
{
    if available.len() < 4 {
        return Ok(None);
    }
    let magic: u32 = u32_from_le(available, 0);
    if magic != SKIPPABLE_FRAME_MAGIC {
        return Ok(None);
    }
    if available.len() < 8 {
        return Err(Error::Io(IoKind::UnexpectedEof, "failed to fill whole buffer"));
    }
    let skippable_size: u32 = u32_from_le(available, 4);
    if skippable_size != codec.skip_size() {
        return Ok(None);
    }
    if available.len() < 12 {
        return Err(Error::Io(IoKind::UnexpectedEof, "failed to fill whole buffer"));
    }
    let compressed_size: u32 = u32_from_le(available, 8);
    match codec {
        Codec::Lz4 => Ok(Some(compressed_size)),
        Codec::Brotli => {
            if available.len() < 14 {
                return Err(Error::Io(IoKind::UnexpectedEof, "failed to fill whole buffer"));
            }
            let brotli_magic: u16 = u16_from_le(available, 12);
            if brotli_magic != BROTLI_MAGIC {
                return Ok(None);
            }
            if available.len() < 16 {
                return Err(Error::Io(IoKind::UnexpectedEof, "failed to fill whole buffer"));
            }
            Ok(Some(compressed_size))
        },
    }
}

/// Where the next bytes for the codec come from.
pub enum ReadPlan {
    /// Nothing more comes: the frame, or the stream, is at its end.
    Eof,
    /// These bytes, which were read ahead when the stream was opened.
    Header(Vec<u8>),
    /// The source, from which at most this many bytes are to be read.
    Source(usize),
}

/// The reader between the pack stream and the codec: it gives the codec the bytes of
/// one frame and no more, or, where the stream is not framed, the bytes read ahead
/// and then the rest of the stream.
pub enum InnerReader {
    /// No stream.
    Empty,
    /// A stream that is not framed: `header_buffer` holds the bytes read ahead, of
    /// which those from `position` on are still owed to the codec.
    Standard { header_buffer: Vec<u8>, position: usize, header_finished: bool },
    /// A frame of which `remaining_in_frame` bytes have not been read yet;
    /// `frame_finished` once they all have, or the source ended before.
    Skippable { remaining_in_frame: u32, frame_finished: bool },
}

impl InnerReader {
    /// The cursor of a stream that is not framed lies inside the bytes read ahead and
    /// is at their end once they are declared finished; a frame of which nothing
    /// remains is finished.
    pub open spec fn wf(&self) -> bool {
        match self {
            InnerReader::Empty => true,
            InnerReader::Standard { header_buffer, position, header_finished } => {
                &&& *position <= header_buffer.len()
                &&& *header_finished ==> *position == header_buffer.len()
            },
            InnerReader::Skippable { remaining_in_frame, frame_finished } => *remaining_in_frame
                == 0 ==> *frame_finished,
        }
    }

    /// The reader of no stream.
    pub fn empty() -> (reader: InnerReader)
        ensures
            reader is Empty,
            reader.wf(),
    {
        InnerReader::Empty
    }

    /// The reader of a stream that is not framed, of which `header` was read ahead.
    pub fn new_standard(header: Vec<u8>) -> (reader: InnerReader)
        ensures
            reader.wf(),
            reader matches InnerReader::Standard { header_buffer, position, header_finished }
                && header_buffer == header && position == 0 && !header_finished,
    {
        InnerReader::Standard { header_buffer: header, position: 0, header_finished: false }
    }

    /// The reader of a frame whose payload has `remaining_in_frame` bytes.
    pub fn new_skippable(remaining_in_frame: u32) -> (reader: InnerReader)
        ensures
            reader.wf(),
            reader == (InnerReader::Skippable {
                remaining_in_frame,
                frame_finished: remaining_in_frame == 0,
            }),
    {
        InnerReader::Skippable { remaining_in_frame, frame_finished: remaining_in_frame == 0 }
    }

    /// Whether a frame has been read to its end, so that another may follow.
    pub open spec fn at_frame_end(&self) -> bool {
        self matches InnerReader::Skippable { frame_finished, .. } && *frame_finished
    }

    /// Whether a frame has been read to its end, so that another may follow.
    pub fn is_at_frame_end(&self) -> (at_end: bool)
        ensures
            at_end == self.at_frame_end(),
    {
        match self {
            InnerReader::Skippable { frame_finished, .. } => *frame_finished,
            _ => false,
        }
    }

    /// Looks for another frame behind the one that ended: `available` holds as many of
    /// the next header's bytes as the source still had.
    ///
    /// Only a finished frame can be followed by another. Where one follows, the
    /// reader stands at the start of its payload.
    pub fn read_next_frame_header(&mut self, codec: Codec, available: &[u8]) -> (found: Result<
        bool,
        Error,
    >)
        requires
            old(self).wf(),
        ensures
            final(self).wf(),
            !old(self).at_frame_end() ==> found == Ok::<bool, Error>(false) && *final(self) == *old(self),
            old(self).at_frame_end() ==> match next_header(codec, available@) {
                Ok(Some(size)) => found == Ok::<bool, Error>(true) && *final(self) == (
                InnerReader::Skippable { remaining_in_frame: size, frame_finished: size == 0 }),
                Ok(None) => found == Ok::<bool, Error>(false) && *final(self) == *old(self),
                Err(e) => found == Err::<bool, Error>(e) && *final(self) == *old(self),
            },
    {
        if !self.is_at_frame_end() {
            return Ok(false);
        }
        match read_next_header(codec, available) {
            Ok(Some(size)) => {
                *self = InnerReader::Skippable {
                    remaining_in_frame: size,
                    frame_finished: size == 0,
                };
                Ok(true)
            },
            Ok(None) => Ok(false),
            Err(e) => Err(e),
        }
    }

    /// Plans a read of at most `max` bytes for the codec.
    ///
    /// Of a stream that is not framed, the bytes read ahead come first, then the
    /// source. Of a frame, the source is read for no more than the frame still holds.
    pub fn poll_read(&mut self, max: usize) -> (plan: ReadPlan)
        requires
            old(self).wf(),
        ensures
            final(self).wf(),
            match *old(self) {
                InnerReader::Empty => plan is Eof && *final(self) == *old(self),
                InnerReader::Standard { header_buffer, position, header_finished } => {
                    let left = header_buffer.len() - position;
                    let n = if max <= left {
                        max as int
                    } else {
                        left
                    };
                    if left > 0 {
                        &&& plan matches ReadPlan::Header(bytes)
                        &&& bytes@ == header_buffer@.subrange(position as int, position + n)
                        &&& *final(self) matches InnerReader::Standard {
                            header_buffer: b,
                            position: p,
                            header_finished: f,
                        }
                        &&& b@ == header_buffer@
                        &&& p == position + n
                        &&& !f
                    } else {
                        &&& plan == ReadPlan::Source(max)
                        &&& *final(self) matches InnerReader::Standard {
                            header_buffer: b,
                            position: p,
                            header_finished: f,
                        }
                        &&& b@ == header_buffer@
                        &&& p == position
                        &&& f
                    }
                },
                InnerReader::Skippable { remaining_in_frame, frame_finished } => {
                    &&& *final(self) == *old(self)
                    &&& frame_finished ==> plan is Eof
                    &&& !frame_finished ==> plan == ReadPlan::Source(
                        if max <= remaining_in_frame {
                            max
                        } else {
                            remaining_in_frame as usize
                        },
                    )
                },
            },
    {
        match self {
            InnerReader::Empty => ReadPlan::Eof,
            InnerReader::Standard { header_buffer, position, header_finished } => {
                let left: usize = header_buffer.len() - *position;
                if left > 0 {
                    let n: usize = if max <= left {
                        max
                    } else {
                        left
                    };
                    let bytes = crate::buf::copy_range(
                        header_buffer.as_slice(),
                        *position,
                        *position + n,
                    );
                    *position = *position + n;
                    ReadPlan::Header(bytes)
                } else {
                    *header_finished = true;
                    ReadPlan::Source(max)
                }
            },
            InnerReader::Skippable { remaining_in_frame, frame_finished } => {
                if *frame_finished {
                    return ReadPlan::Eof;
                }
                let bytes_to_read: usize = if max <= *remaining_in_frame as usize {
                    max
                } else {
                    *remaining_in_frame as usize
                };
                ReadPlan::Source(bytes_to_read)
            },
        }
    }

    /// Records that a read of the source, planned by [`InnerReader::poll_read`], gave
    /// `bytes_read` bytes: a frame has that many bytes less to give, and is finished
    /// when none remain or when the source gave none.
    pub fn after_read(&mut self, bytes_read: usize)
        requires
            old(self).wf(),
        ensures
            final(self).wf(),
            match *old(self) {
                InnerReader::Skippable { remaining_in_frame, frame_finished } => {
                    let left = if bytes_read >= remaining_in_frame {
                        0u32
                    } else {
                        (remaining_in_frame - bytes_read) as u32
                    };
                    *final(self) == (InnerReader::Skippable {
                        remaining_in_frame: left,
                        frame_finished: frame_finished || bytes_read == 0 || left == 0,
                    })
                },
                _ => *final(self) == *old(self),
            },
    {
        match self {
            InnerReader::Skippable { remaining_in_frame, frame_finished } => {
                if bytes_read == 0 {
                    *frame_finished = true;
                }
                if bytes_read >= *remaining_in_frame as usize {
                    *remaining_in_frame = 0;
                } else {
                    *remaining_in_frame = *remaining_in_frame - bytes_read as u32;
                }
                if *remaining_in_frame == 0 {
                    *frame_finished = true;
                }
            },
            _ => {},
        }
    }
}

/// The outcome of the encoder behind [`brotli_compressed`]: what it makes of its input, or
/// none where it reports a failure.
pub uninterp spec fn brotli_compressing(data: Seq<u8>, quality: u32) -> Option<Seq<u8>>;

/// The Brotli stream that the encoder of `async_compression` makes of `data` at the
/// quality `quality`.
pub open spec fn brotli_compressed(data: Seq<u8>, quality: u32) -> Seq<u8> {
    brotli_compressing(data, quality)->0
}

/// The outcome of the encoder behind [`lz4_compressed`]: what it makes of its input, or
/// none where it reports a failure.
pub uninterp spec fn lz4_compressing(data: Seq<u8>) -> Option<Seq<u8>>;

/// The LZ4 frame that the encoder of `async_compression` makes of `data`.
pub open spec fn lz4_compressed(data: Seq<u8>) -> Seq<u8> {
    lz4_compressing(data)->0
}

/// `async_compression::futures::write::BrotliEncoder`, made with
/// `Level::Precise(quality)` over a buffer in memory, given all of `data` and closed:
/// what the buffer then holds, or the failure the encoder reported.
#[verifier::external_body]
fn brotli_compress(data: &[u8], quality: u32) -> (packed: Result<Vec<u8>, std::io::Error>)
    ensures
        packed matches Ok(bytes) ==> brotli_compressing(data@, quality) == Some(bytes@),
        packed is Err ==> brotli_compressing(data@, quality) is None,
{
    let level = Level::Precise(quality as i32);
    let mut encoder = AsyncBrotliEncoder::with_quality(Cursor::new(Vec::new()), level);
    async_io::block_on(encoder.write_all(data))?;
    async_io::block_on(encoder.close())?;
    Ok(encoder.into_inner().into_inner())
}

/// `async_compression::futures::write::Lz4Encoder`, made over a buffer in memory,
/// given all of `data` and closed: what the buffer then holds, or the failure the
/// encoder reported.
#[verifier::external_body]
fn lz4_compress(data: &[u8]) -> (packed: Result<Vec<u8>, std::io::Error>)
    ensures
        packed matches Ok(bytes) ==> lz4_compressing(data@) == Some(bytes@),
        packed is Err ==> lz4_compressing(data@) is None,
{
    let mut encoder = AsyncLz4Encoder::new(Cursor::new(Vec::new()));
    async_io::block_on(encoder.write_all(data))?;
    async_io::block_on(encoder.close())?;
    Ok(encoder.into_inner().into_inner())
}

/// The stream that the codec makes of `data`; `quality` counts for Brotli only.
pub open spec fn compressed(codec: Codec, data: Seq<u8>, quality: u32) -> Seq<u8> {
    match codec {
        Codec::Brotli => brotli_compressed(data, quality),
        Codec::Lz4 => lz4_compressed(data),
    }
}

/// Whether `e` is the failure in which ending a frame of the uncompressed bytes
/// `data` ends: the failure that the codec reported, or, where the codec gave more
/// bytes than the size field of a frame can declare, that the frame is too large.
pub open spec fn is_frame_refusal(e: Error, codec: Codec, data: Seq<u8>, quality: u32) -> bool {
    match compressing(codec, data, quality) {
        None => e matches Error::Io(_, text) && text == "compression failed",
        Some(packed) => e == Error::Other("Frame too large") && packed.len() > u32::MAX,
    }
}

/// The outcome of compressing `data` as one stream of the codec: the stream, or
/// none where the codec reports a failure.
pub open spec fn compressing(codec: Codec, data: Seq<u8>, quality: u32) -> Option<Seq<u8>> {
    match codec {
        Codec::Brotli => brotli_compressing(data, quality),
        Codec::Lz4 => lz4_compressing(data),
    }
}

/// Whether a frame of the uncompressed bytes `data` can be ended: the codec takes
/// them, and gives no more bytes than the size field of a frame can declare.
pub open spec fn frame_closes(codec: Codec, data: Seq<u8>, quality: u32) -> bool {
    compressing(codec, data, quality) matches Some(packed) && packed.len() <= u32::MAX
}

/// Compresses `data` as one stream of the codec. It fails where the codec reports
/// a failure, and only there.
pub fn compress_stream(codec: Codec, data: &[u8], quality: u32) -> (packed: Result<Vec<u8>, Error>)
    ensures
        packed is Ok <==> compressing(codec, data@, quality) is Some,
        packed matches Ok(bytes) ==> bytes@ == compressed(codec, data@, quality),
        packed matches Err(e) ==> e matches Error::Io(_, text) && text == "compression failed",
{
    let packed = match codec {
        Codec::Brotli => brotli_compress(data, quality),
        Codec::Lz4 => lz4_compress(data),
    };
    match packed {
        Ok(bytes) => Ok(bytes),
        Err(e) => Err(Error::from_io(&e, "compression failed")),
    }
}

/// Writes a stream as a run of skippable frames of at most `frame_size` uncompressed
/// bytes each.
///
/// The bytes of the frame in progress wait uncompressed; when the frame is full, or
/// at a flush or a close, they are compressed as one stream of the codec and wrapped
/// in a frame. Frames wait in the encoder until the sink has taken them.
pub struct FrameEncoder {
    codec: Codec,
    quality: u32,
    frame_size: usize,
    frame: Vec<u8>,
    out_buf: Vec<u8>,
    out_pos: usize,
}

impl FrameEncoder {
    /// The frame in progress is not yet full, and the cursor lies inside the output
    /// that waits.
    pub closed spec fn wf(&self) -> bool {
        &&& self.frame.len() < self.frame_size
        &&& self.out_pos <= self.out_buf.len()
    }

    /// The frame in progress of a well-formed encoder is shorter than a frame may be:
    /// it has room for at least one more byte.
    pub proof fn lemma_room_in_frame(&self)
        requires
            self.wf(),
        ensures
            self.in_frame().len() < self.frame_size(),
    {
    }

    /// The codec whose streams the frames hold.
    pub closed spec fn codec(&self) -> Codec {
        self.codec
    }

    /// The quality at which Brotli compresses.
    pub closed spec fn quality(&self) -> u32 {
        self.quality
    }

    /// The most uncompressed bytes that a frame holds.
    pub closed spec fn frame_size(&self) -> usize {
        self.frame_size
    }

    /// The uncompressed bytes of the frame in progress.
    pub closed spec fn in_frame(&self) -> Seq<u8> {
        self.frame@
    }

    /// The bytes of finished frames that the sink has not taken yet.
    pub closed spec fn pending(&self) -> Seq<u8> {
        self.out_buf@.skip(self.out_pos as int)
    }

    /// An encoder with nothing written to it.
    pub fn new(codec: Codec, quality: u32, frame_size: usize) -> (encoder: FrameEncoder)
        requires
            frame_size > 0,
        ensures
            encoder.wf(),
            encoder.codec() == codec,
            encoder.quality() == quality,
            encoder.frame_size() == frame_size,
            encoder.in_frame() == Seq::<u8>::empty(),
            encoder.in_frame().len() < encoder.frame_size(),
            encoder.pending() == Seq::<u8>::empty(),
    {
        let encoder = FrameEncoder {
            codec,
            quality,
            frame_size,
            frame: Vec::new(),
            out_buf: Vec::new(),
            out_pos: 0,
        };
        assert(encoder.pending() =~= Seq::<u8>::empty());
        encoder
    }

    /// The bytes that wait for the sink.
    pub fn pending_output(&self) -> (bytes: &[u8])
        requires
            self.wf(),
        ensures
            bytes@ == self.pending(),
    {
        vstd::slice::slice_subrange(self.out_buf.as_slice(), self.out_pos, self.out_buf.len())
    }

    /// Records that the sink took the first `written` bytes of what waits.
    pub fn advance(&mut self, written: usize)
        requires
            old(self).wf(),
        ensures
            final(self).wf(),
            final(self).codec() == old(self).codec(),
            final(self).quality() == old(self).quality(),
            final(self).frame_size() == old(self).frame_size(),
            final(self).in_frame() == old(self).in_frame(),
            final(self).pending() == old(self).pending().skip(
                if written <= old(self).pending().len() {
                    written as int
                } else {
                    old(self).pending().len() as int
                },
            ),
    {
        let left: usize = self.out_buf.len() - self.out_pos;
        if written >= left {
            self.out_buf = Vec::new();
            self.out_pos = 0;
            assert(self.pending() =~= old(self).pending().skip(left as int));
        } else {
            self.out_pos = self.out_pos + written;
            assert(self.pending() =~= old(self).pending().skip(written as int));
        }
    }

    /// Takes the encoder apart: the codec, the quality, the frame size, the bytes of
    /// the frame in progress and the bytes that the sink has not taken yet.
    pub fn into_parts(self) -> (parts: (Codec, u32, usize, Vec<u8>, Vec<u8>))
        requires
            self.wf(),
        ensures
            parts.0 == self.codec(),
            parts.1 == self.quality(),
            parts.2 == self.frame_size(),
            parts.3@ == self.in_frame(),
            parts.4@ == self.pending(),
    {
        let pending = crate::buf::copy_range(
            self.out_buf.as_slice(),
            self.out_pos,
            self.out_buf.len(),
        );
        assert(pending@ =~= self.pending());
        (self.codec, self.quality, self.frame_size, self.frame, pending)
    }

    /// Ends the frame in progress with `packed` as its compressed bytes: the frame
    /// made of them joins what waits for the sink, and the next frame starts empty.
    /// Compressed bytes too many for the size field of a frame are refused.
    pub fn accept_frame(&mut self, packed: &[u8]) -> (accepted: Result<(), Error>)
        requires
            old(self).wf(),
        ensures
            final(self).wf(),
            final(self).codec() == old(self).codec(),
            final(self).quality() == old(self).quality(),
            final(self).frame_size() == old(self).frame_size(),
            packed@.len() > u32::MAX ==> accepted == Err::<(), Error>(
                Error::Other("Frame too large"),
            ) && *final(self) == *old(self),
            packed@.len() <= u32::MAX ==> {
                &&& accepted is Ok
                &&& final(self).in_frame() == Seq::<u8>::empty()
                &&& final(self).pending() == old(self).pending() + frame(
                    old(self).codec(),
                    packed@,
                    old(self).in_frame().len(),
                )
            },
    {
        if packed.len() > u32::MAX as usize {
            return Err(Error::other("Frame too large"));
        }
        let wrapped = build_frame_bytes(self.codec, packed, self.frame.len());
        let mut rest = crate::buf::copy_range(
            self.out_buf.as_slice(),
            self.out_pos,
            self.out_buf.len(),
        );
        crate::buf::append(&mut rest, wrapped.as_slice());
        self.out_buf = rest;
        self.out_pos = 0;
        self.frame = Vec::new();
        proof {
            assert(self.pending() =~= old(self).pending() + wrapped@);
        }
        Ok(())
    }

    /// Compresses the frame in progress and ends it: the frame made of the compressed
    /// bytes joins what waits for the sink, and the next frame starts empty.
    ///
    /// When the codec reports a failure, that is the failure; when it gives more bytes
    /// than a frame can declare, the frame is refused as too large. Either way the
    /// encoder stays as it was.
    pub fn close_frame(&mut self) -> (closed: Result<(), Error>)
        requires
            old(self).wf(),
        ensures
            final(self).wf(),
            final(self).codec() == old(self).codec(),
            final(self).quality() == old(self).quality(),
            final(self).frame_size() == old(self).frame_size(),
            closed is Ok <==> frame_closes(
                old(self).codec(),
                old(self).in_frame(),
                old(self).quality(),
            ),
            closed is Err ==> *final(self) == *old(self),
            closed matches Err(e) ==> is_frame_refusal(
                e,
                old(self).codec(),
                old(self).in_frame(),
                old(self).quality(),
            ),
            closed is Ok ==> {
                &&& compressed(
                    old(self).codec(),
                    old(self).in_frame(),
                    old(self).quality(),
                ).len() <= u32::MAX
                &&& final(self).in_frame() == Seq::<u8>::empty()
                &&& final(self).pending() == old(self).pending() + frame(
                    old(self).codec(),
                    compressed(old(self).codec(), old(self).in_frame(), old(self).quality()),
                    old(self).in_frame().len(),
                )
            },
    {
        match compress_stream(self.codec, self.frame.as_slice(), self.quality) {
            Ok(packed) => self.accept_frame(packed.as_slice()),
            Err(e) => Err(e),
        }
    }

    /// Takes bytes of `buf` into the frame in progress, as many as it still has room
    /// for, and returns their number; a frame that is full thereby is compressed and
    /// ended. Of an empty `buf` nothing is taken.
    ///
    /// When ending the frame fails, nothing is taken and the encoder stays as it was.
    pub fn poll_write(&mut self, buf: &[u8]) -> (taken: Result<usize, Error>)
        requires
            old(self).wf(),
        ensures
            final(self).wf(),
            final(self).codec() == old(self).codec(),
            final(self).quality() == old(self).quality(),
            final(self).frame_size() == old(self).frame_size(),
            final(self).in_frame().len() < final(self).frame_size(),
            old(self).in_frame().len() < old(self).frame_size(),
            taken is Err ==> *final(self) == *old(self),
            buf@.len() + old(self).in_frame().len() >= old(self).frame_size() ==> (taken is Ok
                <==> frame_closes(
                old(self).codec(),
                old(self).in_frame() + buf@.take(
                    old(self).frame_size() - old(self).in_frame().len(),
                ),
                old(self).quality(),
            )),
            taken matches Err(e) ==> is_frame_refusal(
                e,
                old(self).codec(),
                old(self).in_frame() + buf@.take(
                    old(self).frame_size() - old(self).in_frame().len(),
                ),
                old(self).quality(),
            ),
            taken matches Ok(n) ==> {
                let room = old(self).frame_size() - old(self).in_frame().len();
                let joined = old(self).in_frame() + buf@.take(n as int);
                &&& buf@.len() > 0 ==> n >= 1
                &&& n == if buf@.len() <= room {
                    buf@.len() as int
                } else {
                    room
                }
                &&& joined.len() < old(self).frame_size() ==> final(self).in_frame() == joined
                    && final(self).pending() == old(self).pending()
                &&& joined.len() == old(self).frame_size() ==> final(self).in_frame() == Seq::<
                    u8,
                >::empty() && final(self).pending() == old(self).pending() + frame(
                    old(self).codec(),
                    compressed(old(self).codec(), joined, old(self).quality()),
                    joined.len(),
                )
            },
            buf@.len() + old(self).in_frame().len() < old(self).frame_size() ==> taken is Ok,
    {
        if buf.len() == 0 {
            proof {
                assert(self.frame@ + buf@.take(0) =~= self.frame@);
            }
            return Ok(0);
        }
        let cap: usize = self.frame_size - self.frame.len();
        let to_write: usize = if buf.len() <= cap {
            buf.len()
        } else {
            cap
        };
        let ghost joined = self.frame@ + buf@.take(to_write as int);
        if to_write < cap {
            crate::buf::append(&mut self.frame, vstd::slice::slice_subrange(buf, 0, to_write));
            assert(self.frame@ =~= joined);
            return Ok(to_write);
        }
        let mut full: Vec<u8> = Vec::new();
        crate::buf::append(&mut full, self.frame.as_slice());
        crate::buf::append(&mut full, vstd::slice::slice_subrange(buf, 0, to_write));
        assert(full@ =~= joined);
        match compress_stream(self.codec, full.as_slice(), self.quality) {
            Ok(packed) => {
                if packed.len() > u32::MAX as usize {
                    return Err(Error::other("Frame too large"));
                }
                self.frame = full;
                // The frame is full for a moment: it is ended at once.
                let wrapped = build_frame_bytes(self.codec, packed.as_slice(), self.frame.len());
                let mut rest = crate::buf::copy_range(
                    self.out_buf.as_slice(),
                    self.out_pos,
                    self.out_buf.len(),
                );
                crate::buf::append(&mut rest, wrapped.as_slice());
                self.out_buf = rest;
                self.out_pos = 0;
                self.frame = Vec::new();
                proof {
                    assert(self.pending() =~= old(self).pending() + wrapped@);
                }
                Ok(to_write)
            },
            Err(e) => Err(e),
        }
    }

    /// One step of a flush or a close: a frame in progress that holds bytes is
    /// compressed and ended; while frames wait, they have to go to the sink first.
    ///
    /// When ending the frame fails, the encoder stays as it was.
    pub fn poll_flush(&mut self) -> (step: Result<SinkStep, Error>)
        requires
            old(self).wf(),
        ensures
            final(self).wf(),
            final(self).codec() == old(self).codec(),
            final(self).quality() == old(self).quality(),
            final(self).frame_size() == old(self).frame_size(),
            step is Err ==> *final(self) == *old(self),
            old(self).in_frame().len() == 0 ==> step is Ok && *final(self) == *old(self),
            old(self).in_frame().len() > 0 ==> (step is Ok <==> frame_closes(
                old(self).codec(),
                old(self).in_frame(),
                old(self).quality(),
            )),
            step matches Err(e) ==> is_frame_refusal(
                e,
                old(self).codec(),
                old(self).in_frame(),
                old(self).quality(),
            ),
            step matches Ok(s) ==> {
                &&& s == SinkStep::Forward <==> final(self).pending().len() == 0
                &&& final(self).in_frame() == Seq::<u8>::empty()
                &&& old(self).in_frame().len() > 0 ==> final(self).pending() == old(self).pending()
                    + frame(
                    old(self).codec(),
                    compressed(old(self).codec(), old(self).in_frame(), old(self).quality()),
                    old(self).in_frame().len(),
                )
            },
    {
        if self.frame.len() > 0 {
            match self.close_frame() {
                Ok(()) => {},
                Err(e) => {
                    return Err(e);
                },
            }
        } else {
            assert(self.frame@ =~= Seq::<u8>::empty());
        }
        if self.out_pos < self.out_buf.len() {
            Ok(SinkStep::Drain)
        } else {
            Ok(SinkStep::Forward)
        }
    }

    /// One step of a close, which goes as a flush does.
    pub fn poll_close(&mut self) -> (step: Result<SinkStep, Error>)
        requires
            old(self).wf(),
        ensures
            final(self).wf(),
            final(self).codec() == old(self).codec(),
            final(self).quality() == old(self).quality(),
            final(self).frame_size() == old(self).frame_size(),
            step is Err ==> *final(self) == *old(self),
            old(self).in_frame().len() == 0 ==> step is Ok && *final(self) == *old(self),
            old(self).in_frame().len() > 0 ==> (step is Ok <==> frame_closes(
                old(self).codec(),
                old(self).in_frame(),
                old(self).quality(),
            )),
            step matches Err(e) ==> is_frame_refusal(
                e,
                old(self).codec(),
                old(self).in_frame(),
                old(self).quality(),
            ),
            step matches Ok(s) ==> {
                &&& s == SinkStep::Forward <==> final(self).pending().len() == 0
                &&& final(self).in_frame() == Seq::<u8>::empty()
                &&& old(self).in_frame().len() > 0 ==> final(self).pending() == old(self).pending()
                    + frame(
                    old(self).codec(),
                    compressed(old(self).codec(), old(self).in_frame(), old(self).quality()),
                    old(self).in_frame().len(),
                )
            },
    {
        self.poll_flush()
    }

    /// Ends the stream: the frame in progress is compressed and ended, whether it
    /// holds bytes or not, and all that still waits for the sink is handed out.
    ///
    /// When the codec reports a failure, that is the failure; when it gives more bytes
    /// than a frame can declare, the frame is refused as too large.
    pub fn finish(self) -> (rest: Result<Vec<u8>, Error>)
        requires
            self.wf(),
        ensures
            rest is Ok <==> frame_closes(self.codec(), self.in_frame(), self.quality()),
            rest matches Ok(bytes) ==> {
                &&& compressed(self.codec(), self.in_frame(), self.quality()).len() <= u32::MAX
                &&& bytes@ == self.pending() + frame(
                    self.codec(),
                    compressed(self.codec(), self.in_frame(), self.quality()),
                    self.in_frame().len(),
                )
            },
            rest matches Err(e) ==> is_frame_refusal(
                e,
                self.codec(),
                self.in_frame(),
                self.quality(),
            ),
    {
        let mut encoder = self;
        match encoder.close_frame() {
            Ok(()) => {
                let bytes = crate::buf::copy_range(
                    encoder.out_buf.as_slice(),
                    encoder.out_pos,
                    encoder.out_buf.len(),
                );
                Ok(bytes)
            },
            Err(e) => Err(e),
        }
    }
}

/// What a write to an encoder of a framed codec came to.
#[derive(Clone, Copy, Debug, PartialEq, Eq, Structural)]
pub enum FrameWrite {
    /// The stream is not framed: the bytes go to the codec, which writes to the sink.
    Codec,
    /// This many bytes were taken into the frame in progress.
    Taken(usize),
}

/// The two ways a stream is written: as one stream of the codec straight to the sink,
/// or as a run of skippable frames.
pub enum InnerWriter {
    Standard,
    Framed(FrameEncoder),
}

impl InnerWriter {
    /// The frame encoder inside is well formed, where there is one.
    pub open spec fn wf(&self) -> bool {
        match self {
            InnerWriter::Standard => true,
            InnerWriter::Framed(encoder) => encoder.wf(),
        }
    }

    /// The writer for frames of at most `frame_size` uncompressed bytes, or, where
    /// `frame_size` is 0, for one stream without frames.
    pub fn new(codec: Codec, quality: u32, frame_size: usize) -> (writer: InnerWriter)
        ensures
            writer.wf(),
            frame_size == 0 ==> writer is Standard,
            frame_size > 0 ==> {
                &&& writer matches InnerWriter::Framed(encoder)
                &&& encoder.codec() == codec
                &&& encoder.quality() == quality
                &&& encoder.frame_size() == frame_size
                &&& encoder.in_frame() == Seq::<u8>::empty()
                &&& encoder.pending() == Seq::<u8>::empty()
            },
    {
        if frame_size == 0 {
            InnerWriter::Standard
        } else {
            InnerWriter::Framed(FrameEncoder::new(codec, quality, frame_size))
        }
    }

    /// One step of a write of `buf`: see [`FrameEncoder::poll_write`].
    pub fn poll_write(&mut self, buf: &[u8]) -> (written: Result<FrameWrite, Error>)
        requires
            old(self).wf(),
        ensures
            final(self).wf(),
            *old(self) is Standard ==> written == Ok::<FrameWrite, Error>(FrameWrite::Codec)
                && *final(self) is Standard,
            *old(self) matches InnerWriter::Framed(before) ==> {
                &&& *final(self) matches InnerWriter::Framed(after)
                &&& after.codec() == before.codec()
                &&& after.quality() == before.quality()
                &&& after.frame_size() == before.frame_size()
                &&& written is Err ==> after == before
                &&& buf@.len() + before.in_frame().len() < before.frame_size() ==> written is Ok
                &&& buf@.len() + before.in_frame().len() >= before.frame_size() ==> (written is Ok
                    <==> frame_closes(
                    before.codec(),
                    before.in_frame() + buf@.take(before.frame_size() - before.in_frame().len()),
                    before.quality(),
                ))
                &&& written matches Err(e) ==> is_frame_refusal(
                    e,
                    before.codec(),
                    before.in_frame() + buf@.take(before.frame_size() - before.in_frame().len()),
                    before.quality(),
                )
                &&& written matches Ok(step) ==> {
                    let room = before.frame_size() - before.in_frame().len();
                    let n = if buf@.len() <= room {
                        buf@.len() as int
                    } else {
                        room
                    };
                    let joined = before.in_frame() + buf@.take(n);
                    &&& step == FrameWrite::Taken(n as usize)
                    &&& joined.len() < before.frame_size() ==> after.in_frame() == joined
                        && after.pending() == before.pending()
                    &&& joined.len() == before.frame_size() ==> after.in_frame() == Seq::<
                        u8,
                    >::empty() && after.pending() == before.pending() + frame(
                        before.codec(),
                        compressed(before.codec(), joined, before.quality()),
                        joined.len(),
                    )
                }
            },
    {
        match self {
            InnerWriter::Standard => Ok(FrameWrite::Codec),
            InnerWriter::Framed(encoder) => match encoder.poll_write(buf) {
                Ok(n) => Ok(FrameWrite::Taken(n)),
                Err(e) => Err(e),
            },
        }
    }

    /// One step of a flush or a close: see [`FrameEncoder::poll_flush`]. A stream
    /// without frames has nothing of its own to do.
    pub fn poll_flush(&mut self) -> (step: Result<SinkStep, Error>)
        requires
            old(self).wf(),
        ensures
            final(self).wf(),
            *old(self) is Standard ==> step == Ok::<SinkStep, Error>(SinkStep::Forward) && *final(self) is Standard,
            *old(self) matches InnerWriter::Framed(before) ==> {
                &&& *final(self) matches InnerWriter::Framed(after)
                &&& after.codec() == before.codec()
                &&& after.quality() == before.quality()
                &&& after.frame_size() == before.frame_size()
                &&& step is Err ==> after == before
                &&& before.in_frame().len() == 0 ==> step is Ok && after == before
                &&& before.in_frame().len() > 0 ==> (step is Ok <==> frame_closes(
                    before.codec(),
                    before.in_frame(),
                    before.quality(),
                ))
                &&& step matches Err(e) ==> is_frame_refusal(
                    e,
                    before.codec(),
                    before.in_frame(),
                    before.quality(),
                )
                &&& step matches Ok(s) ==> {
                    &&& s == SinkStep::Forward <==> after.pending().len() == 0
                    &&& after.in_frame() == Seq::<u8>::empty()
                    &&& before.in_frame().len() > 0 ==> after.pending() == before.pending()
                        + frame(
                        before.codec(),
                        compressed(before.codec(), before.in_frame(), before.quality()),
                        before.in_frame().len(),
                    )
                }
            },
    {
        match self {
            InnerWriter::Standard => Ok(SinkStep::Forward),
            InnerWriter::Framed(encoder) => encoder.poll_flush(),
        }
    }
}

/// Reads a stream that may be a run of skippable frames: each frame holds one stream
/// of the codec, and where the codec has read a frame to its end, the next frame is
/// looked for.
pub struct FrameDecoder {
    codec: Codec,
    inner: Option<InnerReader>,
}

impl FrameDecoder {
    /// The reader inside is well formed, where there is one.
    pub closed spec fn wf(&self) -> bool {
        self.inner matches Some(reader) ==> reader.wf()
    }

    /// The codec whose streams are read.
    pub closed spec fn codec(&self) -> Codec {
        self.codec
    }

    /// The reader that gives the codec its bytes; none once the stream has ended.
    pub closed spec fn reader(&self) -> Option<InnerReader> {
        self.inner
    }

    /// Opens a stream of which `header` was read ahead: as many of its first bytes as
    /// the header of a frame has, or fewer where the stream is shorter.
    pub fn new(codec: Codec, header: &[u8]) -> (opened: Result<FrameDecoder, Error>)
        ensures
            match first_header(codec, header@) {
                Ok(Some(size)) => opened matches Ok(decoder) && decoder.wf() && decoder.codec()
                    == codec && decoder.reader() == Some(
                    InnerReader::Skippable { remaining_in_frame: size, frame_finished: size == 0 },
                ),
                Ok(None) => {
                    &&& opened matches Ok(decoder)
                    &&& decoder.wf()
                    &&& decoder.codec() == codec
                    &&& decoder.reader() matches Some(
                        InnerReader::Standard { header_buffer, position, header_finished },
                    )
                    &&& header_buffer@ == header@
                    &&& position == 0
                    &&& !header_finished
                },
                Err(e) => opened matches Err(got) && got == e,
            },
    {
        match read_first_header(codec, header) {
            Ok(Some(size)) => Ok(
                FrameDecoder { codec, inner: Some(InnerReader::new_skippable(size)) },
            ),
            Ok(None) => {
                let ahead = crate::buf::copy_range(header, 0, header.len());
                assert(ahead@ =~= header@);
                Ok(FrameDecoder { codec, inner: Some(InnerReader::new_standard(ahead)) })
            },
            Err(e) => Err(e),
        }
    }

    /// Whether the stream has ended.
    pub fn is_finished(&self) -> (finished: bool)
        ensures
            finished == (self.reader() is None),
    {
        self.inner.is_none()
    }

    /// Plans a read of at most `max` bytes for the codec: see
    /// [`InnerReader::poll_read`]. After the end of the stream nothing comes.
    pub fn poll_read(&mut self, max: usize) -> (plan: ReadPlan)
        requires
            old(self).wf(),
        ensures
            final(self).wf(),
            final(self).codec() == old(self).codec(),
            old(self).reader() is None ==> plan is Eof && final(self).reader() is None,
            old(self).reader() matches Some(before) ==> {
                &&& final(self).reader() matches Some(after)
                &&& after.wf()
                &&& before matches InnerReader::Skippable { remaining_in_frame, frame_finished }
                    ==> {
                    &&& after == before
                    &&& frame_finished ==> plan is Eof
                    &&& !frame_finished ==> plan == ReadPlan::Source(
                        if max <= remaining_in_frame {
                            max
                        } else {
                            remaining_in_frame as usize
                        },
                    )
                }
                &&& before is Empty ==> after == before && plan is Eof
                &&& before matches InnerReader::Standard {
                    header_buffer,
                    position,
                    header_finished,
                } ==> {
                    &&& after matches InnerReader::Standard {
                        header_buffer: b,
                        position: p,
                        header_finished: f,
                    }
                    &&& b@ == header_buffer@
                    &&& position == header_buffer.len() ==> plan == ReadPlan::Source(max) && p
                        == position && f
                    &&& position < header_buffer.len() ==> {
                        let left = header_buffer.len() - position;
                        let n = if max <= left {
                            max as int
                        } else {
                            left
                        };
                        &&& plan matches ReadPlan::Header(bytes)
                        &&& bytes@ == header_buffer@.subrange(position as int, position + n)
                        &&& p == position + n
                        &&& !f
                    }
                }
            },
    {
        match &mut self.inner {
            None => ReadPlan::Eof,
            Some(reader) => reader.poll_read(max),
        }
    }

    /// Records what a read of the source gave: see [`InnerReader::after_read`].
    pub fn after_read(&mut self, bytes_read: usize)
        requires
            old(self).wf(),
        ensures
            final(self).wf(),
            final(self).codec() == old(self).codec(),
            old(self).reader() is None ==> final(self).reader() is None,
            old(self).reader() matches Some(before) ==> {
                &&& final(self).reader() matches Some(after)
                &&& match before {
                    InnerReader::Skippable { remaining_in_frame, frame_finished } => {
                        let left = if bytes_read >= remaining_in_frame {
                            0u32
                        } else {
                            (remaining_in_frame - bytes_read) as u32
                        };
                        after == (InnerReader::Skippable {
                            remaining_in_frame: left,
                            frame_finished: frame_finished || bytes_read == 0 || left == 0,
                        })
                    },
                    _ => after == before,
                }
            },
    {
        match &mut self.inner {
            None => {},
            Some(reader) => reader.after_read(bytes_read),
        }
    }

    /// Takes note that the codec has read its stream to the end, and looks for a
    /// frame behind it: `available` holds as many of the next header's bytes as the
    /// source still had. Returns whether the codec is to start anew on another frame;
    /// where none follows, the stream has ended.
    pub fn on_stream_end(&mut self, available: &[u8]) -> (again: Result<bool, Error>)
        requires
            old(self).wf(),
        ensures
            final(self).wf(),
            final(self).codec() == old(self).codec(),
            old(self).reader() is None ==> again == Ok::<bool, Error>(false) && final(self).reader() is None,
            old(self).reader() matches Some(before) ==> {
                if before.at_frame_end() {
                    match next_header(old(self).codec(), available@) {
                        Ok(Some(size)) => again == Ok::<bool, Error>(true) && final(self).reader()
                            == Some(
                            InnerReader::Skippable {
                                remaining_in_frame: size,
                                frame_finished: size == 0,
                            },
                        ),
                        Ok(None) => again == Ok::<bool, Error>(false) && final(self).reader()
                            is None,
                        Err(e) => again == Err::<bool, Error>(e) && final(self).reader() == Some(
                            before,
                        ),
                    }
                } else {
                    again == Ok::<bool, Error>(false) && final(self).reader() is None
                }
            },
    {
        let codec = self.codec;
        match &mut self.inner {
            None => Ok(false),
            Some(reader) => {
                match reader.read_next_frame_header(codec, available) {
                    Ok(true) => Ok(true),
                    Ok(false) => {
                        self.inner = None;
                        Ok(false)
                    },
                    Err(e) => Err(e),
                }
            },
        }
    }
}

} // verus!
