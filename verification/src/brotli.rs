//! The reader and the writer of a Brotli pack stream, which may come in skippable
//! frames.

use vstd::prelude::*;

use crate::error::Error;
use crate::frame::{
    build_frame_bytes, first_header, frame, Codec, FrameDecoder, InnerReader, InnerWriter,
};

verus! {

/// Reads a Brotli stream that may come in skippable frames.
pub struct BrotliDecoder {
    /// The walk through the frames.
    pub frames: FrameDecoder,
    /// The size of the buffer through which the Brotli decoder reads.
    pub buffer_size: usize,
}

impl BrotliDecoder {
    /// Opens a stream of which `header` was read ahead: its first 16 bytes, or fewer
    /// where the stream is shorter.
    ///
    /// A stream of fewer than four bytes is refused, and so is one that starts as a
    /// frame does and then has another skip size than 8 or lacks the Brotli magic.
    pub fn new(header: &[u8], buffer_size: usize) -> (opened: Result<BrotliDecoder, Error>)
        ensures
            match first_header(Codec::Brotli, header@) {
                Ok(Some(size)) => {
                    &&& opened matches Ok(decoder)
                    &&& decoder.buffer_size == buffer_size
                    &&& decoder.frames.wf()
                    &&& decoder.frames.codec() == Codec::Brotli
                    &&& decoder.frames.reader() == Some(
                        InnerReader::Skippable {
                            remaining_in_frame: size,
                            frame_finished: size == 0,
                        },
                    )
                },
                Ok(None) => {
                    &&& opened matches Ok(decoder)
                    &&& decoder.buffer_size == buffer_size
                    &&& decoder.frames.wf()
                    &&& decoder.frames.codec() == Codec::Brotli
                    &&& decoder.frames.reader() matches Some(
                        InnerReader::Standard { header_buffer, position, header_finished },
                    )
                    &&& header_buffer@ == header@
                    &&& position == 0
                    &&& !header_finished
                },
                Err(e) => opened matches Err(got) && got == e,
            },
    {
        match FrameDecoder::new(Codec::Brotli, header) {
            Ok(frames) => Ok(BrotliDecoder { frames, buffer_size }),
            Err(e) => Err(e),
        }
    }
}

/// Writes a Brotli stream, in skippable frames where a frame size is set.
pub struct BrotliEncoder {
    /// The frames in the making, or the mark of a stream without frames.
    pub inner: InnerWriter,
    /// The quality at which Brotli compresses.
    pub quality: u32,
}

impl BrotliEncoder {
    /// An encoder for frames of at most `frame_size` uncompressed bytes, or, where
    /// `frame_size` is 0, for one stream without frames.
    pub fn new(quality: u32, frame_size: usize) -> (made: Result<BrotliEncoder, Error>)
        ensures
            made matches Ok(encoder) && encoder.quality == quality && encoder.inner.wf(),
            frame_size == 0 ==> (made matches Ok(encoder) && encoder.inner is Standard),
            frame_size > 0 ==> {
                &&& made matches Ok(encoder)
                &&& encoder.inner matches InnerWriter::Framed(frames)
                &&& frames.codec() == Codec::Brotli
                &&& frames.quality() == quality
                &&& frames.frame_size() == frame_size
                &&& frames.in_frame() == Seq::<u8>::empty()
                &&& frames.pending() == Seq::<u8>::empty()
            },
    {
        Ok(BrotliEncoder { inner: InnerWriter::new(Codec::Brotli, quality, frame_size), quality })
    }

    /// Wraps the compressed bytes of one frame, which stand for `uncompressed_bytes`
    /// bytes, in a skippable frame: a header of 16 bytes and the bytes themselves.
    pub fn build_frame_bytes(compressed_data: &[u8], uncompressed_bytes: usize) -> (out: Vec<u8>)
        requires
            compressed_data.len() <= u32::MAX,
        ensures
            out@ == frame(Codec::Brotli, compressed_data@, uncompressed_bytes as nat),
    {
        build_frame_bytes(Codec::Brotli, compressed_data, uncompressed_bytes)
    }
}

} // verus!
