//! The reader and the writer of an LZ4 pack stream, which may come in skippable
//! frames.

use vstd::prelude::*;

use crate::error::Error;
use crate::frame::{
    build_frame_bytes, compressed, first_header, frame, frame_closes, is_frame_refusal, Codec,
    FrameDecoder, InnerReader, InnerWriter,
};

verus! {

/// Reads an LZ4 stream that may come in skippable frames.
pub struct Lz4Decoder {
    /// The walk through the frames.
    pub frames: FrameDecoder,
}

impl Lz4Decoder {
    /// Opens a stream of which `header` was read ahead: its first 12 bytes, or fewer
    /// where the stream is shorter.
    ///
    /// A stream of fewer than four bytes is refused, and so is one that starts as a
    /// frame does and then has another skip size than 4.
    pub fn new(header: &[u8]) -> (opened: Result<Lz4Decoder, Error>)
        ensures
            match first_header(Codec::Lz4, header@) {
                Ok(Some(size)) => {
                    &&& opened matches Ok(decoder)
                    &&& decoder.frames.wf()
                    &&& decoder.frames.codec() == Codec::Lz4
                    &&& decoder.frames.reader() == Some(
                        InnerReader::Skippable {
                            remaining_in_frame: size,
                            frame_finished: size == 0,
                        },
                    )
                },
                Ok(None) => {
                    &&& opened matches Ok(decoder)
                    &&& decoder.frames.wf()
                    &&& decoder.frames.codec() == Codec::Lz4
                    &&& decoder.frames.reader() matches Some(
                        InnerReader::Standard { header_buffer, position, header_finished },
                    )
                    &&& header_buffer@ == header@
                    &&& position == 0
                    &&& !header_finished
                },
                Err(e) => opened matches Err(got) && got == e,
            },
    {
        match FrameDecoder::new(Codec::Lz4, header) {
            Ok(frames) => Ok(Lz4Decoder { frames }),
            Err(e) => Err(e),
        }
    }
}

/// Writes an LZ4 stream, in skippable frames where a frame size is set.
pub struct Lz4Encoder {
    /// The frames in the making, or the mark of a stream without frames.
    pub inner: InnerWriter,
}

impl Lz4Encoder {
    /// An encoder for frames of at most `frame_size` uncompressed bytes, or, where
    /// `frame_size` is 0, for one stream without frames.
    pub fn new(frame_size: usize) -> (made: Result<Lz4Encoder, Error>)
        ensures
            made matches Ok(encoder) && encoder.inner.wf(),
            frame_size == 0 ==> (made matches Ok(encoder) && encoder.inner is Standard),
            frame_size > 0 ==> {
                &&& made matches Ok(encoder)
                &&& encoder.inner matches InnerWriter::Framed(frames)
                &&& frames.codec() == Codec::Lz4
                &&& frames.frame_size() == frame_size
                &&& frames.in_frame() == Seq::<u8>::empty()
                &&& frames.pending() == Seq::<u8>::empty()
            },
    {
        Ok(Lz4Encoder { inner: InnerWriter::new(Codec::Lz4, 0, frame_size) })
    }

    /// Wraps the compressed bytes of one frame in a skippable frame: a header of 12
    /// bytes and the bytes themselves.
    pub fn build_frame_bytes(compressed_data: &[u8]) -> (out: Vec<u8>)
        requires
            compressed_data.len() <= u32::MAX,
        ensures
            out@ == frame(Codec::Lz4, compressed_data@, 0),
    {
        build_frame_bytes(Codec::Lz4, compressed_data, 0)
    }

    /// Ends the stream. Of a framed stream, the frame in progress is compressed and
    /// ended, and all bytes that the sink has not taken yet are handed out; this fails
    /// where the codec does not take the frame, or gives more bytes than a frame can
    /// declare, and only there. A stream without frames hands out nothing: its bytes
    /// went to the codec of the driver, which ends the stream by closing that codec.
    pub fn finish(self) -> (rest: Result<Option<Vec<u8>>, Error>)
        requires
            self.inner.wf(),
        ensures
            self.inner is Standard ==> rest matches Ok(None),
            self.inner matches InnerWriter::Framed(frames) ==> (rest is Ok <==> frame_closes(
                frames.codec(),
                frames.in_frame(),
                frames.quality(),
            )),
            self.inner matches InnerWriter::Framed(frames) ==> (rest matches Err(e)
                ==> is_frame_refusal(e, frames.codec(), frames.in_frame(), frames.quality())),
            self.inner matches InnerWriter::Framed(frames) ==> (rest matches Ok(out) ==> {
                &&& out matches Some(bytes)
                &&& bytes@ == frames.pending() + frame(
                    frames.codec(),
                    compressed(frames.codec(), frames.in_frame(), frames.quality()),
                    frames.in_frame().len(),
                )
            }),
    {
        match self.inner {
            InnerWriter::Standard => Ok(None),
            InnerWriter::Framed(frames) => match frames.finish() {
                Ok(bytes) => Ok(Some(bytes)),
                Err(e) => Err(e),
            },
        }
    }
}

} // verus!
