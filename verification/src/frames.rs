//! Pack streams of Brotli and LZ4 in memory: a pack stream is cut into the streams of
//! the codec that its frames hold, and data is written as a run of frames.

use vstd::prelude::*;

use crate::buf::clipped;
use crate::codec::{
    brotli_decode, brotli_decoded, brotli_decoding, lz4_decode, lz4_decoded, lz4_decoding,
};
use crate::error::Error;
use crate::frame::{
    build_frame_bytes, compress_stream, compressed, compressing, first_header, frame, frame_closes,
    next_header, read_first_header, read_next_header, Codec, InnerWriter,
};
use crate::frame_laws::ahead;

verus! {

/// The failure of a codec of another crate that did not take its input.
pub open spec fn is_codec_failure(e: Error) -> bool {
    e matches Error::Io(_, text) && text == "The codec refused its input"
}

/// What the result of a codec of another crate becomes: its bytes, or the failure of
/// a codec that did not take its input, with the class of what the codec reported.
pub fn codec_result(result: Result<Vec<u8>, std::io::Error>) -> (out: Result<Vec<u8>, Error>)
    ensures
        match result {
            Ok(bytes) => out == Ok::<Vec<u8>, Error>(bytes),
            Err(_) => out matches Err(e) && is_codec_failure(e),
        },
{
    match result {
        Ok(bytes) => Ok(bytes),
        Err(e) => Err(Error::from_io(&e, "The codec refused its input")),
    }
}

/// The streams of the codec that follow each other in `stream`, which starts with a
/// payload declared with `payload_len` bytes.
///
/// Where the stream ends inside the payload, the payload is what there is. Behind a
/// whole payload the header of the next frame is looked for: where there is none,
/// the streams end; a header that the stream cuts short is refused.
pub open spec fn frames_from(codec: Codec, stream: Seq<u8>, payload_len: nat) -> Result<
    Seq<Seq<u8>>,
    Error,
>
    decreases stream.len(),
{
    if stream.len() <= payload_len {
        Ok(seq![stream])
    } else {
        let payload = stream.take(payload_len as int);
        let behind = stream.skip(payload_len as int);
        match next_header(codec, ahead(behind, codec.spec_header_len())) {
            Err(e) => Err(e),
            Ok(None) => Ok(seq![payload]),
            Ok(Some(next)) => if behind.len() < codec.spec_header_len() {
                Ok(seq![payload])
            } else {
                match frames_from(codec, behind.skip(codec.spec_header_len() as int), next as nat) {
                    Ok(rest) => Ok(seq![payload] + rest),
                    Err(e) => Err(e),
                }
            },
        }
    }
}

/// The streams of the codec that a pack stream holds: the payloads of its frames
/// where it starts with a frame, else the pack stream itself.
pub open spec fn streams_of(codec: Codec, input: Seq<u8>) -> Result<Seq<Seq<u8>>, Error> {
    match first_header(codec, ahead(input, codec.spec_header_len())) {
        Err(e) => Err(e),
        Ok(None) => Ok(seq![input]),
        Ok(Some(size)) => frames_from(
            codec,
            input.skip(codec.spec_header_len() as int),
            size as nat,
        ),
    }
}

/// `done`, followed by the streams that `rest` found, if it found any.
pub open spec fn then(done: Seq<Seq<u8>>, rest: Result<Seq<Seq<u8>>, Error>) -> Result<
    Seq<Seq<u8>>,
    Error,
> {
    match rest {
        Ok(more) => Ok(done + more),
        Err(e) => Err(e),
    }
}

/// The streams as sequences of bytes.
pub open spec fn stream_views(streams: Seq<Vec<u8>>) -> Seq<Seq<u8>> {
    Seq::new(streams.len(), |i: int| streams[i]@)
}

/// Cuts a pack stream into the streams of the codec that it holds.
#[verifier::rlimit(40)]
pub fn split_streams(codec: Codec, input: &[u8]) -> (cut: Result<Vec<Vec<u8>>, Error>)
    ensures
        match streams_of(codec, input@) {
            Ok(streams) => cut matches Ok(got) && stream_views(got@) == streams,
            Err(e) => cut == Err::<Vec<Vec<u8>>, Error>(e),
        },
{
    let len: usize = input.len();
    let header_len: usize = codec.header_len();
    let ahead_len: usize = if len <= header_len {
        len
    } else {
        header_len
    };
    assert(input@.subrange(0, ahead_len as int) =~= ahead(input@, codec.spec_header_len()));
    let first = match read_first_header(codec, vstd::slice::slice_subrange(input, 0, ahead_len)) {
        Ok(first) => first,
        Err(e) => {
            return Err(e);
        },
    };
    let mut streams: Vec<Vec<u8>> = Vec::new();
    let mut payload_len: usize = match first {
        None => {
            streams.push(crate::buf::copy_range(input, 0, len));
            assert(input@.subrange(0, len as int) =~= input@);
            assert(stream_views(streams@) =~= seq![input@]);
            return Ok(streams);
        },
        Some(size) => size as usize,
    };
    let mut at: usize = header_len;
    assert(stream_views(streams@) =~= Seq::<Seq<u8>>::empty());
    assert(Seq::<Seq<u8>>::empty() + frames_from(
        codec,
        input@.skip(at as int),
        payload_len as nat,
    )->Ok_0 =~= frames_from(codec, input@.skip(at as int), payload_len as nat)->Ok_0);
    loop
        invariant_except_break
            streams_of(codec, input@) == then(
                stream_views(streams@),
                frames_from(codec, input@.skip(at as int), payload_len as nat),
            ),
        invariant
            header_len == codec.spec_header_len(),
            len == input@.len(),
            header_len <= at <= len,
        ensures
            streams_of(codec, input@) == Ok::<Seq<Seq<u8>>, Error>(stream_views(streams@)),
        decreases len - at,
    {
        let ghost stream = input@.skip(at as int);
        let ghost done = stream_views(streams@);
        if len - at <= payload_len {
            streams.push(crate::buf::copy_range(input, at, len));
            proof {
                assert(input@.subrange(at as int, len as int) =~= stream);
                assert(stream_views(streams@) =~= done + seq![stream]);
            }
            break ;
        }
        let end: usize = at + payload_len;
        streams.push(crate::buf::copy_range(input, at, end));
        let available_end: usize = if len - end <= header_len {
            len
        } else {
            end + header_len
        };
        let ghost payload = stream.take(payload_len as int);
        let ghost behind = stream.skip(payload_len as int);
        proof {
            assert(input@.subrange(at as int, end as int) =~= payload);
            assert(stream_views(streams@) =~= done + seq![payload]);
            assert(behind =~= input@.skip(end as int));
            assert(input@.subrange(end as int, available_end as int) =~= ahead(
                behind,
                codec.spec_header_len(),
            ));
        }
        match read_next_header(
            codec,
            vstd::slice::slice_subrange(input, end, available_end),
        ) {
            Err(e) => {
                return Err(e);
            },
            Ok(None) => {
                break ;
            },
            Ok(Some(next)) => {
                if len - end < header_len {
                    break ;
                }
                proof {
                    let rest = frames_from(
                        codec,
                        behind.skip(codec.spec_header_len() as int),
                        next as nat,
                    );
                    assert(behind.skip(codec.spec_header_len() as int) =~= input@.skip(
                        end + header_len,
                    ));
                    if rest is Ok {
                        assert(done + (seq![payload] + rest->Ok_0) =~= (done + seq![payload])
                            + rest->Ok_0);
                    }
                }
                at = end + header_len;
                payload_len = next as usize;
            },
        }
    }
    Ok(streams)
}

/// The first `size` bytes, or all, of what the codec makes of one of its streams.
pub open spec fn stream_decoded(codec: Codec, stream: Seq<u8>, size: usize) -> Seq<u8> {
    match codec {
        Codec::Brotli => brotli_decoded(stream, size),
        Codec::Lz4 => lz4_decoded(stream, size),
    }
}

/// What the codec makes of its streams, each decoded as far as `size` bytes, one
/// after the other.
pub open spec fn streams_decoded(codec: Codec, streams: Seq<Seq<u8>>, size: usize) -> Seq<u8>
    decreases streams.len(),
{
    if streams.len() == 0 {
        Seq::empty()
    } else {
        streams_decoded(codec, streams.drop_last(), size) + stream_decoded(
            codec,
            streams.last(),
            size,
        )
    }
}

/// Whether the codec takes one of its streams: it decodes it without a failure.
pub open spec fn stream_decodes(codec: Codec, stream: Seq<u8>, size: usize) -> bool {
    match codec {
        Codec::Brotli => brotli_decoding(stream, size) is Some,
        Codec::Lz4 => lz4_decoding(stream, size) is Some,
    }
}

/// Whether the codec takes each of its streams.
pub open spec fn streams_decode(codec: Codec, streams: Seq<Seq<u8>>, size: usize) -> bool
    decreases streams.len(),
{
    if streams.len() == 0 {
        true
    } else {
        streams_decode(codec, streams.drop_last(), size) && stream_decodes(
            codec,
            streams.last(),
            size,
        )
    }
}

/// Where the codec takes all of some streams, it takes the first of them.
pub proof fn lemma_streams_decode_prefix(
    codec: Codec,
    streams: Seq<Seq<u8>>,
    size: usize,
    upto: int,
)
    requires
        0 <= upto <= streams.len(),
        streams_decode(codec, streams, size),
    ensures
        streams_decode(codec, streams.take(upto), size),
    decreases streams.len(),
{
    if upto == streams.len() {
        assert(streams.take(upto) =~= streams);
    } else {
        lemma_streams_decode_prefix(codec, streams.drop_last(), size, upto);
        assert(streams.drop_last().take(upto) =~= streams.take(upto));
    }
}

/// Decodes the streams of the codec, one after the other, and gives the first `size`
/// bytes of what they hold together, or all. It fails where the codec reports a
/// failure for one of them, and only there.
pub fn decode_streams(codec: Codec, streams: &Vec<Vec<u8>>, size: usize) -> (out: Result<
    Vec<u8>,
    Error,
>)
    ensures
        out is Ok <==> streams_decode(codec, stream_views(streams@), size),
        out matches Ok(bytes) ==> bytes@ == clipped(
            streams_decoded(codec, stream_views(streams@), size),
            size,
        ) && bytes@.len() <= size,
        out matches Err(e) ==> is_codec_failure(e),
{
    let ghost views = stream_views(streams@);
    let mut out: Vec<u8> = Vec::new();
    let mut i: usize = 0;
    assert(views.take(0) =~= Seq::<Seq<u8>>::empty());
    while i < streams.len()
        invariant
            i <= streams.len(),
            views == stream_views(streams@),
            out@ == streams_decoded(codec, views.take(i as int), size),
            streams_decode(codec, views.take(i as int), size),
        decreases streams.len() - i,
    {
        let stream = streams[i].as_slice();
        let result = match codec {
            Codec::Brotli => brotli_decode(stream, size),
            Codec::Lz4 => lz4_decode(stream, size),
        };
        proof {
            assert(views.take(i + 1).drop_last() =~= views.take(i as int));
            assert(views.take(i + 1).last() == streams@[i as int]@);
        }
        let plain = match codec_result(result) {
            Ok(plain) => plain,
            Err(e) => {
                proof {
                    assert(!streams_decode(codec, views.take(i + 1), size));
                    if streams_decode(codec, views, size) {
                        lemma_streams_decode_prefix(codec, views, size, i + 1);
                    }
                }
                return Err(e);
            },
        };
        crate::buf::append(&mut out, plain.as_slice());
        i += 1;
    }
    assert(views.take(streams.len() as int) =~= views);
    if out.len() > size {
        out.truncate(size);
    }
    Ok(out)
}

/// Decodes a pack stream of the codec, framed or not: each stream of the codec that
/// it holds is decoded, and the first `size` bytes of what they hold together are
/// given, or all.
///
/// A pack stream whose frames are not built as frames are is refused before any of
/// it is decoded. After that, decoding fails where the codec reports a failure for
/// one of the streams, and only there.
pub fn decode_frames(codec: Codec, input: &[u8], size: usize) -> (out: Result<Vec<u8>, Error>)
    ensures
        match streams_of(codec, input@) {
            Ok(streams) => {
                &&& out is Ok <==> streams_decode(codec, streams, size)
                &&& out matches Ok(bytes) ==> bytes@ == clipped(
                    streams_decoded(codec, streams, size),
                    size,
                ) && bytes@.len() <= size
                &&& out matches Err(e) ==> is_codec_failure(e)
            },
            Err(e) => out == Err::<Vec<u8>, Error>(e),
        },
{
    match split_streams(codec, input) {
        Ok(streams) => decode_streams(codec, &streams, size),
        Err(e) => Err(e),
    }
}

/// The frames that `data` is written as: each holds the next `frame_size` bytes, or
/// what is left, compressed as one stream of the codec.
pub open spec fn data_framed(codec: Codec, quality: u32, frame_size: usize, data: Seq<u8>) -> Seq<
    u8,
>
    decreases data.len(),
{
    if data.len() == 0 || frame_size == 0 {
        Seq::empty()
    } else {
        let piece = ahead(data, frame_size as nat);
        frame(codec, compressed(codec, piece, quality), piece.len()) + data_framed(
            codec,
            quality,
            frame_size,
            data.skip(piece.len() as int),
        )
    }
}

/// What `data` is written as: one stream of the codec where `frame_size` is 0, else
/// a run of frames.
pub open spec fn data_encoded(codec: Codec, quality: u32, frame_size: usize, data: Seq<u8>) -> Seq<
    u8,
> {
    if frame_size == 0 {
        compressed(codec, data, quality)
    } else {
        data_framed(codec, quality, frame_size, data)
    }
}

/// Whether each of the frames that `data` is written as can be ended: the codec
/// takes each piece and gives no more bytes than a frame can declare.
pub open spec fn data_frames(codec: Codec, quality: u32, frame_size: usize, data: Seq<u8>) -> bool
    decreases data.len(),
{
    if data.len() == 0 || frame_size == 0 {
        true
    } else {
        let piece = ahead(data, frame_size as nat);
        frame_closes(codec, piece, quality) && data_frames(
            codec,
            quality,
            frame_size,
            data.skip(piece.len() as int),
        )
    }
}

/// Whether `data` can be written: as one stream of the codec where `frame_size` is
/// 0, else as a run of frames.
pub open spec fn data_encodes(
    codec: Codec,
    quality: u32,
    frame_size: usize,
    data: Seq<u8>,
) -> bool {
    if frame_size == 0 {
        compressing(codec, data, quality) is Some
    } else {
        data_frames(codec, quality, frame_size, data)
    }
}

/// Whether `e` is the failure of a frame that cannot be written: the codec failed,
/// or gave more bytes than a frame can declare.
pub open spec fn is_frame_failure(e: Error) -> bool {
    ||| e == Error::Other("Frame too large")
    ||| (e matches Error::Io(_, text) && text == "compression failed")
}

/// Writes `data` as one stream of the codec where `frame_size` is 0, else as a run
/// of frames of at most `frame_size` uncompressed bytes each.
pub fn encode_frames(codec: Codec, quality: u32, frame_size: usize, data: &[u8]) -> (out: Result<
    Vec<u8>,
    Error,
>)
    ensures
        out is Ok <==> data_encodes(codec, quality, frame_size, data@),
        out matches Ok(bytes) ==> bytes@ == data_encoded(codec, quality, frame_size, data@),
        out matches Err(e) ==> is_frame_failure(e),
{
    if frame_size == 0 {
        return compress_stream(codec, data, quality);
    }
    let len: usize = data.len();
    let mut out: Vec<u8> = Vec::new();
    let mut at: usize = 0;
    assert(data@.skip(0) =~= data@);
    while at < len
        invariant
            at <= len == data@.len(),
            frame_size > 0,
            out@ + data_framed(codec, quality, frame_size, data@.skip(at as int)) == data_framed(
                codec,
                quality,
                frame_size,
                data@,
            ),
            data_frames(codec, quality, frame_size, data@.skip(at as int)) == data_frames(
                codec,
                quality,
                frame_size,
                data@,
            ),
        decreases len - at,
    {
        let end: usize = if len - at <= frame_size {
            len
        } else {
            at + frame_size
        };
        let piece = vstd::slice::slice_subrange(data, at, end);
        proof {
            let rest = data@.skip(at as int);
            assert(piece@ =~= ahead(rest, frame_size as nat));
            assert(rest.skip(piece@.len() as int) =~= data@.skip(end as int));
        }
        let packed = match compress_stream(codec, piece, quality) {
            Ok(packed) => packed,
            Err(e) => {
                return Err(e);
            },
        };
        if packed.len() > u32::MAX as usize {
            return Err(Error::other("Frame too large"));
        }
        let wrapped = build_frame_bytes(codec, packed.as_slice(), end - at);
        proof {
            let rest = data@.skip(at as int);
            assert(piece@ =~= ahead(rest, frame_size as nat));
            assert(rest.skip(piece@.len() as int) =~= data@.skip(end as int));
            let tail = data_framed(codec, quality, frame_size, data@.skip(end as int));
            assert(out@ + (wrapped@ + tail) =~= (out@ + wrapped@) + tail);
        }
        crate::buf::append(&mut out, wrapped.as_slice());
        at = end;
    }
    assert(out@ + Seq::<u8>::empty() =~= out@);
    Ok(out)
}

/// What a writer still hands to the sink when `data` is all that is left to write:
/// as one stream of the codec, `data` compressed; in frames, the frames that wait,
/// then the frames of what waits of the frame in progress followed by `data`.
pub open spec fn writer_output(writer: InnerWriter, codec: Codec, quality: u32, data: Seq<u8>) -> Seq<
    u8,
> {
    match writer {
        InnerWriter::Standard => compressed(codec, data, quality),
        InnerWriter::Framed(encoder) => encoder.pending() + data_framed(
            encoder.codec(),
            encoder.quality(),
            encoder.frame_size(),
            encoder.in_frame() + data,
        ),
    }
}

/// Whether a writer can write all that is left, `data`: as one stream of the codec,
/// the codec takes `data`; in frames, each frame of what waits of the frame in
/// progress followed by `data` can be ended.
pub open spec fn writer_takes(
    writer: InnerWriter,
    codec: Codec,
    quality: u32,
    data: Seq<u8>,
) -> bool {
    match writer {
        InnerWriter::Standard => compressing(codec, data, quality) is Some,
        InnerWriter::Framed(encoder) => data_frames(
            encoder.codec(),
            encoder.quality(),
            encoder.frame_size(),
            encoder.in_frame() + data,
        ),
    }
}

/// Writes all that is left, `data`, through a writer of the codec, and gives all the
/// bytes that the sink has not taken yet. A writer of frames that has nothing to
/// write makes no frame, and so does not fail.
pub fn encode_rest(writer: InnerWriter, codec: Codec, quality: u32, data: &[u8]) -> (out: Result<
    Vec<u8>,
    Error,
>)
    requires
        writer.wf(),
    ensures
        out is Ok <==> writer_takes(writer, codec, quality, data@),
        out matches Ok(bytes) ==> bytes@ == writer_output(writer, codec, quality, data@),
        out matches Err(e) ==> is_frame_failure(e),
{
    match writer {
        InnerWriter::Standard => compress_stream(codec, data, quality),
        InnerWriter::Framed(encoder) => {
            let (codec, quality, frame_size, in_frame, pending) = encoder.into_parts();
            let mut joined = in_frame;
            crate::buf::append(&mut joined, data);
            let mut out = pending;
            if frame_size == 0 {
                return Ok(out);
            }
            match encode_frames(codec, quality, frame_size, joined.as_slice()) {
                Ok(frames) => {
                    crate::buf::append(&mut out, frames.as_slice());
                    Ok(out)
                },
                Err(e) => Err(e),
            }
        },
    }
}

} // verus!
