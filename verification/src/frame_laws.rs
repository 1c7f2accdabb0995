//! What holds of runs of skippable frames: they are read back as they were written,
//! and reading can resume at any frame boundary.

use vstd::prelude::*;

use crate::frame::{
    compressed, first_header, frame, frame_header, lemma_frame_header_len, next_header, Codec,
};
use crate::frames::{data_framed, frames_from, streams_decoded, streams_of};
use crate::le::{le_bytes, lemma_le_bytes_len, lemma_le_round_trip, lemma_weights};

verus! {

/// The payloads `payloads`, each in a frame of its own, one frame after the other;
/// `hints` gives for each the number of bytes it stands for.
pub open spec fn framed(codec: Codec, payloads: Seq<Seq<u8>>, hints: Seq<nat>) -> Seq<u8>
    decreases payloads.len(),
{
    if payloads.len() == 0 {
        Seq::empty()
    } else {
        frame(codec, payloads[0], hints[0]) + framed(
            codec,
            payloads.drop_first(),
            hints.drop_first(),
        )
    }
}

/// The first `count` bytes of `stream`, or all of it where it has fewer.
pub open spec fn ahead(stream: Seq<u8>, count: nat) -> Seq<u8> {
    if stream.len() <= count {
        stream
    } else {
        stream.take(count as int)
    }
}

/// Whether each payload has bytes, and no more than the size field of a frame can
/// declare, and a hint goes with each.
pub open spec fn can_be_framed(payloads: Seq<Seq<u8>>, hints: Seq<nat>) -> bool {
    &&& hints.len() == payloads.len()
    &&& forall|i: int| 0 <= i < payloads.len() ==> 0 < (#[trigger] payloads[i]).len() <= u32::MAX
}

/// The header of a frame is read back as the header of a frame with the payload size
/// it was written for, both at the start of a stream and behind another frame.
pub proof fn lemma_header_read_back(codec: Codec, payload_len: nat, uncompressed: nat)
    requires
        payload_len <= u32::MAX,
    ensures
        first_header(codec, frame_header(codec, payload_len, uncompressed)) == Ok::<
            Option<u32>,
            crate::error::Error,
        >(Some(payload_len as u32)),
        next_header(codec, frame_header(codec, payload_len, uncompressed)) == Ok::<
            Option<u32>,
            crate::error::Error,
        >(Some(payload_len as u32)),
{
    let header = frame_header(codec, payload_len, uncompressed);
    lemma_frame_header_len(codec, payload_len, uncompressed);
    lemma_weights();
    lemma_le_bytes_len(0x184D2A50, 4);
    lemma_le_bytes_len(codec.spec_skip_size(), 4);
    lemma_le_bytes_len(payload_len, 4);
    lemma_le_bytes_len(0x5242, 2);
    lemma_le_bytes_len(crate::frame::brotli_hint(uncompressed), 2);
    lemma_le_round_trip(0x184D2A50, 4);
    lemma_le_round_trip(codec.spec_skip_size(), 4);
    lemma_le_round_trip(payload_len, 4);
    lemma_le_round_trip(0x5242, 2);
    assert(header.subrange(0, 4) =~= le_bytes(0x184D2A50, 4));
    assert(header.subrange(4, 8) =~= le_bytes(codec.spec_skip_size(), 4));
    assert(header.subrange(8, 12) =~= le_bytes(payload_len, 4));
    if codec == Codec::Brotli {
        assert(header.subrange(12, 14) =~= le_bytes(0x5242, 2));
    }
}

/// A run of frames has bytes as soon as it has a frame.
pub proof fn lemma_framed_len(codec: Codec, payloads: Seq<Seq<u8>>, hints: Seq<nat>)
    requires
        can_be_framed(payloads, hints),
        payloads.len() > 0,
    ensures
        framed(codec, payloads, hints).len() >= codec.spec_header_len() + payloads[0].len(),
        framed(codec, payloads, hints).take(codec.spec_header_len() as int) == frame_header(
            codec,
            payloads[0].len(),
            hints[0],
        ),
        framed(codec, payloads, hints).skip(codec.spec_header_len() as int) == payloads[0]
            + framed(codec, payloads.drop_first(), hints.drop_first()),
{
    let header = frame_header(codec, payloads[0].len(), hints[0]);
    lemma_frame_header_len(codec, payloads[0].len(), hints[0]);
    let rest = framed(codec, payloads.drop_first(), hints.drop_first());
    let all = framed(codec, payloads, hints);
    assert(all == (header + payloads[0]) + rest);
    assert(all.take(codec.spec_header_len() as int) =~= header);
    assert(all.skip(codec.spec_header_len() as int) =~= payloads[0] + rest);
}

/// Two runs of frames, one after the other, are the run of all their frames.
pub proof fn lemma_framed_concat(
    codec: Codec,
    first: Seq<Seq<u8>>,
    first_hints: Seq<nat>,
    second: Seq<Seq<u8>>,
    second_hints: Seq<nat>,
)
    requires
        first.len() == first_hints.len(),
    ensures
        framed(codec, first, first_hints) + framed(codec, second, second_hints) == framed(
            codec,
            first + second,
            first_hints + second_hints,
        ),
    decreases first.len(),
{
    if first.len() == 0 {
        assert(first + second =~= second);
        assert(first_hints + second_hints =~= second_hints);
        assert(framed(codec, first, first_hints) + framed(codec, second, second_hints) =~= framed(
            codec,
            second,
            second_hints,
        ));
    } else {
        lemma_framed_concat(
            codec,
            first.drop_first(),
            first_hints.drop_first(),
            second,
            second_hints,
        );
        assert((first + second).drop_first() =~= first.drop_first() + second);
        assert((first_hints + second_hints).drop_first() =~= first_hints.drop_first()
            + second_hints);
        assert(framed(codec, first, first_hints) + framed(codec, second, second_hints) =~= frame(
            codec,
            first[0],
            first_hints[0],
        ) + (framed(codec, first.drop_first(), first_hints.drop_first()) + framed(
            codec,
            second,
            second_hints,
        )));
    }
}

/// A run of frames cut behind its first `count` frames is the run of those frames.
pub proof fn lemma_cut_at_frame_boundary(
    codec: Codec,
    payloads: Seq<Seq<u8>>,
    hints: Seq<nat>,
    count: nat,
)
    requires
        can_be_framed(payloads, hints),
        0 < count <= payloads.len(),
    ensures
        framed(codec, payloads.take(count as int), hints.take(count as int)).len() <= framed(
            codec,
            payloads,
            hints,
        ).len(),
        framed(codec, payloads, hints).take(
            framed(codec, payloads.take(count as int), hints.take(count as int)).len() as int,
        ) == framed(codec, payloads.take(count as int), hints.take(count as int)),
{
    let kept = payloads.take(count as int);
    let kept_hints = hints.take(count as int);
    let cut = payloads.skip(count as int);
    let cut_hints = hints.skip(count as int);
    lemma_framed_concat(codec, kept, kept_hints, cut, cut_hints);
    assert(kept + cut =~= payloads);
    assert(kept_hints + cut_hints =~= hints);
    assert((framed(codec, kept, kept_hints) + framed(codec, cut, cut_hints)).take(
        framed(codec, kept, kept_hints).len() as int,
    ) =~= framed(codec, kept, kept_hints));
}

/// A pack stream that stands at the first payload of a run of frames is cut into the
/// payloads of all the frames, in order.
pub proof fn lemma_frames_from_framed(codec: Codec, payloads: Seq<Seq<u8>>, hints: Seq<nat>)
    requires
        can_be_framed(payloads, hints),
        payloads.len() > 0,
    ensures
        frames_from(
            codec,
            payloads[0] + framed(codec, payloads.drop_first(), hints.drop_first()),
            payloads[0].len(),
        ) == Ok::<Seq<Seq<u8>>, crate::error::Error>(payloads),
    decreases payloads.len(),
{
    let first = payloads[0];
    let more = payloads.drop_first();
    let more_hints = hints.drop_first();
    let rest = framed(codec, more, more_hints);
    let stream = first + rest;
    let size = first.len();
    assert(stream.skip(size as int) =~= rest);
    assert(stream.take(size as int) =~= first);
    if more.len() == 0 {
        assert(rest =~= Seq::<u8>::empty());
        assert(stream =~= first);
        assert(payloads =~= seq![first]);
    } else {
        assert(can_be_framed(more, more_hints)) by {
            assert forall|i: int| 0 <= i < more.len() implies 0 < (#[trigger] more[i]).len()
                <= u32::MAX by {
                assert(more[i] == payloads[i + 1]);
            }
        }
        lemma_framed_len(codec, more, more_hints);
        lemma_header_read_back(codec, more[0].len(), more_hints[0]);
        lemma_frames_from_framed(codec, more, more_hints);
        assert(ahead(rest, codec.spec_header_len()) =~= rest.take(
            codec.spec_header_len() as int,
        ));
        assert(payloads =~= seq![first] + more);
    }
}

/// A run of frames is cut into the payloads that were framed, in order.
pub proof fn lemma_streams_of_framed(codec: Codec, payloads: Seq<Seq<u8>>, hints: Seq<nat>)
    requires
        can_be_framed(payloads, hints),
        payloads.len() > 0,
    ensures
        streams_of(codec, framed(codec, payloads, hints)) == Ok::<
            Seq<Seq<u8>>,
            crate::error::Error,
        >(payloads),
{
    let stream = framed(codec, payloads, hints);
    lemma_framed_len(codec, payloads, hints);
    lemma_header_read_back(codec, payloads[0].len(), hints[0]);
    lemma_frames_from_framed(codec, payloads, hints);
    assert(ahead(stream, codec.spec_header_len()) =~= stream.take(codec.spec_header_len() as int));
}

/// What the codec makes of streams that follow each other is what it makes of the
/// first of them, followed by what it makes of the rest.
pub proof fn lemma_streams_decoded_concat(
    codec: Codec,
    first: Seq<Seq<u8>>,
    second: Seq<Seq<u8>>,
    size: usize,
)
    ensures
        streams_decoded(codec, first + second, size) == streams_decoded(codec, first, size)
            + streams_decoded(codec, second, size),
    decreases second.len(),
{
    if second.len() == 0 {
        assert(first + second =~= first);
        assert(streams_decoded(codec, first, size) + Seq::<u8>::empty() =~= streams_decoded(
            codec,
            first,
            size,
        ));
    } else {
        lemma_streams_decoded_concat(codec, first, second.drop_last(), size);
        assert((first + second).drop_last() =~= first + second.drop_last());
        assert((first + second).last() == second.last());
        assert(streams_decoded(codec, first + second, size) =~= streams_decoded(
            codec,
            first,
            size,
        ) + streams_decoded(codec, second, size));
    }
}

/// A run of frames cut behind its first `count` frames decodes to what those frames
/// hold, in order; and two runs of frames that were produced apart, read as one pack
/// stream, decode to what the first holds followed by what the second holds.
pub proof fn lemma_frames_resume(
    codec: Codec,
    first: Seq<Seq<u8>>,
    first_hints: Seq<nat>,
    second: Seq<Seq<u8>>,
    second_hints: Seq<nat>,
    count: nat,
    size: usize,
)
    requires
        can_be_framed(first, first_hints),
        can_be_framed(second, second_hints),
        0 < count <= first.len(),
    ensures
        streams_of(
            codec,
            framed(codec, first, first_hints).take(
                framed(codec, first.take(count as int), first_hints.take(count as int)).len() as int,
            ),
        ) == Ok::<Seq<Seq<u8>>, crate::error::Error>(first.take(count as int)),
        streams_of(
            codec,
            framed(codec, first, first_hints) + framed(codec, second, second_hints),
        ) == Ok::<Seq<Seq<u8>>, crate::error::Error>(first + second),
        streams_decoded(codec, first + second, size) == streams_decoded(codec, first, size)
            + streams_decoded(codec, second, size),
{
    lemma_cut_at_frame_boundary(codec, first, first_hints, count);
    let kept = first.take(count as int);
    let kept_hints = first_hints.take(count as int);
    assert(can_be_framed(kept, kept_hints));
    lemma_streams_of_framed(codec, kept, kept_hints);
    lemma_framed_concat(codec, first, first_hints, second, second_hints);
    assert(can_be_framed(first + second, first_hints + second_hints));
    lemma_streams_of_framed(codec, first + second, first_hints + second_hints);
    lemma_streams_decoded_concat(codec, first, second, size);
}

/// The pieces in which `data` is written as frames: each has `frame_size` bytes, but
/// for the last, which has what is left.
pub open spec fn pieces(data: Seq<u8>, frame_size: usize) -> Seq<Seq<u8>>
    decreases data.len(),
{
    if data.len() == 0 || frame_size == 0 {
        Seq::empty()
    } else {
        let piece = ahead(data, frame_size as nat);
        seq![piece] + pieces(data.skip(piece.len() as int), frame_size)
    }
}

/// What the codec makes of each of the pieces.
pub open spec fn packed_pieces(codec: Codec, quality: u32, parts: Seq<Seq<u8>>) -> Seq<Seq<u8>> {
    Seq::new(parts.len(), |i: int| compressed(codec, parts[i], quality))
}

/// The number of bytes of each of the pieces.
pub open spec fn piece_lens(parts: Seq<Seq<u8>>) -> Seq<nat> {
    Seq::new(parts.len(), |i: int| parts[i].len())
}

/// Data that is written as frames is the run of the frames of its pieces, each
/// compressed as one stream of the codec.
pub proof fn lemma_data_framed_is_framed(
    codec: Codec,
    quality: u32,
    frame_size: usize,
    data: Seq<u8>,
)
    ensures
        data_framed(codec, quality, frame_size, data) == framed(
            codec,
            packed_pieces(codec, quality, pieces(data, frame_size)),
            piece_lens(pieces(data, frame_size)),
        ),
    decreases data.len(),
{
    let parts = pieces(data, frame_size);
    if data.len() == 0 || frame_size == 0 {
        assert(packed_pieces(codec, quality, parts) =~= Seq::<Seq<u8>>::empty());
    } else {
        let piece = ahead(data, frame_size as nat);
        let rest = data.skip(piece.len() as int);
        lemma_data_framed_is_framed(codec, quality, frame_size, rest);
        let more = pieces(rest, frame_size);
        assert(parts == seq![piece] + more);
        assert(packed_pieces(codec, quality, parts).drop_first() =~= packed_pieces(
            codec,
            quality,
            more,
        ));
        assert(piece_lens(parts).drop_first() =~= piece_lens(more));
        assert(packed_pieces(codec, quality, parts)[0] == compressed(codec, piece, quality));
        assert(piece_lens(parts)[0] == piece.len());
    }
}

/// Data that was written as frames is cut, where it is read, into the streams that
/// the codec made of its pieces, in order, provided that the codec made of each
/// piece a stream that has bytes and no more than a frame can declare.
pub proof fn lemma_written_frames_are_read(
    codec: Codec,
    quality: u32,
    frame_size: usize,
    data: Seq<u8>,
)
    requires
        frame_size > 0,
        data.len() > 0,
        can_be_framed(
            packed_pieces(codec, quality, pieces(data, frame_size)),
            piece_lens(pieces(data, frame_size)),
        ),
    ensures
        streams_of(codec, data_framed(codec, quality, frame_size, data)) == Ok::<
            Seq<Seq<u8>>,
            crate::error::Error,
        >(packed_pieces(codec, quality, pieces(data, frame_size))),
{
    lemma_data_framed_is_framed(codec, quality, frame_size, data);
    lemma_streams_of_framed(
        codec,
        packed_pieces(codec, quality, pieces(data, frame_size)),
        piece_lens(pieces(data, frame_size)),
    );
}

} // verus!
