//! Laws of opening: an archive that was written with an encoded end header is
//! opened with the metadata it was written with.

use vstd::prelude::*;

use crate::archive::{Archive, ArchiveView, EntryView};
use crate::archive_laws::lemma_taken_pack_is_found;
use crate::collect::{lemma_block_keeps_archive, with_block};
use crate::container::{
    encoded_header_bytes, lemma_assembled_is_located, lemma_encoded_header_round_trip, opened,
    EndHeaderView,
};
use crate::crc::crc32;
use crate::error::Error;
use crate::finish::{header_holder, sealed_bytes};
use crate::frames::is_codec_failure;
use crate::header_laws::{archive_wf, lemma_header_round_trip, streams_wf, writable};
use crate::header_parse::{parsed_header, StreamsView};
use crate::header_spec::{header_bytes, MAX_CODERS};
use crate::open::{holder_of, is_opened, is_unsealed};
use crate::options::EncoderConfiguration;
use crate::pipeline::{decoded_block, encoded_from, is_decoded};
use crate::pipeline_laws::{chain_gives_back, lemma_block_decodes_to_data, lemma_block_round_trip};
use crate::reader::{needs_password, pack_of};

verus! {

/// With an empty password no archive is opened of which a coder encrypts, be it a
/// coder of a block of the archive or of the block that holds an encoded end header:
/// opening asks for the password, and nothing is decoded.
pub proof fn lemma_no_archive_without_password(
    out: Result<Archive, Error>,
    bytes: Seq<u8>,
    max_mem_limit_kb: usize,
)
    requires
        is_opened(out, bytes, Seq::empty(), max_mem_limit_kb),
        match opened(bytes) {
            Ok(EndHeaderView::Plain(archive)) => needs_password(archive),
            Ok(EndHeaderView::Encoded(streams)) => needs_password(holder_of(streams)),
            Err(_) => false,
        },
    ensures
        out == Err::<Archive, Error>(Error::PasswordRequired),
{
}

/// The streams that an encoded end header states for a chain can be written and read
/// back.
pub proof fn lemma_holder_is_written(
    pack_len: nat,
    methods: Seq<EncoderConfiguration>,
    header: Seq<u8>,
)
    requires
        1 <= methods.len() <= MAX_CODERS,
        header.len() <= u64::MAX,
    ensures
        streams_wf(header_holder(pack_len, methods, header)),
{
    let holder = header_holder(pack_len, methods, header);
    let none = ArchiveView {
        pack_pos: 0,
        pack_sizes: Seq::empty(),
        pack_crcs: Seq::empty(),
        blocks: Seq::empty(),
        files: Seq::empty(),
    };
    let file = EntryView {
        name: Seq::empty(),
        has_stream: true,
        is_directory: false,
        is_anti_item: false,
        creation_date: None,
        access_date: None,
        last_modified_date: None,
        windows_attributes: None,
    };
    let packed = encoded_from(methods, header, 0);
    let block = holder.blocks[0];
    assert(archive_wf(none)) by {
        reveal(archive_wf);
        reveal(streams_wf);
        reveal(crate::header_laws::pipelines_wf);
        reveal(crate::header_laws::sizes_wf);
        reveal(crate::header_laws::divisions_wf);
        reveal(crate::header_laws::files_wf);
        reveal(crate::header_laws::names_wf);
    }
    assert(encoded_from(methods, header, methods.len() as int) == header);
    assert(block.substream_sizes.drop_last() =~= Seq::<u64>::empty());
    assert(crate::header_parse::sum(block.substream_sizes) == header.len() as u64) by {
        assert(crate::header_parse::sum(block.substream_sizes.drop_last()) == 0);
    }
    lemma_block_keeps_archive(
        none,
        methods,
        block,
        seq![file],
        packed.len() as u64,
        crc32(packed),
    );
    let kept = with_block(none, block, seq![file], packed.len() as u64, crc32(packed));
    assert(kept.blocks =~= holder.blocks);
    assert(kept.pack_sizes =~= holder.pack_sizes);
    assert(kept.pack_crcs =~= holder.pack_crcs);
    assert(streams_wf(holder)) by {
        reveal(archive_wf);
        reveal(streams_wf);
    }
}

/// An archive whose end header a chain has encoded is found to have an encoded end
/// header that states the streams of the holder, and the pack stream of the end
/// header is found behind the pack streams of the archive.
pub proof fn lemma_sealed_is_located(
    pack: Seq<u8>,
    methods: Seq<EncoderConfiguration>,
    header: Seq<u8>,
)
    requires
        1 <= methods.len() <= MAX_CODERS,
        header.len() <= u64::MAX,
        (pack + encoded_from(methods, header, 0)).len() <= u64::MAX,
        encoded_header_bytes(header_holder(pack.len(), methods, header)).len() <= u64::MAX,
    ensures
        opened(sealed_bytes(pack, methods, header)) matches Ok(EndHeaderView::Encoded(streams))
            && holder_of(streams) == header_holder(pack.len(), methods, header),
        pack_of(
            sealed_bytes(pack, methods, header),
            header_holder(pack.len(), methods, header),
            0,
        ) == Ok::<Seq<u8>, Error>(encoded_from(methods, header, 0)),
{
    let packed = encoded_from(methods, header, 0);
    let holder = header_holder(pack.len(), methods, header);
    let end = encoded_header_bytes(holder);
    let bytes = sealed_bytes(pack, methods, header);
    let block = holder.blocks[0];
    lemma_holder_is_written(pack.len(), methods, header);
    lemma_assembled_is_located(pack + packed, end);
    lemma_encoded_header_round_trip(holder);
    let streams = StreamsView {
        pack_pos: holder.pack_pos,
        pack_sizes: holder.pack_sizes,
        pack_crcs: holder.pack_crcs,
        blocks: holder.blocks,
    };
    assert(opened(bytes) == Ok::<EndHeaderView, Error>(EndHeaderView::Encoded(streams)));
    assert(holder_of(streams) == holder);
    let base = ArchiveView {
        pack_pos: pack.len() as u64,
        pack_sizes: Seq::empty(),
        pack_crcs: Seq::empty(),
        blocks: Seq::empty(),
        files: Seq::empty(),
    };
    lemma_taken_pack_is_found(base, pack, block, Seq::empty(), packed, end);
    let taken = with_block(base, block, Seq::empty(), packed.len() as u64, crc32(packed));
    assert(taken.blocks =~= holder.blocks);
    assert(taken.pack_sizes =~= holder.pack_sizes);
    assert(taken.pack_crcs =~= holder.pack_crcs);
    assert(taken.files =~= holder.files);
    assert(taken == holder);
}

/// What opening owes once the block of an encoded end header is known to decode to
/// the end header of an archive, where it decodes.
proof fn lemma_unsealed(
    out: Result<Archive, Error>,
    bytes: Seq<u8>,
    holder: ArchiveView,
    packed: Seq<u8>,
    header: Seq<u8>,
    archive: ArchiveView,
    password: Seq<u8>,
    max_mem_limit_kb: usize,
)
    requires
        is_unsealed(out, bytes, holder, password, max_mem_limit_kb),
        pack_of(bytes, holder, 0) == Ok::<Seq<u8>, Error>(packed),
        holder.blocks[0].crc == Some(crc32(header)),
        decoded_block(holder.blocks[0], packed, password, max_mem_limit_kb, 1) matches Some(
            output,
        ) ==> output == header,
        forall|e: Error|
            is_decoded(
                Err::<Vec<u8>, Error>(e),
                holder.blocks[0],
                packed,
                password,
                max_mem_limit_kb,
                1,
            ) ==> is_codec_failure(e),
        parsed_header(header) == Ok::<ArchiveView, Error>(archive),
    ensures
        out matches Ok(got) ==> got@ == archive,
        out matches Err(e) ==> is_codec_failure(e) || e == Error::PasswordRequired,
        password.len() > 0 && decoded_block(
            holder.blocks[0],
            packed,
            password,
            max_mem_limit_kb,
            1,
        ) is Some ==> out is Ok,
{
}

/// An archive whose end header a chain has encoded is opened with the metadata it
/// was written with, wherever a decoder is made for each coder of the chain and
/// gives back what the encoder was given; unless a codec of another crate reports a
/// failure, or a coder encrypts and the password is empty.
pub proof fn lemma_sealed_archive_opens(
    out: Result<Archive, Error>,
    pack: Seq<u8>,
    archive: ArchiveView,
    methods: Seq<EncoderConfiguration>,
    password: Seq<u8>,
    max_mem_limit_kb: usize,
)
    requires
        writable(archive),
        1 <= methods.len() <= MAX_CODERS,
        chain_gives_back(methods, password, max_mem_limit_kb, 1),
        forall|k: int|
            0 <= k <= methods.len() ==> (#[trigger] encoded_from(
                methods,
                header_bytes(archive),
                k,
            )).len() <= usize::MAX,
        (pack + encoded_from(methods, header_bytes(archive), 0)).len() <= u64::MAX,
        encoded_header_bytes(header_holder(pack.len(), methods, header_bytes(archive))).len()
            <= u64::MAX,
        is_opened(
            out,
            sealed_bytes(pack, methods, header_bytes(archive)),
            password,
            max_mem_limit_kb,
        ),
    ensures
        out matches Ok(got) ==> got@ == archive,
        out matches Err(e) ==> is_codec_failure(e) || e == Error::PasswordRequired,
{
    let header = header_bytes(archive);
    let packed = encoded_from(methods, header, 0);
    let holder = header_holder(pack.len(), methods, header);
    let bytes = sealed_bytes(pack, methods, header);
    let block = holder.blocks[0];
    lemma_sealed_is_located(pack, methods, header);
    assert(is_unsealed(out, bytes, holder, password, max_mem_limit_kb));
    lemma_header_round_trip(archive);
    lemma_block_decodes_to_data(methods, header, block, password, max_mem_limit_kb, 1);
    assert forall|e: Error|
        is_decoded(
            Err::<Vec<u8>, Error>(e),
            block,
            packed,
            password,
            max_mem_limit_kb,
            1,
        ) implies is_codec_failure(e) by {
        lemma_block_round_trip(
            Err::<Vec<u8>, Error>(e),
            methods,
            header,
            block,
            password,
            max_mem_limit_kb,
            1,
        );
    }
    lemma_unsealed(out, bytes, holder, packed, header, archive, password, max_mem_limit_kb);
}

} // verus!
