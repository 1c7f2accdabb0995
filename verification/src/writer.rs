//! The block that a chain of methods stands for in an archive, and the states of a
//! writer.

use vstd::prelude::*;

use crate::archive::{ArchiveEntry, BindPair, Block, BlockView, CoderView};
use crate::coder::Coder;
use crate::encoder::{get_options_as_properties, lemma_options_properties_len, options_properties};
use crate::error::Error;
use crate::header_laws::{coder_wf, coders_wf, pipeline_wf};
use crate::header_parse::{feeds_in, free_in_from, free_out_from, output_size, takes_out};
use crate::header_spec::MAX_CODERS;
use crate::lemmas::lemma_simple_totals;
use crate::method::lemma_id_bytes;
use crate::options::EncoderConfiguration;
use crate::pipeline::{fed_by, is_linear, walk};

verus! {

/// The coder that stands in the archive for one method of a chain.
pub open spec fn chain_coder(configuration: EncoderConfiguration) -> CoderView {
    CoderView {
        method_id: configuration.method.spec_id(),
        num_in_streams: 1,
        num_out_streams: 1,
        properties: options_properties(configuration.method, configuration.options),
    }
}

/// The coders that stand in the archive for the methods of a chain: the first is
/// the one next to the pack stream.
pub open spec fn chain_coders(methods: Seq<EncoderConfiguration>) -> Seq<CoderView> {
    Seq::new(methods.len(), |i: int| chain_coder(methods[i]))
}

/// The bind pairs of a chain of `count` coders: the output of each coder but the
/// last feeds the input of the next.
pub open spec fn chain_pairs(count: nat) -> Seq<BindPair> {
    Seq::new(
        (count - 1) as nat,
        |i: int| BindPair { in_index: (i + 1) as u64, out_index: i as u64 },
    )
}

/// The block that a chain of methods makes, with the sizes and CRCs given.
pub open spec fn chain_block_of(
    methods: Seq<EncoderConfiguration>,
    unpack_sizes: Seq<u64>,
    crc: Option<u32>,
    substream_sizes: Seq<u64>,
    substream_crcs: Seq<Option<u32>>,
) -> BlockView {
    BlockView {
        coders: chain_coders(methods),
        bind_pairs: chain_pairs(methods.len()),
        packed_streams: seq![0u64],
        unpack_sizes,
        crc,
        substream_sizes,
        substream_crcs,
    }
}

/// Whether the options of each method of a chain are in the ranges of the method.
pub open spec fn methods_wf(methods: Seq<EncoderConfiguration>) -> bool {
    forall|i: int|
        0 <= i < methods.len() ==> ((#[trigger] methods[i]).options matches Some(o) ==> o.wf())
}

/// Whether the options of each method of a chain are in the ranges of the method:
/// what the functions that encode with a chain ask of it.
pub fn check_methods(methods: &[EncoderConfiguration]) -> (ok: bool)
    ensures
        ok == methods_wf(methods@),
{
    let mut i: usize = 0;
    while i < methods.len()
        invariant
            i <= methods@.len(),
            forall|j: int| 0 <= j < i ==> ((#[trigger] methods@[j]).options matches Some(o) ==> o.wf()),
        decreases methods@.len() - i,
    {
        if !methods[i].is_valid() {
            return false;
        }
        i += 1;
    }
    true
}

/// The failure of a chain of no methods, or of more than a block has coders.
pub open spec fn bad_chain() -> Error {
    Error::Other("A block needs between 1 and 32 coders")
}

/// The failure of sizes that are not one for each coder, or CRCs that are not one
/// for each file.
pub open spec fn bad_sizes() -> Error {
    Error::Other("Sizes and coders, or sizes and CRCs, do not match")
}

/// Makes the block that a chain of methods has written: `unpack_sizes` has for each
/// coder the size of what its decoder gives, and the files of the block have the
/// sizes and CRCs given.
pub fn chain_block(
    methods: &Vec<EncoderConfiguration>,
    unpack_sizes: Vec<u64>,
    crc: Option<u32>,
    substream_sizes: Vec<u64>,
    substream_crcs: Vec<Option<u32>>,
) -> (made: Result<Block, Error>)
    requires
        methods_wf(methods@),
    ensures
        methods@.len() == 0 || methods@.len() > MAX_CODERS ==> (made matches Err(e) && e
            == bad_chain()),
        1 <= methods@.len() <= MAX_CODERS && (unpack_sizes@.len() != methods@.len()
            || substream_sizes@.len() != substream_crcs@.len()) ==> (made matches Err(e) && e
            == bad_sizes()),
        1 <= methods@.len() <= MAX_CODERS && unpack_sizes@.len() == methods@.len()
            && substream_sizes@.len() == substream_crcs@.len() ==> (made matches Ok(block)
            && block@ == chain_block_of(
            methods@,
            unpack_sizes@,
            crc,
            substream_sizes@,
            substream_crcs@,
        )),
{
    let count: usize = methods.len();
    if count == 0 || count > MAX_CODERS as usize {
        return Err(Error::other("A block needs between 1 and 32 coders"));
    }
    if unpack_sizes.len() != count || substream_sizes.len() != substream_crcs.len() {
        return Err(Error::other("Sizes and coders, or sizes and CRCs, do not match"));
    }
    let mut coders: Vec<Coder> = Vec::new();
    let mut i: usize = 0;
    while i < count
        invariant
            i <= count == methods@.len(),
            methods_wf(methods@),
            coders@.len() == i,
            forall|k: int| 0 <= k < i ==> (#[trigger] coders@[k])@ == chain_coder(methods@[k]),
        decreases count - i,
    {
        let configuration = &methods[i];
        let mut buffer: Vec<u8> = vec![0u8; 34];
        let properties: Vec<u8> = {
            proof {
                lemma_options_properties_len(configuration.method, configuration.options);
            }
            let written = get_options_as_properties(
                configuration.method,
                match &configuration.options {
                    Some(o) => Some(o),
                    None => None,
                },
                buffer.as_mut_slice(),
            );
            vstd::slice::slice_to_vec(written)
        };
        proof {
            assert(properties@ == options_properties(configuration.method, configuration.options))
                by {
                match configuration.options {
                    Some(o) => {},
                    None => {},
                }
            }
        }
        coders.push(
            Coder {
                method_id: configuration.method.id(),
                num_in_streams: 1,
                num_out_streams: 1,
                properties,
            },
        );
        i += 1;
    }
    let mut bind_pairs: Vec<BindPair> = Vec::new();
    let mut j: usize = 0;
    while j + 1 < count
        invariant
            j + 1 <= count,
            bind_pairs@.len() == j,
            forall|k: int|
                0 <= k < j ==> (#[trigger] bind_pairs@[k]) == (BindPair {
                    in_index: (k + 1) as u64,
                    out_index: k as u64,
                }),
        decreases count - j,
    {
        bind_pairs.push(BindPair { in_index: (j + 1) as u64, out_index: j as u64 });
        j += 1;
    }
    let mut packed_streams: Vec<u64> = Vec::new();
    packed_streams.push(0);
    let block = Block {
        coders,
        bind_pairs,
        packed_streams,
        unpack_sizes,
        crc,
        substream_sizes,
        substream_crcs,
    };
    proof {
        assert(block@.coders =~= chain_coders(methods@));
        assert(block@.bind_pairs =~= chain_pairs(methods@.len()));
        assert(block@.packed_streams =~= seq![0u64]);
    }
    Ok(block)
}

/// In a chain the output of each coder but the last feeds the next coder, and the
/// output of the last feeds none.
pub proof fn lemma_chain_fed_by(count: nat, out: u64, from: int)
    requires
        1 <= count <= MAX_CODERS,
        0 <= from,
    ensures
        fed_by(chain_pairs(count), out, from) == (if from <= out && out + 1 < count {
            Some((out + 1) as u64)
        } else {
            None
        }),
    decreases chain_pairs(count).len() - from,
{
    let pairs = chain_pairs(count);
    assert(pairs.len() == count - 1);
    if from < pairs.len() {
        assert(pairs[from] == BindPair { in_index: (from + 1) as u64, out_index: from as u64 });
        assert(fed_by(pairs, out, from) == (if pairs[from].out_index == out {
            Some(pairs[from].in_index)
        } else {
            fed_by(pairs, out, from + 1)
        }));
        lemma_chain_fed_by(count, out, from + 1);
    } else {
        assert(fed_by(pairs, out, from) is None);
    }
}

/// The walk through a chain passes the coders in their order.
pub proof fn lemma_chain_walk(count: nat, current: u64, steps: nat)
    requires
        1 <= count <= MAX_CODERS,
        current + steps <= count,
    ensures
        walk(chain_pairs(count), current, steps) == Seq::new(steps, |i: int| (current + i) as u64),
    decreases steps,
{
    let made = Seq::new(steps, |i: int| (current + i) as u64);
    if steps == 0 {
        assert(walk(chain_pairs(count), current, steps) =~= made);
    } else {
        lemma_chain_fed_by(count, current, 0);
        if current + 1 < count {
            lemma_chain_walk(count, (current + 1) as u64, (steps - 1) as nat);
            assert(seq![current] + Seq::new((steps - 1) as nat, |i: int| (current + 1 + i) as u64)
                =~= made);
        } else {
            assert(steps == 1);
            assert(seq![current] + Seq::<u64>::empty() =~= made);
        }
    }
}

/// In a chain no bind pair feeds the first input, and none takes the last output.
pub proof fn lemma_chain_free(count: nat)
    requires
        1 <= count <= MAX_CODERS,
    ensures
        free_in_from(chain_pairs(count), 0, count) == Some(0u64),
        free_out_from(chain_pairs(count), 0, count) == Some((count - 1) as u64),
{
    let pairs = chain_pairs(count);
    assert(!feeds_in(pairs, 0));
    lemma_chain_free_out(count, 0);
}

/// In a chain the first output from `from` on that no bind pair takes is the last.
proof fn lemma_chain_free_out(count: nat, from: nat)
    requires
        1 <= count <= MAX_CODERS,
        from < count,
    ensures
        free_out_from(chain_pairs(count), from, count) == Some((count - 1) as u64),
    decreases count - from,
{
    let pairs = chain_pairs(count);
    if from == count - 1 {
        assert(!takes_out(pairs, from as int));
    } else {
        assert(pairs[from as int].out_index == from);
        assert(takes_out(pairs, from as int));
        lemma_chain_free_out(count, from + 1);
    }
}

/// The block that a chain makes can be written and read back, its coders form one
/// chain that decodes in their order, and its output is that of its last coder.
pub proof fn lemma_chain_block(block: BlockView, methods: Seq<EncoderConfiguration>)
    requires
        1 <= methods.len() <= MAX_CODERS,
        block.coders == chain_coders(methods),
        block.bind_pairs == chain_pairs(methods.len()),
        block.packed_streams == seq![0u64],
        block.unpack_sizes.len() == methods.len(),
    ensures
        pipeline_wf(block),
        is_linear(block),
        walk(block.bind_pairs, 0, methods.len()) == Seq::new(methods.len(), |i: int| i as u64),
        output_size(block) == Some(block.unpack_sizes[methods.len() - 1]),
{
    let count = methods.len();
    let coders = block.coders;
    assert forall|i: int| 0 <= i < coders.len() implies coder_wf(#[trigger] coders[i]) by {
        lemma_id_bytes(methods[i].method);
        lemma_options_properties_len(methods[i].method, methods[i].options);
    }
    assert(coders_wf(coders)) by {
        reveal(coders_wf);
    }
    lemma_simple_totals(coders);
    lemma_chain_free(count);
    lemma_chain_walk(count, 0, count);
    lemma_chain_fed_by(count, (count - 1) as u64, 0);
    let order = walk(block.bind_pairs, 0, count);
    assert(order =~= Seq::new(count, |i: int| i as u64));
    assert(order.last() == (count - 1) as u64);
}

/// The entry as it is taken into an archive with `size` bytes of content: only a
/// file that has bytes has a stream, so that an empty file is written as an entry
/// without one.
pub fn stage_entry(entry: ArchiveEntry, size: u64) -> (staged: ArchiveEntry)
    ensures
        staged.has_stream == (size > 0 && !entry.is_directory && !entry.is_anti_item),
        staged.name == entry.name,
        staged.is_directory == entry.is_directory,
        staged.is_anti_item == entry.is_anti_item,
        staged.creation_date == entry.creation_date,
        staged.access_date == entry.access_date,
        staged.last_modified_date == entry.last_modified_date,
        staged.windows_attributes == entry.windows_attributes,
{
    let mut staged = entry;
    staged.has_stream = size > 0 && !staged.is_directory && !staged.is_anti_item;
    staged
}

/// Where a writer stands.
#[derive(Clone, Copy, Debug, PartialEq, Eq, Structural)]
pub enum WriterState {
    /// Nothing was pushed yet.
    Fresh,
    /// Entries are taken.
    Accepting,
    /// The blocks are being written.
    Finalizing,
    /// The archive is written.
    Finished,
    /// Writing has failed: what the sink holds is no archive.
    Failed,
}

/// What happens to a writer.
#[derive(Clone, Copy, Debug, PartialEq, Eq, Structural)]
pub enum WriterEvent {
    /// Entries are pushed.
    Push,
    /// The writer is asked to finish.
    Finish,
    /// The end header was written and the start header patched.
    Done,
    /// Something failed.
    Error,
}

/// The state of a writer after `event`: entries are taken until the writer is asked
/// to finish, which it does once; any failure leads to the failed state, which is
/// never left, and an event that the state does not take is a failure.
pub open spec fn next_state(state: WriterState, event: WriterEvent) -> WriterState {
    match (state, event) {
        (WriterState::Fresh, WriterEvent::Push) => WriterState::Accepting,
        (WriterState::Accepting, WriterEvent::Push) => WriterState::Accepting,
        (WriterState::Fresh, WriterEvent::Finish) => WriterState::Finalizing,
        (WriterState::Accepting, WriterEvent::Finish) => WriterState::Finalizing,
        (WriterState::Finalizing, WriterEvent::Done) => WriterState::Finished,
        _ => WriterState::Failed,
    }
}

/// Moves the state of a writer on by one event.
pub fn step(state: WriterState, event: WriterEvent) -> (next: WriterState)
    ensures
        next == next_state(state, event),
{
    match (state, event) {
        (WriterState::Fresh, WriterEvent::Push) => WriterState::Accepting,
        (WriterState::Accepting, WriterEvent::Push) => WriterState::Accepting,
        (WriterState::Fresh, WriterEvent::Finish) => WriterState::Finalizing,
        (WriterState::Accepting, WriterEvent::Finish) => WriterState::Finalizing,
        (WriterState::Finalizing, WriterEvent::Done) => WriterState::Finished,
        _ => WriterState::Failed,
    }
}

/// A writer that has failed stays failed, and one that has finished takes nothing
/// more.
pub proof fn lemma_failed_is_final(event: WriterEvent)
    ensures
        next_state(WriterState::Failed, event) == WriterState::Failed,
        next_state(WriterState::Finished, event) == WriterState::Failed,
{
}

} // verus!
