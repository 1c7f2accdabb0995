//! The chain of the coders of a block: the order in which they decode, and running
//! a pack stream through the decoders or data through the encoders.

use vstd::prelude::*;

use crate::archive::{BindPair, Block, BlockView, CoderView};
use crate::buf::clipped;
use crate::coder::Coder;
use crate::decoder::{
    add_decoder, coder_output, coder_refusal, coder_takes, is_fixed_coder, is_own_coder, is_plan_of,
    lemma_plan, refuses, Decoder,
};
use crate::encoder::{
    add_encoder, config_output, config_refusal, config_takes, is_encoder_for, is_own_method,
    lemma_encoder, Encoder,
};
use crate::error::Error;
use crate::frames::{is_codec_failure, is_frame_failure};
use crate::options::EncoderConfiguration;
use crate::password::Password;
use crate::writer::methods_wf;

verus! {

/// The input that the output `out` feeds: that of the first bind pair that takes
/// the output.
pub open spec fn fed_by(pairs: Seq<BindPair>, out: u64, from: int) -> Option<u64>
    decreases pairs.len() - from,
{
    if from < 0 || from >= pairs.len() {
        None
    } else if pairs[from].out_index == out {
        Some(pairs[from].in_index)
    } else {
        fed_by(pairs, out, from + 1)
    }
}

/// The coders that the data passes on its way from the pack stream, starting with
/// `current`, as far as `steps` coders.
pub open spec fn walk(pairs: Seq<BindPair>, current: u64, steps: nat) -> Seq<u64>
    decreases steps,
{
    if steps == 0 {
        Seq::empty()
    } else {
        seq![current] + (match fed_by(pairs, current, 0) {
            Some(next) => walk(pairs, next, (steps - 1) as nat),
            None => Seq::empty(),
        })
    }
}

/// Whether every coder of `coders` takes one stream and gives one.
pub open spec fn all_simple(coders: Seq<CoderView>) -> bool {
    forall|i: int|
        0 <= i < coders.len() ==> (#[trigger] coders[i]).num_in_streams == 1
            && coders[i].num_out_streams == 1
}

/// Whether the coders of a block form one chain from its pack stream to its output:
/// each takes one stream and gives one, one pack stream feeds the block, and the
/// walk from the coder it feeds passes every coder once and ends at a coder whose
/// output no bind pair takes.
pub open spec fn is_linear(block: BlockView) -> bool {
    let order = walk(block.bind_pairs, block.packed_streams[0], block.coders.len());
    &&& all_simple(block.coders)
    &&& block.packed_streams.len() == 1
    &&& order.len() == block.coders.len()
    &&& forall|i: int| 0 <= i < order.len() ==> (#[trigger] order[i]) < block.coders.len()
    &&& order.len() > 0 ==> fed_by(block.bind_pairs, order.last(), 0) is None
}

/// The failure of a block whose coders do not form one chain.
pub open spec fn not_linear() -> Error {
    Error::UnsupportedFeature("Coders that do not form one chain")
}

/// The input that the output `out` feeds.
fn find_fed(pairs: &Vec<BindPair>, out: u64) -> (fed: Option<u64>)
    ensures
        fed == fed_by(pairs@, out, 0),
{
    let mut k: usize = 0;
    while k < pairs.len()
        invariant
            k <= pairs.len(),
            fed_by(pairs@, out, 0) == fed_by(pairs@, out, k as int),
        decreases pairs.len() - k,
    {
        if pairs[k].out_index == out {
            return Some(pairs[k].in_index);
        }
        k += 1;
    }
    None
}

/// Whether every coder takes one stream and gives one.
fn simple_coders(coders: &Vec<Coder>) -> (simple: bool)
    ensures
        simple == all_simple(Seq::new(coders@.len(), |i: int| coders@[i]@)),
{
    let ghost views = Seq::new(coders@.len(), |i: int| coders@[i]@);
    let mut i: usize = 0;
    while i < coders.len()
        invariant
            i <= coders.len(),
            views == Seq::new(coders@.len(), |i: int| coders@[i]@),
            forall|k: int|
                0 <= k < i ==> (#[trigger] views[k]).num_in_streams == 1
                    && views[k].num_out_streams == 1,
        decreases coders.len() - i,
    {
        assert(views[i as int] == coders@[i as int]@);
        if coders[i].num_in_streams != 1 || coders[i].num_out_streams != 1 {
            return false;
        }
        i += 1;
    }
    true
}

/// The order in which the coders of `block` decode: first the coder that the pack
/// stream feeds, last the coder that gives the output of the block. A block whose
/// coders do not form one chain is refused.
pub fn decode_order(block: &Block) -> (order: Result<Vec<usize>, Error>)
    ensures
        is_linear(block@) ==> {
            &&& order matches Ok(list)
            &&& list@.len() == block@.coders.len()
            &&& forall|i: int|
                0 <= i < list@.len() ==> (#[trigger] list@[i]) as u64 == walk(
                    block@.bind_pairs,
                    block@.packed_streams[0],
                    block@.coders.len(),
                )[i] && list@[i] < block@.coders.len()
        },
        !is_linear(block@) ==> order == Err::<Vec<usize>, Error>(not_linear()),
{
    let count: usize = block.coders.len();
    if !simple_coders(&block.coders) || block.packed_streams.len() != 1 {
        return Err(Error::UnsupportedFeature("Coders that do not form one chain"));
    }
    let ghost pairs = block@.bind_pairs;
    let ghost start = block@.packed_streams[0];
    let mut list: Vec<usize> = Vec::new();
    let mut current: Option<u64> = Some(block.packed_streams[0]);
    let mut steps: usize = 0;
    while steps < count
        invariant
            steps <= count == block@.coders.len(),
            pairs == block@.bind_pairs,
            start == block@.packed_streams[0],
            all_simple(block@.coders),
            block@.packed_streams.len() == 1,
            forall|i: int| 0 <= i < list@.len() ==> (#[trigger] list@[i]) < count,
            match current {
                Some(c) => list@.len() == steps && walk(pairs, start, count as nat) == Seq::new(
                    list@.len(),
                    |i: int| list@[i] as u64,
                ) + walk(pairs, c, (count - steps) as nat),
                None => list@.len() <= steps && walk(pairs, start, count as nat) == Seq::new(
                    list@.len(),
                    |i: int| list@[i] as u64,
                ) && list@.len() > 0 && fed_by(pairs, list@[list@.len() - 1] as u64, 0) is None,
            },
        ensures
            current is Some ==> steps == count,
        decreases count - steps,
    {
        match current {
            None => {
                break;
            },
            Some(c) => {
                let ghost before = Seq::new(list@.len(), |i: int| list@[i] as u64);
                let ghost rest = walk(pairs, c, (count - steps) as nat);
                if c >= count as u64 {
                    proof {
                        let whole = walk(pairs, start, count as nat);
                        assert(whole == before + rest);
                        assert(rest[0] == c);
                        assert(whole[list@.len() as int] == c);
                    }
                    return Err(Error::UnsupportedFeature("Coders that do not form one chain"));
                }
                list.push(c as usize);
                let next = find_fed(&block.bind_pairs, c);
                proof {
                    let after = Seq::new(list@.len(), |i: int| list@[i] as u64);
                    assert(after =~= before.push(c));
                    match next {
                        Some(n) => {
                            assert(before + (seq![c] + walk(
                                pairs,
                                n,
                                (count - steps - 1) as nat,
                            )) =~= after + walk(pairs, n, (count - steps - 1) as nat));
                        },
                        None => {
                            assert(before + (seq![c] + Seq::<u64>::empty()) =~= after);
                        },
                    }
                }
                current = next;
                steps += 1;
            },
        }
    }
    proof {
        let whole = walk(pairs, start, count as nat);
        let made = Seq::new(list@.len(), |i: int| list@[i] as u64);
        match current {
            Some(c) => {
                assert(whole =~= made);
            },
            None => {},
        }
    }
    if list.len() != count {
        return Err(Error::UnsupportedFeature("Coders that do not form one chain"));
    }
    if count > 0 {
        match current {
            Some(_) => {
                // The walk has passed every coder, and the last one still feeds another.
                let last = list[count - 1] as u64;
                if find_fed(&block.bind_pairs, last).is_some() {
                    return Err(Error::UnsupportedFeature("Coders that do not form one chain"));
                }
            },
            None => {},
        }
    }
    Ok(list)
}

/// The number of bytes that the coder `index` of a block is stated to give; none
/// where none is stated, or more than memory can hold.
pub open spec fn stated_size(block: BlockView, index: int) -> Option<usize> {
    if 0 <= index < block.unpack_sizes.len() && block.unpack_sizes[index] <= usize::MAX {
        Some(block.unpack_sizes[index] as usize)
    } else {
        None
    }
}

/// The failure of a coder for which the block states no size that memory can hold.
pub open spec fn no_size() -> Error {
    Error::Other("A coder without a size that memory can hold")
}

/// Whether no decoder is made for the coder `index` of a block.
pub open spec fn coder_refused(
    block: BlockView,
    password: Seq<u8>,
    max_mem_limit_kb: usize,
    index: int,
) -> bool {
    stated_size(block, index) is None || refuses(block.coders[index], password, max_mem_limit_kb)
}

/// The place in `order`, from `from` on, of the first coder for which no decoder is
/// made.
pub open spec fn first_refused(
    block: BlockView,
    order: Seq<u64>,
    password: Seq<u8>,
    max_mem_limit_kb: usize,
    from: int,
) -> Option<int>
    decreases order.len() - from,
{
    if from < 0 || from >= order.len() {
        None
    } else if coder_refused(block, password, max_mem_limit_kb, order[from] as int) {
        Some(from)
    } else {
        first_refused(block, order, password, max_mem_limit_kb, from + 1)
    }
}

/// Whether `e` is the failure for which no decoder is made for the coder `index`.
pub open spec fn is_plan_failure(
    e: Error,
    block: BlockView,
    password: Seq<u8>,
    max_mem_limit_kb: usize,
    threads: u32,
    index: int,
) -> bool {
    match stated_size(block, index) {
        None => e == no_size(),
        Some(size) => is_plan_of(
            Err(e),
            block.coders[index],
            size,
            password,
            max_mem_limit_kb,
            threads,
        ),
    }
}

/// What the pack stream `packed` has become behind the first `count` coders of
/// `order`: each coder decodes what the coder before it gave, as far as the size
/// stated for it.
pub open spec fn staged(
    block: BlockView,
    order: Seq<u64>,
    password: Seq<u8>,
    max_mem_limit_kb: usize,
    threads: u32,
    packed: Seq<u8>,
    count: nat,
) -> Seq<u8>
    decreases count,
{
    if count == 0 {
        packed
    } else {
        let index = order[count - 1] as int;
        let size = stated_size(block, index)->0;
        clipped(
            coder_output(
                block.coders[index],
                password,
                max_mem_limit_kb,
                threads,
                staged(
                    block,
                    order,
                    password,
                    max_mem_limit_kb,
                    threads,
                    packed,
                    (count - 1) as nat,
                ),
                size,
            ),
            size,
        )
    }
}

/// How decoding ends behind the first `count` coders of `order`, if it ends there:
/// with the failure that the input of a coder calls for by itself, or, where the end
/// names no failure, with the failure that a codec of another crate reports. The
/// first coder in the order at which decoding ends decides; none where all of the
/// coders decode.
pub open spec fn stage_end(
    block: BlockView,
    order: Seq<u64>,
    password: Seq<u8>,
    max_mem_limit_kb: usize,
    threads: u32,
    packed: Seq<u8>,
    count: nat,
) -> Option<Option<Error>>
    decreases count,
{
    if count == 0 {
        None
    } else {
        match stage_end(
            block,
            order,
            password,
            max_mem_limit_kb,
            threads,
            packed,
            (count - 1) as nat,
        ) {
            Some(end) => Some(end),
            None => {
                let index = order[count - 1] as int;
                let input = staged(
                    block,
                    order,
                    password,
                    max_mem_limit_kb,
                    threads,
                    packed,
                    (count - 1) as nat,
                );
                match coder_refusal(block.coders[index], password, input) {
                    Some(e) => Some(Some(e)),
                    None => if coder_takes(
                        block.coders[index],
                        password,
                        max_mem_limit_kb,
                        threads,
                        input,
                        stated_size(block, index)->0,
                    ) {
                        None
                    } else {
                        Some(None)
                    },
                }
            },
        }
    }
}

/// Where decoding has ended, it has ended for good, however many coders follow.
pub proof fn lemma_stage_end_stays(
    block: BlockView,
    order: Seq<u64>,
    password: Seq<u8>,
    max_mem_limit_kb: usize,
    threads: u32,
    packed: Seq<u8>,
    fewer: nat,
    more: nat,
)
    requires
        fewer <= more,
        stage_end(block, order, password, max_mem_limit_kb, threads, packed, fewer) is Some,
    ensures
        stage_end(block, order, password, max_mem_limit_kb, threads, packed, more) == stage_end(
            block,
            order,
            password,
            max_mem_limit_kb,
            threads,
            packed,
            fewer,
        ),
    decreases more,
{
    if fewer < more {
        lemma_stage_end_stays(
            block,
            order,
            password,
            max_mem_limit_kb,
            threads,
            packed,
            fewer,
            (more - 1) as nat,
        );
    }
}

/// Whether what the decoders of the coders of a block give is fixed by their input:
/// it is, unless the block has an LZMA2 coder and is decoded on several threads.
pub open spec fn is_fixed_block(block: BlockView, threads: u32) -> bool {
    forall|i: int|
        0 <= i < block.coders.len() ==> is_fixed_coder(#[trigger] block.coders[i], threads)
}

/// What holds of decoding a block whatever its decoders gave: the output is no longer
/// than the size stated for the last coder in the order.
pub open spec fn is_loose_result(
    out: Result<Vec<u8>, Error>,
    block: BlockView,
    order: Seq<u64>,
) -> bool {
    out matches Ok(bytes) ==> (order.len() > 0 ==> bytes@.len() <= stated_size(
        block,
        order.last() as int,
    )->0)
}

/// Whether `out` is what decoding owes where it ends as `end` says, and else gives
/// `bytes`.
pub open spec fn is_stage_result(
    out: Result<Vec<u8>, Error>,
    end: Option<Option<Error>>,
    bytes: Seq<u8>,
) -> bool {
    match end {
        None => out matches Ok(got) && got@ == bytes,
        Some(Some(e)) => out == Err::<Vec<u8>, Error>(e),
        Some(None) => out matches Err(e) && is_codec_failure(e),
    }
}

/// Whether no codec of another crate has a say in what the coders of a block give.
pub open spec fn all_own(block: BlockView) -> bool {
    forall|i: int| 0 <= i < block.coders.len() ==> is_own_coder(#[trigger] block.coders[i])
}

/// Makes the decoders of the coders of a block, in the order in which they decode,
/// and finds the number of bytes that each is stated to give.
fn plan_block(
    block: &Block,
    order: &Vec<usize>,
    password: &Password,
    max_mem_limit_kb: usize,
    threads: u32,
) -> (planned: Result<(Vec<Decoder>, Vec<usize>), Error>)
    requires
        forall|k: int| 0 <= k < order@.len() ==> (#[trigger] order@[k]) < block@.coders.len(),
    ensures
        ({
            let places = Seq::new(order@.len(), |k: int| order@[k] as u64);
            match first_refused(block@, places, password@, max_mem_limit_kb, 0) {
                Some(k) => planned matches Err(e) && is_plan_failure(
                    e,
                    block@,
                    password@,
                    max_mem_limit_kb,
                    threads,
                    order@[k] as int,
                ),
                None => {
                    &&& planned matches Ok((plans, sizes))
                    &&& plans@.len() == order@.len()
                    &&& sizes@.len() == order@.len()
                    &&& forall|k: int|
                        0 <= k < order@.len() ==> stated_size(block@, order@[k] as int) == Some(
                            #[trigger] sizes@[k],
                        ) && is_plan_of(
                            Ok(plans@[k]),
                            block@.coders[order@[k] as int],
                            sizes@[k],
                            password@,
                            max_mem_limit_kb,
                            threads,
                        )
                },
            }
        }),
{
    let ghost places = Seq::new(order@.len(), |k: int| order@[k] as u64);
    let mut plans: Vec<Decoder> = Vec::new();
    let mut sizes: Vec<usize> = Vec::new();
    let mut k: usize = 0;
    while k < order.len()
        invariant
            k <= order.len(),
            places == Seq::new(order@.len(), |k: int| order@[k] as u64),
            forall|j: int| 0 <= j < order@.len() ==> (#[trigger] order@[j]) < block@.coders.len(),
            first_refused(block@, places, password@, max_mem_limit_kb, 0) == first_refused(
                block@,
                places,
                password@,
                max_mem_limit_kb,
                k as int,
            ),
            plans@.len() == k,
            sizes@.len() == k,
            forall|j: int|
                0 <= j < k ==> stated_size(block@, order@[j] as int) == Some(#[trigger] sizes@[j])
                    && is_plan_of(
                    Ok(plans@[j]),
                    block@.coders[order@[j] as int],
                    sizes@[j],
                    password@,
                    max_mem_limit_kb,
                    threads,
                ),
        decreases order.len() - k,
    {
        let index: usize = order[k];
        assert(places[k as int] == index as u64);
        if index >= block.unpack_sizes.len() || block.unpack_sizes[index] > usize::MAX as u64 {
            return Err(Error::other("A coder without a size that memory can hold"));
        }
        let size: usize = block.unpack_sizes[index] as usize;
        let coder = &block.coders[index];
        assert(block@.coders[index as int] == coder@);
        let made = add_decoder(size, coder, password, max_mem_limit_kb, threads);
        proof {
            lemma_plan(made, coder@, password@, max_mem_limit_kb, threads, Seq::empty(), size);
        }
        match made {
            Ok(plan) => {
                plans.push(plan);
                sizes.push(size);
            },
            Err(e) => {
                return Err(e);
            },
        }
        k += 1;
    }
    Ok((plans, sizes))
}

/// Runs the decoders `plans`, made for the coders of a block in the order `list`,
/// over the pack stream: each decodes what the one before it gave, as far as the
/// size stated for it.
#[verifier::rlimit(40)]
fn run_plans(
    block: &Block,
    list: &Vec<usize>,
    plans: Vec<Decoder>,
    sizes: &Vec<usize>,
    packed: &[u8],
    password: &Password,
    max_mem_limit_kb: usize,
    threads: u32,
) -> (out: Result<Vec<u8>, Error>)
    requires
        plans@.len() == list@.len(),
        sizes@.len() == list@.len(),
        forall|j: int| 0 <= j < list@.len() ==> (#[trigger] list@[j]) < block@.coders.len(),
        forall|j: int|
            0 <= j < list@.len() ==> stated_size(block@, list@[j] as int) == Some(
                #[trigger] sizes@[j],
            ) && is_plan_of(
                Ok(plans@[j]),
                block@.coders[list@[j] as int],
                sizes@[j],
                password@,
                max_mem_limit_kb,
                threads,
            ),
    ensures
        ({
            let order = Seq::new(list@.len(), |k: int| list@[k] as u64);
            if is_fixed_block(block@, threads) {
                is_stage_result(
                    out,
                    stage_end(
                        block@,
                        order,
                        password@,
                        max_mem_limit_kb,
                        threads,
                        packed@,
                        order.len(),
                    ),
                    staged(
                        block@,
                        order,
                        password@,
                        max_mem_limit_kb,
                        threads,
                        packed@,
                        order.len(),
                    ),
                )
            } else {
                is_loose_result(out, block@, order)
            }
        }),
{
    let ghost order = Seq::new(list@.len(), |k: int| list@[k] as u64);
    let ghost all = plans@;
    let ghost pw = password@;
    let mut plans = plans;
    let count: usize = list.len();
    let mut data: Vec<u8> = crate::buf::copy_range(packed, 0, packed.len());
    assert(data@ =~= packed@);
    let mut k: usize = 0;
    while k < count
        invariant
            k <= count == order.len(),
            count == all.len(),
            count == sizes@.len(),
            count == list@.len(),
            pw == password@,
            order == Seq::new(list@.len(), |k: int| list@[k] as u64),
            plans@ == all.skip(k as int),
            forall|j: int| 0 <= j < count ==> (#[trigger] list@[j]) < block@.coders.len(),
            forall|j: int|
                0 <= j < count ==> stated_size(block@, list@[j] as int) == Some(
                    #[trigger] sizes@[j],
                ) && is_plan_of(
                    Ok(all[j]),
                    block@.coders[list@[j] as int],
                    sizes@[j],
                    pw,
                    max_mem_limit_kb,
                    threads,
                ),
            is_fixed_block(block@, threads) ==> stage_end(
                block@,
                order,
                pw,
                max_mem_limit_kb,
                threads,
                packed@,
                k as nat,
            ) is None && data@ == staged(
                block@,
                order,
                pw,
                max_mem_limit_kb,
                threads,
                packed@,
                k as nat,
            ),
            k > 0 ==> data@.len() <= sizes@[k - 1],
        decreases count - k,
    {
        let plan = plans.remove(0);
        let size: usize = sizes[k];
        let ghost index = list@[k as int] as int;
        let ghost coder = block@.coders[index];
        let ghost before = data@;
        let ghost next = (k + 1) as nat;
        proof {
            assert(plan == all[k as int]);
            assert(plans@ =~= all.skip(k + 1));
            assert(order[next - 1] == list@[k as int] as u64);
            assert(stated_size(block@, index) == Some(sizes@[k as int]));
            lemma_plan(Ok(plan), coder, pw, max_mem_limit_kb, threads, before, size);
            if is_fixed_block(block@, threads) {
                assert(is_fixed_coder(block@.coders[index], threads));
            }
            let end = stage_end(block@, order, pw, max_mem_limit_kb, threads, packed@, next);
            if is_fixed_block(block@, threads) {
                assert(end == match coder_refusal(coder, pw, before) {
                    Some(e) => Some(Some(e)),
                    None => if coder_takes(coder, pw, max_mem_limit_kb, threads, before, size) {
                        None
                    } else {
                        Some(None::<Error>)
                    },
                });
                assert(staged(block@, order, pw, max_mem_limit_kb, threads, packed@, next)
                    == clipped(
                    coder_output(coder, pw, max_mem_limit_kb, threads, before, size),
                    size,
                ));
            }
            if is_fixed_block(block@, threads) && end is Some {
                lemma_stage_end_stays(
                    block@,
                    order,
                    pw,
                    max_mem_limit_kb,
                    threads,
                    packed@,
                    next,
                    count as nat,
                );
            }
        }
        let mut bytes = match plan.decode(data.as_slice(), size) {
            Ok(bytes) => bytes,
            Err(e) => {
                return Err(e);
            },
        };
        if bytes.len() > size {
            bytes.truncate(size);
        }
        data = bytes;
        k += 1;
    }
    Ok(data)
}

/// Whether `out` is what decoding the pack stream `packed` of a block owes.
///
/// A block whose coders do not form one chain is refused, and so is a block with a
/// coder for which no decoder is made. After that the coders decode in their order:
/// the first whose input calls for a failure by itself, or whose codec reports one,
/// ends decoding with that failure; and where none does, the output is what the
/// chain of the coders makes of the pack stream. Of a block with an LZMA2 coder that
/// is decoded on several threads, whose outcome is not fixed by its input, only the
/// length of the output is said.
pub open spec fn is_decoded(
    out: Result<Vec<u8>, Error>,
    block: BlockView,
    packed: Seq<u8>,
    password: Seq<u8>,
    max_mem_limit_kb: usize,
    threads: u32,
) -> bool {
    if !is_linear(block) {
        out == Err::<Vec<u8>, Error>(not_linear())
    } else {
        let order = walk(block.bind_pairs, block.packed_streams[0], block.coders.len());
        match first_refused(block, order, password, max_mem_limit_kb, 0) {
            Some(k) => out matches Err(e) && is_plan_failure(
                e,
                block,
                password,
                max_mem_limit_kb,
                threads,
                order[k] as int,
            ),
            None => if is_fixed_block(block, threads) {
                is_stage_result(
                    out,
                    stage_end(
                        block,
                        order,
                        password,
                        max_mem_limit_kb,
                        threads,
                        packed,
                        order.len(),
                    ),
                    staged(block, order, password, max_mem_limit_kb, threads, packed, order.len()),
                )
            } else {
                is_loose_result(out, block, order)
            },
        }
    }
}

/// What decoding the pack stream `packed` of a block gives, where it gives anything:
/// the coders form one chain, a decoder is made for each, and each decodes. It says
/// what decoding gives only of a block whose outcome is fixed by its input.
pub open spec fn decoded_block(
    block: BlockView,
    packed: Seq<u8>,
    password: Seq<u8>,
    max_mem_limit_kb: usize,
    threads: u32,
) -> Option<Seq<u8>> {
    let order = walk(block.bind_pairs, block.packed_streams[0], block.coders.len());
    if is_linear(block) && first_refused(block, order, password, max_mem_limit_kb, 0) is None
        && stage_end(block, order, password, max_mem_limit_kb, threads, packed, order.len())
        is None {
        Some(staged(block, order, password, max_mem_limit_kb, threads, packed, order.len()))
    } else {
        None
    }
}

/// Decodes the pack stream of a block through the chain of its coders, from the
/// coder that the pack stream feeds to the coder that gives the output of the block.
///
/// A block whose coders do not form one chain is refused, and so is a block with a
/// coder for which no decoder is made: both before any byte is decoded. Then each
/// coder decodes what the coder before it gave, as far as the size stated for it.
pub fn decode_block(
    block: &Block,
    packed: &[u8],
    password: &Password,
    max_mem_limit_kb: usize,
    threads: u32,
) -> (out: Result<Vec<u8>, Error>)
    ensures
        is_decoded(out, block@, packed@, password@, max_mem_limit_kb, threads),
        is_fixed_block(block@, threads) ==> (out is Ok <==> decoded_block(
            block@,
            packed@,
            password@,
            max_mem_limit_kb,
            threads,
        ) is Some),
        is_fixed_block(block@, threads) ==> (out matches Ok(bytes) ==> decoded_block(
            block@,
            packed@,
            password@,
            max_mem_limit_kb,
            threads,
        ) == Some(bytes@)),
{
    let list = match decode_order(block) {
        Ok(list) => list,
        Err(e) => {
            return Err(e);
        },
    };
    let ghost order = walk(block@.bind_pairs, block@.packed_streams[0], block@.coders.len());
    let ghost places = Seq::new(list@.len(), |k: int| list@[k] as u64);
    assert(places =~= order);
    proof {
        lemma_first_refused_range(block@, order, password@, max_mem_limit_kb, 0);
        let found = first_refused(block@, order, password@, max_mem_limit_kb, 0);
        if found is Some {
            assert(order[found->0] == list@[found->0] as u64);
        }
    }
    let (plans, sizes) = match plan_block(block, &list, password, max_mem_limit_kb, threads) {
        Ok(planned) => planned,
        Err(e) => {
            return Err(e);
        },
    };
    run_plans(block, &list, plans, &sizes, packed, password, max_mem_limit_kb, threads)
}

/// The first coder for which no decoder is made has a place in the order.
pub proof fn lemma_first_refused_range(
    block: BlockView,
    order: Seq<u64>,
    password: Seq<u8>,
    max_mem_limit_kb: usize,
    from: int,
)
    requires
        0 <= from,
    ensures
        first_refused(block, order, password, max_mem_limit_kb, from) matches Some(k) ==> from
            <= k < order.len() && coder_refused(block, password, max_mem_limit_kb, order[k] as int),
    decreases order.len() - from,
{
    if from < order.len() && !coder_refused(block, password, max_mem_limit_kb, order[from] as int) {
        lemma_first_refused_range(block, order, password, max_mem_limit_kb, from + 1);
    }
}

/// The place, from `from` on, of the first method of a chain for which no encoder is
/// made.
pub open spec fn first_bad_method(methods: Seq<EncoderConfiguration>, from: int) -> Option<int>
    decreases methods.len() - from,
{
    if from < 0 || from >= methods.len() {
        None
    } else if config_refusal(methods[from]) is Some {
        Some(from)
    } else {
        first_bad_method(methods, from + 1)
    }
}

/// What `data` has become on its way to the pack stream when it reaches the coder
/// `from` of a chain from behind: the last coder of the chain encodes the data, and
/// each coder before it encodes what the coder behind it gave.
pub open spec fn encoded_from(methods: Seq<EncoderConfiguration>, data: Seq<u8>, from: int) -> Seq<
    u8,
>
    decreases methods.len() - from,
{
    if from < 0 || from >= methods.len() {
        data
    } else {
        config_output(methods[from], encoded_from(methods, data, from + 1))
    }
}

/// Whether the codecs of the coders of a chain from `from` on take what they are
/// given when the chain encodes `data`: the last coder `data`, and each coder before
/// it what the coder behind it gave.
pub open spec fn encodes_from(methods: Seq<EncoderConfiguration>, data: Seq<u8>, from: int) -> bool
    decreases methods.len() - from,
{
    if from < 0 || from >= methods.len() {
        true
    } else {
        encodes_from(methods, data, from + 1) && config_takes(
            methods[from],
            encoded_from(methods, data, from + 1),
        )
    }
}

/// Where the codecs of all the coders of a chain take what they are given, those
/// from any coder on do.
pub proof fn lemma_encodes_from_later(
    methods: Seq<EncoderConfiguration>,
    data: Seq<u8>,
    from: int,
    later: int,
)
    requires
        0 <= from <= later,
        encodes_from(methods, data, from),
    ensures
        encodes_from(methods, data, later),
    decreases later - from,
{
    if from < later && from < methods.len() {
        lemma_encodes_from_later(methods, data, from + 1, later);
    }
}

/// A chain that encodes without a codec of another crate takes all data.
pub proof fn lemma_own_chain_encodes(methods: Seq<EncoderConfiguration>, data: Seq<u8>, from: int)
    requires
        0 <= from,
        all_own_methods(methods),
    ensures
        encodes_from(methods, data, from),
    decreases methods.len() - from,
{
    if from < methods.len() {
        lemma_own_chain_encodes(methods, data, from + 1);
        assert(is_own_method(methods[from].method));
    }
}

/// Whether no codec of another crate has a say in what a chain of methods gives.
pub open spec fn all_own_methods(methods: Seq<EncoderConfiguration>) -> bool {
    forall|i: int| 0 <= i < methods.len() ==> is_own_method((#[trigger] methods[i]).method)
}

/// Makes the encoders of a chain of methods, in the order of the chain.
fn plan_chain(methods: &Vec<EncoderConfiguration>) -> (planned: Result<Vec<Encoder>, Error>)
    requires
        methods_wf(methods@),
    ensures
        match first_bad_method(methods@, 0) {
            Some(i) => planned == Err::<Vec<Encoder>, Error>(config_refusal(methods@[i])->0),
            None => {
                &&& planned matches Ok(encoders)
                &&& encoders@.len() == methods@.len()
                &&& forall|i: int|
                    0 <= i < methods@.len() ==> (#[trigger] encoders@[i]).wf() && is_encoder_for(
                        Ok(encoders@[i]),
                        methods@[i].method,
                        methods@[i].options,
                    )
            },
        },
{
    let mut encoders: Vec<Encoder> = Vec::new();
    let mut i: usize = 0;
    while i < methods.len()
        invariant
            i <= methods.len(),
            methods_wf(methods@),
            first_bad_method(methods@, 0) == first_bad_method(methods@, i as int),
            encoders@.len() == i,
            forall|j: int|
                0 <= j < i ==> (#[trigger] encoders@[j]).wf() && is_encoder_for(
                    Ok(encoders@[j]),
                    methods@[j].method,
                    methods@[j].options,
                ),
        decreases methods.len() - i,
    {
        let made = add_encoder(&methods[i]);
        proof {
            lemma_encoder(made, methods@[i as int], Seq::empty());
        }
        match made {
            Ok(encoder) => {
                encoders.push(encoder);
            },
            Err(e) => {
                return Err(e);
            },
        }
        i += 1;
    }
    Ok(encoders)
}

/// Encodes the data of a block through a chain of methods, from the last coder of
/// the chain to the first, whose output is the pack stream. Returns the pack stream
/// and, for each coder, the number of bytes that its decoder has to give: what the
/// coder was given to encode.
///
/// A chain with a method for which no encoder is made is refused before any byte is
/// encoded. After that, encoding fails where the codec of a coder does not take
/// what it is given, and only there.
pub fn encode_block(methods: &Vec<EncoderConfiguration>, data: &[u8]) -> (out: Result<
    (Vec<u8>, Vec<u64>),
    Error,
>)
    requires
        methods_wf(methods@),
    ensures
        match first_bad_method(methods@, 0) {
            Some(i) => out == Err::<(Vec<u8>, Vec<u64>), Error>(config_refusal(methods@[i])->0),
            None => {
                &&& out is Ok <==> encodes_from(methods@, data@, 0)
                &&& out matches Ok((packed, sizes)) ==> {
                    &&& packed@ == encoded_from(methods@, data@, 0)
                    &&& sizes@.len() == methods@.len()
                    &&& forall|i: int|
                        0 <= i < methods@.len() ==> (#[trigger] sizes@[i]) == encoded_from(
                            methods@,
                            data@,
                            i + 1,
                        ).len()
                }
                &&& out matches Err(e) ==> is_codec_failure(e) || is_frame_failure(e)
                &&& all_own_methods(methods@) ==> out is Ok
            },
        },
{
    let mut encoders = match plan_chain(methods) {
        Ok(encoders) => encoders,
        Err(e) => {
            return Err(e);
        },
    };
    let ghost all = encoders@;
    let count: usize = methods.len();
    let mut sizes: Vec<u64> = Vec::new();
    let mut n: usize = 0;
    while n < count
        invariant
            n <= count,
            sizes@.len() == n,
        decreases count - n,
    {
        sizes.push(0);
        n += 1;
    }
    let mut current: Vec<u8> = crate::buf::copy_range(data, 0, data.len());
    assert(current@ =~= data@);
    let mut k: usize = count;
    while k > 0
        invariant
            k <= count == methods@.len(),
            count == all.len(),
            sizes@.len() == count,
            encoders@ == all.take(k as int),
            forall|i: int|
                0 <= i < count ==> (#[trigger] all[i]).wf() && is_encoder_for(
                    Ok(all[i]),
                    methods@[i].method,
                    methods@[i].options,
                ),
            first_bad_method(methods@, 0) is None,
            current@ == encoded_from(methods@, data@, k as int),
            encodes_from(methods@, data@, k as int),
            forall|i: int|
                k <= i < count ==> (#[trigger] sizes@[i]) == encoded_from(
                    methods@,
                    data@,
                    i + 1,
                ).len(),
        decreases k,
    {
        let encoder = match encoders.pop() {
            Some(encoder) => encoder,
            None => {
                return Err(Error::other("The encoder is closed"));
            },
        };
        let index: usize = k - 1;
        proof {
            assert(encoder == all[index as int]);
            assert(encoders@ =~= all.take(index as int));
            lemma_encoder(Ok(encoder), methods@[index as int], current@);
            if all_own_methods(methods@) {
                assert(is_own_method(methods@[index as int].method));
            }
            if encodes_from(methods@, data@, 0) {
                lemma_encodes_from_later(methods@, data@, 0, index as int);
            }
        }
        sizes.set(index, current.len() as u64);
        current = match encoder.encode(current.as_slice()) {
            Ok(bytes) => bytes,
            Err(e) => {
                return Err(e);
            },
        };
        k = index;
    }
    Ok((current, sizes))
}

} // verus!
