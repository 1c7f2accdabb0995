//! What holds of the chain of coders of a block as a whole: a block is read back as
//! it was written wherever each of its decoders gives back what its encoder was
//! given, and nothing is decoded with an empty password where a password is needed.

use vstd::prelude::*;

use crate::archive::BlockView;
use crate::buf::clipped;
use crate::collect::unpack_sizes_of;
use crate::decoder::{coder_output, coder_refusal, is_own_coder, refuses};
use crate::encoder::config_output;
use crate::error::Error;
use crate::frames::is_codec_failure;
use crate::header_spec::MAX_CODERS;
use crate::method::{lemma_by_id_of_id, EncoderMethod};
use crate::options::EncoderConfiguration;
use crate::pipeline::{
    all_own, coder_refused, decoded_block, encoded_from, first_refused, is_decoded, is_fixed_block,
    is_linear, stage_end, staged, stated_size, walk,
};
use crate::writer::{chain_block_of, chain_coder, lemma_chain_block};

verus! {

/// Where a decoder is made for every coder from `from` on, none is the first for
/// which none is made.
pub proof fn lemma_none_refused(
    block: BlockView,
    order: Seq<u64>,
    password: Seq<u8>,
    max_mem_limit_kb: usize,
    from: int,
)
    requires
        0 <= from,
        forall|k: int|
            from <= k < order.len() ==> !coder_refused(
                block,
                password,
                max_mem_limit_kb,
                #[trigger] order[k] as int,
            ),
    ensures
        first_refused(block, order, password, max_mem_limit_kb, from) is None,
    decreases order.len() - from,
{
    if from < order.len() {
        assert(!coder_refused(block, password, max_mem_limit_kb, order[from] as int));
        lemma_none_refused(block, order, password, max_mem_limit_kb, from + 1);
    }
}

/// Where no decoder is made for the coder at the place `place` of the order, some
/// coder up to that place is the first for which none is made.
pub proof fn lemma_some_refused(
    block: BlockView,
    order: Seq<u64>,
    password: Seq<u8>,
    max_mem_limit_kb: usize,
    from: int,
    place: int,
)
    requires
        0 <= from <= place < order.len(),
        coder_refused(block, password, max_mem_limit_kb, order[place] as int),
    ensures
        first_refused(block, order, password, max_mem_limit_kb, from) matches Some(k) && from
            <= k <= place,
    decreases place - from,
{
    if from < place && !coder_refused(block, password, max_mem_limit_kb, order[from] as int) {
        lemma_some_refused(block, order, password, max_mem_limit_kb, from + 1, place);
    }
}

/// With an empty password no byte of a block that has an AES coder in its chain is
/// decoded; and where the coders form one chain and the pack stream feeds the AES
/// coder, the failure is that a password is required.
pub proof fn lemma_no_data_without_password(
    out: Result<Vec<u8>, Error>,
    block: BlockView,
    packed: Seq<u8>,
    max_mem_limit_kb: usize,
    threads: u32,
    place: int,
)
    requires
        is_decoded(out, block, packed, Seq::empty(), max_mem_limit_kb, threads),
        ({
            let order = walk(block.bind_pairs, block.packed_streams[0], block.coders.len());
            0 <= place < order.len() && EncoderMethod::spec_by_id(
                block.coders[order[place] as int].method_id,
            ) == Some(EncoderMethod::Aes256Sha256)
        }),
    ensures
        out is Err,
        ({
            let order = walk(block.bind_pairs, block.packed_streams[0], block.coders.len());
            is_linear(block) && place == 0 && stated_size(block, order[0] as int) is Some ==> out
                == Err::<Vec<u8>, Error>(Error::PasswordRequired)
        }),
{
    let order = walk(block.bind_pairs, block.packed_streams[0], block.coders.len());
    lemma_some_refused(block, order, Seq::empty(), max_mem_limit_kb, 0, place);
}

/// Whether the decoder of the coder that stands for a method in an archive gives
/// back what the encoder of the method was given, for all data.
pub open spec fn gives_back(
    configuration: EncoderConfiguration,
    password: Seq<u8>,
    max_mem_limit_kb: usize,
    threads: u32,
) -> bool {
    forall|data: Seq<u8>|
        data.len() <= usize::MAX ==> {
            let packed = #[trigger] config_output(configuration, data);
            &&& coder_refusal(chain_coder(configuration), password, packed) is None
            &&& clipped(
                coder_output(
                    chain_coder(configuration),
                    password,
                    max_mem_limit_kb,
                    threads,
                    packed,
                    data.len() as usize,
                ),
                data.len() as usize,
            ) == data
        }
}

/// Whether a chain can be read back: a decoder is made for each of its coders and
/// gives back what the encoder was given.
pub open spec fn chain_gives_back(
    methods: Seq<EncoderConfiguration>,
    password: Seq<u8>,
    max_mem_limit_kb: usize,
    threads: u32,
) -> bool {
    forall|i: int|
        0 <= i < methods.len() ==> gives_back(
            #[trigger] methods[i],
            password,
            max_mem_limit_kb,
            threads,
        ) && !refuses(chain_coder(methods[i]), password, max_mem_limit_kb)
}

/// Behind the first `count` coders of a chain that can be read back, the pack stream
/// that the chain made of `data` has become what the coder `count` was given to
/// encode, and the input of no coder has called for a failure.
pub proof fn lemma_staged_is_encoded(
    methods: Seq<EncoderConfiguration>,
    data: Seq<u8>,
    block: BlockView,
    password: Seq<u8>,
    max_mem_limit_kb: usize,
    threads: u32,
    count: nat,
)
    requires
        1 <= methods.len() <= MAX_CODERS,
        count <= methods.len(),
        chain_gives_back(methods, password, max_mem_limit_kb, threads),
        forall|k: int|
            0 <= k <= methods.len() ==> (#[trigger] encoded_from(methods, data, k)).len()
                <= usize::MAX,
        block.coders == crate::writer::chain_coders(methods),
        block.unpack_sizes == unpack_sizes_of(methods, data),
    ensures
        ({
            let order = Seq::new(methods.len(), |i: int| i as u64);
            let packed = encoded_from(methods, data, 0);
            &&& staged(block, order, password, max_mem_limit_kb, threads, packed, count)
                == encoded_from(methods, data, count as int)
            &&& !(stage_end(block, order, password, max_mem_limit_kb, threads, packed, count)
                matches Some(Some(_)))
            &&& all_own(block) ==> stage_end(
                block,
                order,
                password,
                max_mem_limit_kb,
                threads,
                packed,
                count,
            ) is None
        }),
    decreases count,
{
    if count > 0 {
        let previous = (count - 1) as nat;
        lemma_staged_is_encoded(
            methods,
            data,
            block,
            password,
            max_mem_limit_kb,
            threads,
            previous,
        );
        let order = Seq::new(methods.len(), |i: int| i as u64);
        let given = encoded_from(methods, data, count as int);
        let made = encoded_from(methods, data, previous as int);
        assert(order[count - 1] as int == previous);
        assert(made == config_output(methods[previous as int], given));
        assert(gives_back(methods[previous as int], password, max_mem_limit_kb, threads));
        assert(block.coders[previous as int] == chain_coder(methods[previous as int]));
        assert(block.unpack_sizes[previous as int] == given.len() as u64);
        assert(stated_size(block, previous as int) == Some(given.len() as usize));
    }
}

/// A block is read back as it was written wherever a decoder is made for each of
/// its coders and gives back what the encoder was given: decoding the pack stream
/// that a chain made of `data`, through the block that stands for the chain, gives
/// `data`, unless a codec of another crate reports a failure.
#[verifier::rlimit(40)]
pub proof fn lemma_block_round_trip(
    out: Result<Vec<u8>, Error>,
    methods: Seq<EncoderConfiguration>,
    data: Seq<u8>,
    block: BlockView,
    password: Seq<u8>,
    max_mem_limit_kb: usize,
    threads: u32,
)
    requires
        1 <= methods.len() <= MAX_CODERS,
        chain_gives_back(methods, password, max_mem_limit_kb, threads),
        forall|k: int|
            0 <= k <= methods.len() ==> (#[trigger] encoded_from(methods, data, k)).len()
                <= usize::MAX,
        block == chain_block_of(
            methods,
            unpack_sizes_of(methods, data),
            block.crc,
            block.substream_sizes,
            block.substream_crcs,
        ),
        is_fixed_block(block, threads),
        is_decoded(
            out,
            block,
            encoded_from(methods, data, 0),
            password,
            max_mem_limit_kb,
            threads,
        ),
    ensures
        out matches Ok(bytes) ==> bytes@ == data,
        out matches Err(e) ==> is_codec_failure(e),
        all_own(block) ==> out is Ok,
{
    lemma_chain_block(block, methods);
    let order = walk(block.bind_pairs, block.packed_streams[0], block.coders.len());
    assert(order == Seq::new(methods.len(), |i: int| i as u64));
    assert forall|k: int| 0 <= k < order.len() implies !coder_refused(
        block,
        password,
        max_mem_limit_kb,
        #[trigger] order[k] as int,
    ) by {
        assert(block.coders[k] == chain_coder(methods[k]));
        assert(encoded_from(methods, data, k + 1).len() <= usize::MAX);
        assert(block.unpack_sizes[k] == encoded_from(methods, data, k + 1).len() as u64);
    }
    lemma_none_refused(block, order, password, max_mem_limit_kb, 0);
    lemma_staged_is_encoded(
        methods,
        data,
        block,
        password,
        max_mem_limit_kb,
        threads,
        methods.len(),
    );
}

/// Where the block that stands for a chain decodes the pack stream that the chain
/// made of `data`, it decodes it to `data`, wherever a decoder is made for each
/// coder and gives back what the encoder was given.
pub proof fn lemma_block_decodes_to_data(
    methods: Seq<EncoderConfiguration>,
    data: Seq<u8>,
    block: BlockView,
    password: Seq<u8>,
    max_mem_limit_kb: usize,
    threads: u32,
)
    requires
        1 <= methods.len() <= MAX_CODERS,
        chain_gives_back(methods, password, max_mem_limit_kb, threads),
        forall|k: int|
            0 <= k <= methods.len() ==> (#[trigger] encoded_from(methods, data, k)).len()
                <= usize::MAX,
        block == chain_block_of(
            methods,
            unpack_sizes_of(methods, data),
            block.crc,
            block.substream_sizes,
            block.substream_crcs,
        ),
    ensures
        decoded_block(
            block,
            encoded_from(methods, data, 0),
            password,
            max_mem_limit_kb,
            threads,
        ) matches Some(output) ==> output == data,
{
    lemma_chain_block(block, methods);
    let order = walk(block.bind_pairs, block.packed_streams[0], block.coders.len());
    assert(order == Seq::new(methods.len(), |i: int| i as u64));
    lemma_staged_is_encoded(
        methods,
        data,
        block,
        password,
        max_mem_limit_kb,
        threads,
        methods.len(),
    );
}

/// The coder that stands for the method Copy gives back what it was given, and a
/// decoder is made for it.
pub proof fn lemma_copy_gives_back(
    configuration: EncoderConfiguration,
    password: Seq<u8>,
    max_mem_limit_kb: usize,
    threads: u32,
)
    requires
        configuration.method == EncoderMethod::Copy,
    ensures
        gives_back(configuration, password, max_mem_limit_kb, threads),
        !refuses(chain_coder(configuration), password, max_mem_limit_kb),
        is_own_coder(chain_coder(configuration)),
{
    lemma_by_id_of_id(EncoderMethod::Copy);
}

/// A block written with coders of the method Copy alone is read back as it was
/// written: decoding it gives the data that was encoded.
pub proof fn lemma_copy_block_round_trip(
    out: Result<Vec<u8>, Error>,
    methods: Seq<EncoderConfiguration>,
    data: Seq<u8>,
    block: BlockView,
    password: Seq<u8>,
    max_mem_limit_kb: usize,
    threads: u32,
)
    requires
        1 <= methods.len() <= MAX_CODERS,
        forall|i: int| 0 <= i < methods.len() ==> (#[trigger] methods[i]).method == EncoderMethod::Copy,
        data.len() <= usize::MAX,
        block == chain_block_of(
            methods,
            unpack_sizes_of(methods, data),
            block.crc,
            block.substream_sizes,
            block.substream_crcs,
        ),
        is_decoded(
            out,
            block,
            encoded_from(methods, data, 0),
            password,
            max_mem_limit_kb,
            threads,
        ),
    ensures
        encoded_from(methods, data, 0) == data,
        out matches Ok(bytes) && bytes@ == data,
{
    lemma_copies_give_back(methods, data, block, password, max_mem_limit_kb, threads);
    lemma_block_round_trip(out, methods, data, block, password, max_mem_limit_kb, threads);
}

/// A block whose coders are all the library's own decodes the pack stream that its
/// chain made of `data`, and decodes it to `data`, wherever a decoder is made for
/// each coder and gives back what the encoder was given.
pub proof fn lemma_own_block_decodes(
    methods: Seq<EncoderConfiguration>,
    data: Seq<u8>,
    block: BlockView,
    password: Seq<u8>,
    max_mem_limit_kb: usize,
    threads: u32,
)
    requires
        1 <= methods.len() <= MAX_CODERS,
        chain_gives_back(methods, password, max_mem_limit_kb, threads),
        forall|k: int|
            0 <= k <= methods.len() ==> (#[trigger] encoded_from(methods, data, k)).len()
                <= usize::MAX,
        block == chain_block_of(
            methods,
            unpack_sizes_of(methods, data),
            block.crc,
            block.substream_sizes,
            block.substream_crcs,
        ),
        all_own(block),
    ensures
        decoded_block(
            block,
            encoded_from(methods, data, 0),
            password,
            max_mem_limit_kb,
            threads,
        ) == Some(data),
{
    lemma_chain_block(block, methods);
    let order = walk(block.bind_pairs, block.packed_streams[0], block.coders.len());
    assert(order == Seq::new(methods.len(), |i: int| i as u64));
    assert forall|k: int| 0 <= k < order.len() implies !coder_refused(
        block,
        password,
        max_mem_limit_kb,
        #[trigger] order[k] as int,
    ) by {
        assert(block.coders[k] == chain_coder(methods[k]));
        assert(encoded_from(methods, data, k + 1).len() <= usize::MAX);
        assert(block.unpack_sizes[k] == encoded_from(methods, data, k + 1).len() as u64);
    }
    lemma_none_refused(block, order, password, max_mem_limit_kb, 0);
    lemma_staged_is_encoded(
        methods,
        data,
        block,
        password,
        max_mem_limit_kb,
        threads,
        methods.len(),
    );
}

/// A chain of coders of the method Copy can be read back, its coders are the
/// library's own, and what it makes of `data` is `data`.
pub proof fn lemma_copies_give_back(
    methods: Seq<EncoderConfiguration>,
    data: Seq<u8>,
    block: BlockView,
    password: Seq<u8>,
    max_mem_limit_kb: usize,
    threads: u32,
)
    requires
        forall|i: int| 0 <= i < methods.len() ==> (#[trigger] methods[i]).method == EncoderMethod::Copy,
        block.coders == crate::writer::chain_coders(methods),
    ensures
        chain_gives_back(methods, password, max_mem_limit_kb, threads),
        all_own(block),
        is_fixed_block(block, threads),
        forall|k: int|
            0 <= k <= methods.len() ==> #[trigger] encoded_from(methods, data, k) == data,
{
    assert forall|i: int| 0 <= i < methods.len() implies gives_back(
        #[trigger] methods[i],
        password,
        max_mem_limit_kb,
        threads,
    ) && !refuses(chain_coder(methods[i]), password, max_mem_limit_kb) by {
        lemma_copy_gives_back(methods[i], password, max_mem_limit_kb, threads);
    }
    assert forall|k: int| 0 <= k <= methods.len() implies #[trigger] encoded_from(
        methods,
        data,
        k,
    ) == data by {
        lemma_copies_encode_nothing(methods, data, k);
    }
    assert forall|i: int| 0 <= i < block.coders.len() implies is_own_coder(
        #[trigger] block.coders[i],
    ) && crate::decoder::is_fixed_coder(block.coders[i], threads) by {
        lemma_copy_gives_back(methods[i], password, max_mem_limit_kb, threads);
    }
}

/// Coders of the method Copy leave the data as it is.
pub proof fn lemma_copies_encode_nothing(
    methods: Seq<EncoderConfiguration>,
    data: Seq<u8>,
    from: int,
)
    requires
        0 <= from,
        forall|i: int| 0 <= i < methods.len() ==> (#[trigger] methods[i]).method == EncoderMethod::Copy,
    ensures
        encoded_from(methods, data, from) == data,
    decreases methods.len() - from,
{
    if from < methods.len() {
        lemma_copies_encode_nothing(methods, data, from + 1);
    }
}

} // verus!
