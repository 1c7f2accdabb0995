//! Reading the end header.

use vstd::prelude::*;

use crate::archive::{Archive, ArchiveEntry, BindPair, Block, BlockView, CoderView, EntryView};
use crate::bits::read_bits;
use crate::coder::Coder;
use crate::error::Error;
use crate::header_parse::{
    blank_columns, count_set, divided, divided_block, entry_of, feeds_in, files_in_blocks,
    files_with_stream, free_in_from, free_out_from, lemma_count_set_bound, lemma_divided_fails_on,
    lemma_p_bind_pairs_fails_on, lemma_p_coders_fails_on, lemma_p_folders_fails_on,
    lemma_p_name_range, lemma_p_names_fails_on, lemma_p_nums_fails_on, lemma_p_nums_range,
    lemma_p_unpack_sizes_fails_on, lemma_p_values_fails_on, lemma_p_values_range,
    lemma_stated_count_grows, lemma_sum_grows, lemma_unknown_crcs_grows, none_of, ones, output_size,
    p_archive_properties, p_bind_pairs, p_byte, p_bytes, p_coder, p_coders, p_column_data, p_count,
    p_crcs_to_end, p_defined, p_digests, p_expect, p_files_info, p_flags_data, p_folder, p_folders,
    p_name, p_names, p_names_data, p_num, p_nums, p_pack_info, p_properties_of_files,
    p_streams_info, p_sub_streams, p_unpack_info, p_unpack_sizes, p_values, parsed_header, peek_is,
    stated_count, sum, takes_out, total_in, total_out, unknown_crcs, values_as_crcs, with_crcs,
    with_property, FileColumns, StreamsView,
};
use crate::header_spec::{
    malformed, K_ADDITIONAL_STREAMS_INFO, K_ANTI, K_ARCHIVE_PROPERTIES, K_A_TIME,
    K_CODERS_UNPACK_SIZE, K_CRC, K_C_TIME, K_EMPTY_FILE, K_EMPTY_STREAM, K_END, K_FILES_INFO,
    K_FOLDER, K_HEADER, K_MAIN_STREAMS_INFO, K_M_TIME, K_NAME, K_NUM_UNPACK_STREAM, K_PACK_INFO,
    K_SIZE, K_SUB_STREAMS_INFO, K_UNPACK_INFO, K_WIN_ATTRIBUTES, MAX_CODERS,
};
use crate::header_write::{block_views, entry_views};
use crate::le::{u32_from_le, u64_from_le};
use crate::uint64::read_u64;

verus! {

/// The failure of a header that is not built as the format asks.
pub fn malformed_header() -> (e: Error)
    ensures
        e == malformed(),
{
    Error::Other("Malformed archive header")
}

/// Reads the byte at `at`.
pub fn read_byte(bytes: &[u8], at: usize) -> (read: Result<(u8, usize), Error>)
    ensures
        match p_byte(bytes@, at as int) {
            Ok((byte, next)) => read == Ok::<(u8, usize), Error>((byte, next as usize)) && next
                <= bytes.len(),
            Err(e) => read == Err::<(u8, usize), Error>(e),
        },
{
    if at < bytes.len() {
        Ok((bytes[at], at + 1))
    } else {
        Err(malformed_header())
    }
}

/// Reads the variable-length number at `at`.
pub fn read_num(bytes: &[u8], at: usize) -> (read: Result<(u64, usize), Error>)
    ensures
        match p_num(bytes@, at as int) {
            Ok((value, next)) => read == Ok::<(u64, usize), Error>((value, next as usize)) && at
                < next <= bytes.len(),
            Err(e) => read == Err::<(u64, usize), Error>(e),
        },
{
    if at > bytes.len() {
        return Err(malformed_header());
    }
    match read_u64(bytes, at) {
        Ok((value, next)) => Ok((value, next)),
        Err(_) => Err(malformed_header()),
    }
}

/// Reads the number at `at` that says how many items follow.
pub fn read_count(bytes: &[u8], at: usize) -> (read: Result<(usize, usize), Error>)
    ensures
        match p_count(bytes@, at as int) {
            Ok((count, next)) => read == Ok::<(usize, usize), Error>(
                (count as usize, next as usize),
            ) && at < next <= bytes.len() && count <= bytes.len(),
            Err(e) => read == Err::<(usize, usize), Error>(e),
        },
{
    match read_num(bytes, at) {
        Ok((value, next)) => {
            if value <= bytes.len() as u64 {
                Ok((value as usize, next))
            } else {
                Err(malformed_header())
            }
        },
        Err(e) => Err(e),
    }
}

/// Reads the `count` variable-length numbers from `at` on.
pub fn read_nums(bytes: &[u8], at: usize, count: usize) -> (read: Result<(Vec<u64>, usize), Error>)
    ensures
        match p_nums(bytes@, at as int, count as nat) {
            Ok((values, next)) => read matches Ok((got, end)) && got@ == values && end == next
                && at <= end <= bytes.len(),
            Err(e) => read matches Err(got) && got == e,
        },
{
    if at > bytes.len() {
        proof {
            lemma_p_nums_fails_on(bytes@, at as int, 0, count as nat);
        }
        return Err(malformed_header());
    }
    let mut values: Vec<u64> = Vec::new();
    let mut pos: usize = at;
    let mut i: usize = 0;
    while i < count
        invariant
            i <= count,
            at <= pos <= bytes.len(),
            p_nums(bytes@, at as int, i as nat) == Ok::<(Seq<u64>, int), Error>(
                (values@, pos as int),
            ),
        decreases count - i,
    {
        match read_num(bytes, pos) {
            Ok((value, next)) => {
                values.push(value);
                pos = next;
            },
            Err(e) => {
                proof {
                    lemma_p_nums_fails_on(bytes@, at as int, (i + 1) as nat, count as nat);
                }
                return Err(e);
            },
        }
        i += 1;
    }
    Ok((values, pos))
}

/// Reads the vector of `count` bits at `at` of which "all set" is said in one byte.
pub fn read_defined(bytes: &[u8], at: usize, count: usize) -> (read: Result<
    (Vec<bool>, usize),
    Error,
>)
    ensures
        match p_defined(bytes@, at as int, count as nat) {
            Ok((bits, next)) => read matches Ok((got, end)) && got@ == bits && end == next && at
                < end <= bytes.len() && got@.len() == count,
            Err(e) => read matches Err(got) && got == e,
        },
{
    let (all, next) = match read_byte(bytes, at) {
        Ok(r) => r,
        Err(e) => {
            return Err(e);
        },
    };
    if all != 0 {
        let mut bits: Vec<bool> = Vec::new();
        let mut i: usize = 0;
        while i < count
            invariant
                i <= count,
                bits@ == Seq::new(i as nat, |k: int| true),
            decreases count - i,
        {
            bits.push(true);
            i += 1;
            assert(bits@ =~= Seq::new(i as nat, |k: int| true));
        }
        return Ok((bits, next));
    }
    match read_bits(bytes, next, count) {
        Ok((bits, end)) => Ok((bits, end)),
        Err(_) => Err(malformed_header()),
    }
}

/// Reads, for each bit of `defined` that is set, the value of `width` bytes that
/// stands at `at` and behind; `width` is 4 or 8.
pub fn read_values(bytes: &[u8], at: usize, defined: &[bool], width: usize) -> (read: Result<
    (Vec<Option<u64>>, usize),
    Error,
>)
    requires
        width == 4 || width == 8,
    ensures
        match p_values(bytes@, at as int, defined@, width as nat, defined@.len()) {
            Ok((values, next)) => read matches Ok((got, end)) && got@ == values && end == next
                && at <= end <= bytes.len(),
            Err(e) => read matches Err(got) && got == e,
        },
{
    let count: usize = defined.len();
    if at > bytes.len() {
        proof {
            lemma_p_values_fails_on(bytes@, at as int, defined@, width as nat, 0, count as nat);
        }
        return Err(malformed_header());
    }
    let mut values: Vec<Option<u64>> = Vec::new();
    let mut pos: usize = at;
    let mut i: usize = 0;
    while i < count
        invariant
            i <= count == defined.len(),
            width == 4 || width == 8,
            at <= pos <= bytes.len(),
            p_values(bytes@, at as int, defined@, width as nat, i as nat) == Ok::<
                (Seq<Option<u64>>, int),
                Error,
            >((values@, pos as int)),
        decreases count - i,
    {
        if defined[i] {
            if bytes.len() - pos < width {
                proof {
                    lemma_p_values_fails_on(
                        bytes@,
                        at as int,
                        defined@,
                        width as nat,
                        (i + 1) as nat,
                        count as nat,
                    );
                }
                return Err(malformed_header());
            }
            let value: u64 = if width == 4 {
                u32_from_le(bytes, pos) as u64
            } else {
                u64_from_le(bytes, pos)
            };
            values.push(Some(value));
            pos = pos + width;
        } else {
            values.push(None);
        }
        i += 1;
    }
    Ok((values, pos))
}

/// Reads the list of `count` CRCs at `at`, of which some may be missing.
pub fn read_digests(bytes: &[u8], at: usize, count: usize) -> (read: Result<
    (Vec<Option<u32>>, usize),
    Error,
>)
    ensures
        match p_digests(bytes@, at as int, count as nat) {
            Ok((crcs, next)) => read matches Ok((got, end)) && got@ == crcs && end == next && at
                < end <= bytes.len() && got@.len() == count,
            Err(e) => read matches Err(got) && got == e,
        },
{
    let (defined, next) = match read_defined(bytes, at, count) {
        Ok(r) => r,
        Err(e) => {
            return Err(e);
        },
    };
    let (values, end) = match read_values(bytes, next, defined.as_slice(), 4) {
        Ok(r) => r,
        Err(e) => {
            return Err(e);
        },
    };
    proof {
        lemma_p_values_range(bytes@, next as int, defined@, 4, count as nat);
    }
    let mut crcs: Vec<Option<u32>> = Vec::new();
    let mut i: usize = 0;
    while i < values.len()
        invariant
            i <= values.len(),
            crcs@ == values_as_crcs(values@.take(i as int)),
        decreases values.len() - i,
    {
        crcs.push(
            match values[i] {
                Some(v) => Some(#[verifier::truncate] (v as u32)),
                None => None,
            },
        );
        i += 1;
        assert(crcs@ =~= values_as_crcs(values@.take(i as int)));
    }
    assert(values@.take(values.len() as int) =~= values@);
    Ok((crcs, end))
}

/// Reads the `count` bytes from `at` on.
pub fn read_bytes(bytes: &[u8], at: usize, count: usize) -> (read: Result<(Vec<u8>, usize), Error>)
    ensures
        match p_bytes(bytes@, at as int, count as nat) {
            Ok((data, next)) => read matches Ok((got, end)) && got@ == data && end == next && at
                <= end <= bytes.len(),
            Err(e) => read matches Err(got) && got == e,
        },
{
    if at > bytes.len() || bytes.len() - at < count {
        return Err(malformed_header());
    }
    Ok((crate::buf::copy_range(bytes, at, at + count), at + count))
}

/// Reads the byte at `at`, which has to be `id`.
pub fn read_expect(bytes: &[u8], at: usize, id: u8) -> (read: Result<usize, Error>)
    ensures
        match p_expect(bytes@, at as int, id) {
            Ok(next) => read == Ok::<usize, Error>(next as usize) && at < next <= bytes.len(),
            Err(e) => read == Err::<usize, Error>(e),
        },
{
    match read_byte(bytes, at) {
        Ok((byte, next)) => {
            if byte == id {
                Ok(next)
            } else {
                Err(malformed_header())
            }
        },
        Err(e) => Err(e),
    }
}

/// `count` missing CRCs.
fn no_crcs(count: usize) -> (crcs: Vec<Option<u32>>)
    ensures
        crcs@ == none_of::<u32>(count as nat),
{
    let mut crcs: Vec<Option<u32>> = Vec::new();
    let mut i: usize = 0;
    while i < count
        invariant
            i <= count,
            crcs@ == none_of::<u32>(i as nat),
        decreases count - i,
    {
        crcs.push(None);
        i += 1;
        assert(crcs@ =~= none_of::<u32>(i as nat));
    }
    crcs
}

/// Reads the CRCs that may stand at `at` under their id, up to the end of the
/// structure.
pub fn read_crcs_to_end(bytes: &[u8], at: usize, count: usize) -> (read: Result<
    (Vec<Option<u32>>, usize),
    Error,
>)
    ensures
        match p_crcs_to_end(bytes@, at as int, count as nat) {
            Ok((crcs, next)) => read matches Ok((got, end)) && got@ == crcs && end == next && at
                < end <= bytes.len() && got@.len() == count,
            Err(e) => read matches Err(got) && got == e,
        },
{
    let (id, next) = match read_byte(bytes, at) {
        Ok(r) => r,
        Err(e) => {
            return Err(e);
        },
    };
    if id == K_END {
        return Ok((no_crcs(count), next));
    }
    if id != K_CRC {
        return Err(malformed_header());
    }
    let (crcs, behind) = match read_digests(bytes, next, count) {
        Ok(r) => r,
        Err(e) => {
            return Err(e);
        },
    };
    match read_expect(bytes, behind, K_END) {
        Ok(end) => Ok((crcs, end)),
        Err(e) => Err(e),
    }
}

/// Reads where the pack streams lie: the position, the sizes and the CRCs.
pub fn read_pack_info(bytes: &[u8], at: usize) -> (read: Result<
    ((u64, Vec<u64>, Vec<Option<u32>>), usize),
    Error,
>)
    ensures
        match p_pack_info(bytes@, at as int) {
            Ok(((pack_pos, sizes, crcs), next)) => {
                &&& read matches Ok(((got_pos, got_sizes, got_crcs), end))
                &&& got_pos == pack_pos
                &&& got_sizes@ == sizes
                &&& got_crcs@ == crcs
                &&& end == next
                &&& at < end <= bytes.len()
                &&& got_sizes@.len() == got_crcs@.len()
            },
            Err(e) => read matches Err(got) && got == e,
        },
{
    let (pack_pos, a1) = match read_num(bytes, at) {
        Ok(r) => r,
        Err(e) => {
            return Err(e);
        },
    };
    let (count, a2) = match read_count(bytes, a1) {
        Ok(r) => r,
        Err(e) => {
            return Err(e);
        },
    };
    let a3 = match read_expect(bytes, a2, K_SIZE) {
        Ok(r) => r,
        Err(e) => {
            return Err(e);
        },
    };
    let (sizes, a4) = match read_nums(bytes, a3, count) {
        Ok(r) => r,
        Err(e) => {
            return Err(e);
        },
    };
    proof {
        lemma_p_nums_range(bytes@, a3 as int, count as nat);
    }
    let (crcs, end) = match read_crcs_to_end(bytes, a4, count) {
        Ok(r) => r,
        Err(e) => {
            return Err(e);
        },
    };
    Ok(((pack_pos, sizes, crcs), end))
}

/// Reads one coder.
pub fn read_coder(bytes: &[u8], at: usize) -> (read: Result<(Coder, usize), Error>)
    ensures
        match p_coder(bytes@, at as int) {
            Ok((coder, next)) => read matches Ok((got, end)) && got@ == coder && end == next && at
                < end <= bytes.len() && got.num_in_streams <= MAX_CODERS && got.num_out_streams
                <= MAX_CODERS,
            Err(e) => read matches Err(got) && got == e,
        },
{
    let (flags, a1) = match read_byte(bytes, at) {
        Ok(r) => r,
        Err(e) => {
            return Err(e);
        },
    };
    if flags >= 0x40 {
        return Err(Error::UnsupportedFeature("Alternative methods of a coder"));
    }
    let (method_id, a2) = match read_bytes(bytes, a1, (flags % 16) as usize) {
        Ok(r) => r,
        Err(e) => {
            return Err(e);
        },
    };
    let mut num_in_streams: u64 = 1;
    let mut num_out_streams: u64 = 1;
    let mut a3: usize = a2;
    if (flags / 16) % 2 == 1 {
        let (num_in, b1) = match read_num(bytes, a2) {
            Ok(r) => r,
            Err(e) => {
                return Err(e);
            },
        };
        let (num_out, b2) = match read_num(bytes, b1) {
            Ok(r) => r,
            Err(e) => {
                return Err(e);
            },
        };
        if num_in > MAX_CODERS || num_out > MAX_CODERS {
            return Err(malformed_header());
        }
        num_in_streams = num_in;
        num_out_streams = num_out;
        a3 = b2;
    }
    let mut properties: Vec<u8> = Vec::new();
    let mut end: usize = a3;
    if (flags / 32) % 2 == 1 {
        let (size, c1) = match read_count(bytes, a3) {
            Ok(r) => r,
            Err(e) => {
                return Err(e);
            },
        };
        let (data, c2) = match read_bytes(bytes, c1, size) {
            Ok(r) => r,
            Err(e) => {
                return Err(e);
            },
        };
        properties = data;
        end = c2;
    }
    Ok((Coder { method_id, num_in_streams, num_out_streams, properties }, end))
}

/// The views of `coders`.
pub open spec fn coder_views(coders: Seq<Coder>) -> Seq<CoderView> {
    Seq::new(coders.len(), |i: int| coders[i]@)
}

/// Reads the `count` coders from `at` on.
pub fn read_coders(bytes: &[u8], at: usize, count: usize) -> (read: Result<
    (Vec<Coder>, usize),
    Error,
>)
    ensures
        match p_coders(bytes@, at as int, count as nat) {
            Ok((coders, next)) => {
                &&& read matches Ok((got, end))
                &&& coder_views(got@) == coders
                &&& got@.len() == count
                &&& end == next
                &&& at <= end <= bytes.len()
                &&& forall|i: int|
                    0 <= i < got@.len() ==> (#[trigger] got@[i]).num_in_streams <= MAX_CODERS
                        && got@[i].num_out_streams <= MAX_CODERS
            },
            Err(e) => read matches Err(got) && got == e,
        },
{
    if at > bytes.len() {
        proof {
            lemma_p_coders_fails_on(bytes@, at as int, 0, count as nat);
        }
        return Err(malformed_header());
    }
    let mut coders: Vec<Coder> = Vec::new();
    let mut pos: usize = at;
    let mut i: usize = 0;
    assert(coder_views(coders@) =~= Seq::<CoderView>::empty());
    while i < count
        invariant
            i <= count,
            coders@.len() == i,
            at <= pos <= bytes.len(),
            p_coders(bytes@, at as int, i as nat) == Ok::<(Seq<CoderView>, int), Error>(
                (coder_views(coders@), pos as int),
            ),
            forall|k: int|
                0 <= k < coders@.len() ==> (#[trigger] coders@[k]).num_in_streams <= MAX_CODERS
                    && coders@[k].num_out_streams <= MAX_CODERS,
        decreases count - i,
    {
        match read_coder(bytes, pos) {
            Ok((coder, next)) => {
                let ghost before = coder_views(coders@);
                coders.push(coder);
                pos = next;
                assert(coder_views(coders@) =~= before.push(coder@));
            },
            Err(e) => {
                proof {
                    lemma_p_coders_fails_on(bytes@, at as int, (i + 1) as nat, count as nat);
                }
                return Err(e);
            },
        }
        i += 1;
    }
    Ok((coders, pos))
}

/// Reads the `count` bind pairs from `at` on.
pub fn read_bind_pairs(bytes: &[u8], at: usize, count: usize) -> (read: Result<
    (Vec<BindPair>, usize),
    Error,
>)
    ensures
        match p_bind_pairs(bytes@, at as int, count as nat) {
            Ok((pairs, next)) => read matches Ok((got, end)) && got@ == pairs && got@.len()
                == count && end == next && at <= end <= bytes.len(),
            Err(e) => read matches Err(got) && got == e,
        },
{
    if at > bytes.len() {
        proof {
            lemma_p_bind_pairs_fails_on(bytes@, at as int, 0, count as nat);
        }
        return Err(malformed_header());
    }
    let mut pairs: Vec<BindPair> = Vec::new();
    let mut pos: usize = at;
    let mut i: usize = 0;
    while i < count
        invariant
            i <= count,
            pairs@.len() == i,
            at <= pos <= bytes.len(),
            p_bind_pairs(bytes@, at as int, i as nat) == Ok::<(Seq<BindPair>, int), Error>(
                (pairs@, pos as int),
            ),
        decreases count - i,
    {
        let (in_index, a1) = match read_num(bytes, pos) {
            Ok(r) => r,
            Err(e) => {
                proof {
                    lemma_p_bind_pairs_fails_on(bytes@, at as int, (i + 1) as nat, count as nat);
                }
                return Err(e);
            },
        };
        let (out_index, a2) = match read_num(bytes, a1) {
            Ok(r) => r,
            Err(e) => {
                proof {
                    lemma_p_bind_pairs_fails_on(bytes@, at as int, (i + 1) as nat, count as nat);
                }
                return Err(e);
            },
        };
        pairs.push(BindPair { in_index, out_index });
        pos = a2;
        i += 1;
    }
    Ok((pairs, pos))
}

/// The numbers of input and of output streams of `coders` together.
pub fn count_streams(coders: &Vec<Coder>) -> (totals: (usize, usize))
    requires
        coders@.len() <= MAX_CODERS,
        forall|i: int|
            0 <= i < coders@.len() ==> (#[trigger] coders@[i]).num_in_streams <= MAX_CODERS
                && coders@[i].num_out_streams <= MAX_CODERS,
    ensures
        totals.0 == total_in(coder_views(coders@)),
        totals.1 == total_out(coder_views(coders@)),
        totals.0 <= MAX_CODERS * MAX_CODERS,
        totals.1 <= MAX_CODERS * MAX_CODERS,
{
    let ghost views = coder_views(coders@);
    let mut ins: usize = 0;
    let mut outs: usize = 0;
    let mut i: usize = 0;
    while i < coders.len()
        invariant
            i <= coders.len() <= MAX_CODERS,
            views == coder_views(coders@),
            forall|k: int|
                0 <= k < coders@.len() ==> (#[trigger] coders@[k]).num_in_streams <= MAX_CODERS
                    && coders@[k].num_out_streams <= MAX_CODERS,
            ins == total_in(views.take(i as int)),
            outs == total_out(views.take(i as int)),
            ins <= MAX_CODERS * i,
            outs <= MAX_CODERS * i,
        decreases coders.len() - i,
    {
        assert(views.take(i + 1).drop_last() =~= views.take(i as int));
        assert(views.take(i + 1).last() == coders@[i as int]@);
        ins = ins + coders[i].num_in_streams as usize;
        outs = outs + coders[i].num_out_streams as usize;
        i += 1;
    }
    assert(views.take(coders.len() as int) =~= views);
    (ins, outs)
}

/// Whether a bind pair feeds the input stream `index`.
fn is_fed(pairs: &Vec<BindPair>, index: u64) -> (fed: bool)
    ensures
        fed == feeds_in(pairs@, index as int),
{
    let mut k: usize = 0;
    while k < pairs.len()
        invariant
            k <= pairs.len(),
            forall|j: int| 0 <= j < k ==> pairs@[j].in_index != index,
        decreases pairs.len() - k,
    {
        if pairs[k].in_index == index {
            return true;
        }
        k += 1;
    }
    false
}

/// The first input stream below `total` that no bind pair feeds.
pub fn find_free_in(pairs: &Vec<BindPair>, total: usize) -> (free: Option<u64>)
    ensures
        free == free_in_from(pairs@, 0, total as nat),
{
    let mut i: usize = 0;
    while i < total
        invariant
            i <= total,
            free_in_from(pairs@, 0, total as nat) == free_in_from(pairs@, i as nat, total as nat),
        decreases total - i,
    {
        if !is_fed(pairs, i as u64) {
            return Some(i as u64);
        }
        i += 1;
    }
    None
}

/// Reads the pipeline of one block.
pub fn read_folder(bytes: &[u8], at: usize) -> (read: Result<(Block, usize), Error>)
    ensures
        match p_folder(bytes@, at as int) {
            Ok((block, next)) => {
                &&& read matches Ok((got, end))
                &&& got@ == block
                &&& end == next
                &&& at < end <= bytes.len()
                &&& got.coders@.len() <= MAX_CODERS
                &&& forall|i: int|
                    0 <= i < got.coders@.len() ==> (#[trigger] got.coders@[i]).num_in_streams
                        <= MAX_CODERS && got.coders@[i].num_out_streams <= MAX_CODERS
            },
            Err(e) => read matches Err(got) && got == e,
        },
{
    let (num_coders, a1) = match read_num(bytes, at) {
        Ok(r) => r,
        Err(e) => {
            return Err(e);
        },
    };
    if num_coders == 0 || num_coders > MAX_CODERS {
        return Err(malformed_header());
    }
    let (coders, a2) = match read_coders(bytes, a1, num_coders as usize) {
        Ok(r) => r,
        Err(e) => {
            return Err(e);
        },
    };
    let (ins, outs) = count_streams(&coders);
    if outs == 0 {
        return Err(malformed_header());
    }
    let (bind_pairs, a3) = match read_bind_pairs(bytes, a2, outs - 1) {
        Ok(r) => r,
        Err(e) => {
            return Err(e);
        },
    };
    if ins < bind_pairs.len() {
        return Err(malformed_header());
    }
    let num_packed: usize = ins - bind_pairs.len();
    let mut packed_streams: Vec<u64> = Vec::new();
    let mut end: usize = a3;
    if num_packed == 1 {
        match find_free_in(&bind_pairs, ins) {
            Some(index) => {
                packed_streams.push(index);
                assert(packed_streams@ =~= seq![index]);
            },
            None => {
                return Err(malformed_header());
            },
        }
    } else {
        let (indices, b1) = match read_nums(bytes, a3, num_packed) {
            Ok(r) => r,
            Err(e) => {
                return Err(e);
            },
        };
        packed_streams = indices;
        end = b1;
    }
    let block = Block {
        coders,
        bind_pairs,
        packed_streams,
        unpack_sizes: Vec::new(),
        crc: None,
        substream_sizes: Vec::new(),
        substream_crcs: Vec::new(),
    };
    proof {
        assert(block@.coders =~= coder_views(block.coders@));
    }
    Ok((block, end))
}

/// Whether the coders of each of `blocks` are as few, and have as few streams, as
/// the format allows.
pub open spec fn coders_bounded(blocks: Seq<Block>) -> bool {
    forall|b: int|
        0 <= b < blocks.len() ==> {
            &&& (#[trigger] blocks[b]).coders@.len() <= MAX_CODERS
            &&& forall|i: int|
                0 <= i < blocks[b].coders@.len() ==> (#[trigger] blocks[b].coders@[i]).num_in_streams
                    <= MAX_CODERS && blocks[b].coders@[i].num_out_streams <= MAX_CODERS
        }
}

/// Reads the pipelines of the `count` blocks from `at` on.
pub fn read_folders(bytes: &[u8], at: usize, count: usize) -> (read: Result<
    (Vec<Block>, usize),
    Error,
>)
    ensures
        match p_folders(bytes@, at as int, count as nat) {
            Ok((blocks, next)) => {
                &&& read matches Ok((got, end))
                &&& block_views(got@, got@.len() as int) == blocks
                &&& got@.len() == count
                &&& end == next
                &&& at <= end <= bytes.len()
                &&& coders_bounded(got@)
            },
            Err(e) => read matches Err(got) && got == e,
        },
{
    if at > bytes.len() {
        proof {
            lemma_p_folders_fails_on(bytes@, at as int, 0, count as nat);
        }
        return Err(malformed_header());
    }
    let mut blocks: Vec<Block> = Vec::new();
    let mut pos: usize = at;
    let mut i: usize = 0;
    assert(block_views(blocks@, 0) =~= Seq::<BlockView>::empty());
    while i < count
        invariant
            i <= count,
            blocks@.len() == i,
            at <= pos <= bytes.len(),
            p_folders(bytes@, at as int, i as nat) == Ok::<(Seq<BlockView>, int), Error>(
                (block_views(blocks@, blocks@.len() as int), pos as int),
            ),
            coders_bounded(blocks@),
        decreases count - i,
    {
        match read_folder(bytes, pos) {
            Ok((block, next)) => {
                let ghost before = block_views(blocks@, blocks@.len() as int);
                let ghost had = blocks@;
                blocks.push(block);
                pos = next;
                assert(block_views(blocks@, blocks@.len() as int) =~= before.push(block@));
                assert forall|b: int| 0 <= b < blocks@.len() implies {
                    &&& (#[trigger] blocks@[b]).coders@.len() <= MAX_CODERS
                    &&& forall|k: int|
                        0 <= k < blocks@[b].coders@.len() ==> (
                        #[trigger] blocks@[b].coders@[k]).num_in_streams <= MAX_CODERS
                            && blocks@[b].coders@[k].num_out_streams <= MAX_CODERS
                } by {
                    if b < had.len() {
                        assert(blocks@[b] == had[b]);
                    }
                }
            },
            Err(e) => {
                proof {
                    lemma_p_folders_fails_on(bytes@, at as int, (i + 1) as nat, count as nat);
                }
                return Err(e);
            },
        }
        i += 1;
    }
    Ok((blocks, pos))
}

/// Reads the sizes of the output streams of each of `blocks` from `at` on and puts
/// them into the blocks. Where reading fails, some blocks may have got their sizes.
pub fn read_unpack_sizes(bytes: &[u8], at: usize, blocks: &mut Vec<Block>) -> (read: Result<
    usize,
    Error,
>)
    requires
        coders_bounded(old(blocks)@),
    ensures
        final(blocks)@.len() == old(blocks)@.len(),
        match p_unpack_sizes(
            bytes@,
            at as int,
            block_views(old(blocks)@, old(blocks)@.len() as int),
            old(blocks)@.len(),
        ) {
            Ok((sized, next)) => {
                &&& read matches Ok(end)
                &&& block_views(final(blocks)@, final(blocks)@.len() as int) == sized
                &&& end == next
                &&& at <= end <= bytes.len()
            },
            Err(e) => read matches Err(got) && got == e,
        },
{
    let ghost views = block_views(blocks@, blocks@.len() as int);
    let count: usize = blocks.len();
    if at > bytes.len() {
        proof {
            lemma_p_unpack_sizes_fails_on(bytes@, at as int, views, 0, count as nat);
        }
        return Err(malformed_header());
    }
    let mut pos: usize = at;
    let mut i: usize = 0;
    assert(block_views(blocks@, 0) =~= Seq::<BlockView>::empty());
    while i < count
        invariant
            i <= count == blocks@.len(),
            blocks@.len() == old(blocks)@.len(),
            at <= pos <= bytes.len(),
            views == block_views(old(blocks)@, old(blocks)@.len() as int),
            coders_bounded(old(blocks)@),
            forall|k: int| i <= k < count ==> blocks@[k] == old(blocks)@[k],
            p_unpack_sizes(bytes@, at as int, views, i as nat) == Ok::<
                (Seq<BlockView>, int),
                Error,
            >((block_views(blocks@, i as int), pos as int)),
        decreases count - i,
    {
        assert(views[i as int] == blocks@[i as int]@);
        assert(blocks@[i as int]@.coders =~= coder_views(blocks@[i as int].coders@));
        let (_, outs) = count_streams(&blocks[i].coders);
        match read_nums(bytes, pos, outs) {
            Ok((unpack_sizes, next)) => {
                let ghost before = blocks@;
                let ghost sized = block_views(blocks@, i as int);
                blocks[i].unpack_sizes = unpack_sizes;
                pos = next;
                proof {
                    assert(blocks@[i as int]@ == (BlockView {
                        unpack_sizes: unpack_sizes@,
                        ..views[i as int]
                    }));
                    assert(block_views(blocks@, i + 1) =~= sized.push(blocks@[i as int]@)) by {
                        assert forall|k: int| 0 <= k < i implies block_views(blocks@, i + 1)[k]
                            == sized[k] by {
                            assert(blocks@[k] == before[k]);
                        }
                    }
                }
            },
            Err(e) => {
                proof {
                    lemma_p_unpack_sizes_fails_on(
                        bytes@,
                        at as int,
                        views,
                        (i + 1) as nat,
                        count as nat,
                    );
                }
                return Err(e);
            },
        }
        i += 1;
    }
    Ok(pos)
}

/// Puts the CRC that `crcs` has for it into each of `blocks`.
pub fn set_block_crcs(blocks: &mut Vec<Block>, crcs: &Vec<Option<u32>>)
    requires
        crcs@.len() == old(blocks)@.len(),
    ensures
        final(blocks)@.len() == old(blocks)@.len(),
        block_views(final(blocks)@, final(blocks)@.len() as int) == with_crcs(
            block_views(old(blocks)@, old(blocks)@.len() as int),
            crcs@,
        ),
{
    let count: usize = blocks.len();
    let mut i: usize = 0;
    while i < count
        invariant
            i <= count == blocks@.len(),
            blocks@.len() == old(blocks)@.len(),
            crcs@.len() == count,
            forall|k: int| i <= k < count ==> blocks@[k] == old(blocks)@[k],
            forall|k: int|
                0 <= k < i ==> (#[trigger] blocks@[k])@ == (BlockView {
                    crc: crcs@[k],
                    ..old(blocks)@[k]@
                }),
        decreases count - i,
    {
        let ghost before = blocks@;
        blocks[i].crc = crcs[i];
        proof {
            assert forall|k: int| 0 <= k < i + 1 implies (#[trigger] blocks@[k])@ == (BlockView {
                crc: crcs@[k],
                ..old(blocks)@[k]@
            }) by {
                if k < i {
                    assert(blocks@[k] == before[k]);
                }
            }
        }
        i += 1;
    }
    assert(block_views(blocks@, blocks@.len() as int) =~= with_crcs(
        block_views(old(blocks)@, old(blocks)@.len() as int),
        crcs@,
    ));
}

/// Reads the blocks: their pipelines, the sizes of their streams and their CRCs.
pub fn read_unpack_info(bytes: &[u8], at: usize) -> (read: Result<(Vec<Block>, usize), Error>)
    ensures
        match p_unpack_info(bytes@, at as int) {
            Ok((blocks, next)) => {
                &&& read matches Ok((got, end))
                &&& block_views(got@, got@.len() as int) == blocks
                &&& end == next
                &&& at < end <= bytes.len()
                &&& coders_bounded(got@)
            },
            Err(e) => read matches Err(got) && got == e,
        },
{
    let a1 = match read_expect(bytes, at, K_FOLDER) {
        Ok(r) => r,
        Err(e) => {
            return Err(e);
        },
    };
    let (count, a2) = match read_count(bytes, a1) {
        Ok(r) => r,
        Err(e) => {
            return Err(e);
        },
    };
    let (is_external, a3) = match read_byte(bytes, a2) {
        Ok(r) => r,
        Err(e) => {
            return Err(e);
        },
    };
    if is_external != 0 {
        return Err(Error::UnsupportedFeature("External header data"));
    }
    let (mut blocks, a4) = match read_folders(bytes, a3, count) {
        Ok(r) => r,
        Err(e) => {
            return Err(e);
        },
    };
    let a5 = match read_expect(bytes, a4, K_CODERS_UNPACK_SIZE) {
        Ok(r) => r,
        Err(e) => {
            return Err(e);
        },
    };
    let ghost folders = blocks@;
    let a6 = match read_unpack_sizes(bytes, a5, &mut blocks) {
        Ok(r) => r,
        Err(e) => {
            return Err(e);
        },
    };
    let ghost sized = blocks@;
    let (crcs, end) = match read_crcs_to_end(bytes, a6, count) {
        Ok(r) => r,
        Err(e) => {
            return Err(e);
        },
    };
    set_block_crcs(&mut blocks, &crcs);
    proof {
        assert(coders_bounded(blocks@)) by {
            assert forall|b: int| 0 <= b < blocks@.len() implies {
                &&& (#[trigger] blocks@[b]).coders@.len() <= MAX_CODERS
                &&& forall|i: int|
                    0 <= i < blocks@[b].coders@.len() ==> (
                    #[trigger] blocks@[b].coders@[i]).num_in_streams <= MAX_CODERS
                        && blocks@[b].coders@[i].num_out_streams <= MAX_CODERS
            } by {
                lemma_same_coders(folders, sized, blocks@, b);
            }
        }
    }
    Ok((blocks, end))
}

/// Blocks that got sizes and CRCs have the coders they had.
proof fn lemma_same_coders(folders: Seq<Block>, sized: Seq<Block>, blocks: Seq<Block>, b: int)
    requires
        0 <= b < folders.len() == sized.len() == blocks.len(),
        coders_bounded(folders),
        exists|bytes: Seq<u8>, at: int, end: int|
            p_unpack_sizes(bytes, at, block_views(folders, folders.len() as int), folders.len())
                == Ok::<(Seq<BlockView>, int), Error>(
                (block_views(sized, sized.len() as int), end),
            ),
        exists|crcs: Seq<Option<u32>>|
            block_views(blocks, blocks.len() as int) == with_crcs(
                block_views(sized, sized.len() as int),
                crcs,
            ),
    ensures
        blocks[b].coders@.len() <= MAX_CODERS,
        forall|i: int|
            0 <= i < blocks[b].coders@.len() ==> (#[trigger] blocks[b].coders@[i]).num_in_streams
                <= MAX_CODERS && blocks[b].coders@[i].num_out_streams <= MAX_CODERS,
{
    let (bytes, at, end) = choose|bytes: Seq<u8>, at: int, end: int|
        p_unpack_sizes(bytes, at, block_views(folders, folders.len() as int), folders.len())
            == Ok::<(Seq<BlockView>, int), Error>((block_views(sized, sized.len() as int), end));
    lemma_unpack_sizes_keeps_coders(
        bytes,
        at,
        block_views(folders, folders.len() as int),
        folders.len(),
        b,
    );
    let crcs = choose|crcs: Seq<Option<u32>>|
        block_views(blocks, blocks.len() as int) == with_crcs(
            block_views(sized, sized.len() as int),
            crcs,
        );
    let fv = block_views(folders, folders.len() as int);
    let sv = block_views(sized, sized.len() as int);
    let bv = block_views(blocks, blocks.len() as int);
    assert(bv[b] == blocks[b]@);
    assert(sv[b] == sized[b]@);
    assert(fv[b] == folders[b]@);
    assert(bv[b].coders == sv[b].coders);
    assert(sv[b].coders == fv[b].coders);
    assert(blocks[b]@.coders.len() == blocks[b].coders@.len());
    assert(folders[b]@.coders.len() == folders[b].coders@.len());
    assert forall|i: int| 0 <= i < blocks[b].coders@.len() implies (
    #[trigger] blocks[b].coders@[i]).num_in_streams <= MAX_CODERS && blocks[b].coders@[i].num_out_streams
        <= MAX_CODERS by {
        assert(blocks[b]@.coders[i] == blocks[b].coders@[i]@);
        assert(folders[b]@.coders[i] == folders[b].coders@[i]@);
        assert(folders[b].coders@[i].num_in_streams <= MAX_CODERS);
    }
}

/// Blocks that got their sizes have the coders they had.
pub proof fn lemma_unpack_sizes_keeps_coders(
    bytes: Seq<u8>,
    at: int,
    blocks: Seq<BlockView>,
    count: nat,
    b: int,
)
    requires
        p_unpack_sizes(bytes, at, blocks, count) is Ok,
        0 <= b < count,
    ensures
        p_unpack_sizes(bytes, at, blocks, count) matches Ok((sized, _)) && sized.len() == count
            && sized[b].coders == blocks[b].coders,
    decreases count,
{
    if count > 0 {
        if b < count - 1 {
            lemma_unpack_sizes_keeps_coders(bytes, at, blocks, (count - 1) as nat, b);
        } else {
            lemma_unpack_sizes_len(bytes, at, blocks, (count - 1) as nat);
        }
    }
}

/// As many blocks get their sizes as are asked for.
pub proof fn lemma_unpack_sizes_len(bytes: Seq<u8>, at: int, blocks: Seq<BlockView>, count: nat)
    ensures
        p_unpack_sizes(bytes, at, blocks, count) matches Ok((sized, _)) ==> sized.len() == count,
    decreases count,
{
    if count > 0 {
        lemma_unpack_sizes_len(bytes, at, blocks, (count - 1) as nat);
    }
}

/// Whether a bind pair takes the output stream `index`.
fn is_taken(pairs: &Vec<BindPair>, index: u64) -> (taken: bool)
    ensures
        taken == takes_out(pairs@, index as int),
{
    let mut k: usize = 0;
    while k < pairs.len()
        invariant
            k <= pairs.len(),
            forall|j: int| 0 <= j < k ==> pairs@[j].out_index != index,
        decreases pairs.len() - k,
    {
        if pairs[k].out_index == index {
            return true;
        }
        k += 1;
    }
    false
}

/// The size of the output of `block`: that of its first output stream that no bind
/// pair takes.
pub fn block_output_size(block: &Block) -> (size: Option<u64>)
    ensures
        size == output_size(block@),
{
    let total: usize = block.unpack_sizes.len();
    let mut i: usize = 0;
    while i < total
        invariant
            i <= total == block.unpack_sizes@.len(),
            free_out_from(block@.bind_pairs, 0, total as nat) == free_out_from(
                block@.bind_pairs,
                i as nat,
                total as nat,
            ),
        decreases total - i,
    {
        if !is_taken(&block.bind_pairs, i as u64) {
            return Some(block.unpack_sizes[i]);
        }
        i += 1;
    }
    None
}

/// The numbers `values` added up, where the sum is no more than `limit`.
pub fn sum_within(values: &Vec<u64>, limit: usize) -> (total: Option<usize>)
    ensures
        sum(values@) <= limit ==> total == Some(sum(values@) as usize),
        sum(values@) > limit ==> total is None,
{
    let mut total: usize = 0;
    let mut i: usize = 0;
    while i < values.len()
        invariant
            i <= values.len(),
            total == sum(values@.take(i as int)),
            total <= limit,
        decreases values.len() - i,
    {
        assert(values@.take(i + 1).drop_last() =~= values@.take(i as int));
        if values[i] > (limit - total) as u64 {
            proof {
                lemma_sum_grows(values@, i + 1);
            }
            return None;
        }
        total = total + values[i] as usize;
        i += 1;
    }
    assert(values@.take(values.len() as int) =~= values@);
    Some(total)
}

/// No number is more than the sum of all.
proof fn lemma_sum_at_least(values: Seq<u64>, index: int)
    requires
        0 <= index < values.len(),
    ensures
        values[index] <= sum(values),
    decreases values.len(),
{
    if index < values.len() - 1 {
        lemma_sum_at_least(values.drop_last(), index);
    }
}

/// Works out the division of the output of `block` among `n` files: the sizes of
/// all files but the last stand in `sizes` from `size_from` on, the CRCs in `crcs`
/// from `crc_from` on.
fn divide_block(
    block: &Block,
    n: u64,
    sizes: &Vec<u64>,
    size_from: usize,
    crcs: &Vec<Option<u32>>,
    crc_from: usize,
) -> (done: Result<(Vec<u64>, Vec<Option<u32>>), Error>)
    requires
        0 < n <= usize::MAX,
        size_from + n - 1 <= sizes@.len(),
        !(n == 1 && block.crc is Some) ==> crc_from + n <= crcs@.len(),
    ensures
        match divided_block(
            block@,
            n,
            sizes@.subrange(size_from as int, size_from + n - 1),
            crcs@.subrange(crc_from as int, crc_from + n),
        ) {
            Ok(view) => done matches Ok((file_sizes, file_crcs)) && view == (BlockView {
                substream_sizes: file_sizes@,
                substream_crcs: file_crcs@,
                ..block@
            }),
            Err(e) => done matches Err(got) && got == e,
        },
{
    let output: u64 = match block_output_size(block) {
        Some(o) => o,
        None => {
            return Err(malformed_header());
        },
    };
    let stated_len: usize = (n - 1) as usize;
    let sizes_len: usize = sizes.len();
    let crcs_len: usize = crcs.len();
    let ghost stated = sizes@.subrange(size_from as int, size_from + stated_len);
    let mut file_sizes: Vec<u64> = Vec::new();
    let mut total: u64 = 0;
    let mut k: usize = 0;
    assert(stated.take(0) =~= Seq::<u64>::empty());
    while k < stated_len
        invariant
            k <= stated_len,
            size_from + stated_len <= sizes_len == sizes@.len(),
            stated == sizes@.subrange(size_from as int, size_from + stated_len),
            file_sizes@ == stated.take(k as int),
            total == sum(stated.take(k as int)),
            total <= output,
            0 < n <= usize::MAX,
            stated_len == n - 1,
            output_size(block@) == Some(output),
        decreases stated_len - k,
    {
        let size: u64 = sizes[size_from + k];
        assert(stated.take(k + 1).drop_last() =~= stated.take(k as int));
        assert(stated.take(k + 1).last() == size);
        if size > output - total {
            proof {
                lemma_sum_grows(stated, k + 1);
            }
            return Err(malformed_header());
        }
        total = total + size;
        file_sizes.push(size);
        assert(file_sizes@ =~= stated.take(k + 1));
        k += 1;
    }
    assert(stated.take(stated_len as int) =~= stated);
    file_sizes.push(output - total);
    let mut file_crcs: Vec<Option<u32>> = Vec::new();
    if n == 1 && block.crc.is_some() {
        file_crcs.push(block.crc);
        assert(file_crcs@ =~= seq![block.crc]);
    } else {
        let mut c: usize = 0;
        while c < n as usize
            invariant
                c <= n <= usize::MAX,
                crc_from + n <= crcs_len == crcs@.len(),
                file_crcs@ == crcs@.subrange(crc_from as int, crc_from + c),
            decreases n - c,
        {
            file_crcs.push(crcs[crc_from + c]);
            assert(file_crcs@ =~= crcs@.subrange(crc_from as int, crc_from + c + 1));
            c += 1;
        }
    }
    Ok((file_sizes, file_crcs))
}

/// Puts the division of its output among its files into each of `blocks`, as
/// `counts`, `sizes` and `crcs` state it. Where a division is refused, some blocks
/// may have got theirs.
#[verifier::rlimit(60)]
pub fn divide(
    blocks: &mut Vec<Block>,
    counts: &Vec<u64>,
    sizes: &Vec<u64>,
    crcs: &Vec<Option<u32>>,
) -> (done: Result<(), Error>)
    requires
        counts@.len() == old(blocks)@.len(),
        sizes@.len() == stated_count(counts@),
        crcs@.len() == unknown_crcs(
            block_views(old(blocks)@, old(blocks)@.len() as int),
            counts@,
            counts@.len(),
        ),
        sum(counts@) <= usize::MAX,
    ensures
        final(blocks)@.len() == old(blocks)@.len(),
        forall|b: int|
            0 <= b < old(blocks)@.len() ==> (#[trigger] final(blocks)@[b]).coders == old(blocks)@[b].coders,
        match divided(
            block_views(old(blocks)@, old(blocks)@.len() as int),
            counts@,
            sizes@,
            crcs@,
            old(blocks)@.len(),
        ) {
            Ok(views) => done is Ok && block_views(final(blocks)@, final(blocks)@.len() as int)
                == views,
            Err(e) => done matches Err(got) && got == e,
        },
{
    let ghost views = block_views(blocks@, blocks@.len() as int);
    let count: usize = blocks.len();
    let mut size_from: usize = 0;
    let mut crc_from: usize = 0;
    let mut b: usize = 0;
    proof {
        assert(block_views(blocks@, 0) =~= Seq::<BlockView>::empty());
        assert(counts@.take(0) =~= Seq::<u64>::empty());
    }
    while b < count
        invariant
            b <= count == blocks@.len() == counts@.len(),
            blocks@.len() == old(blocks)@.len(),
            views == block_views(old(blocks)@, old(blocks)@.len() as int),
            sizes@.len() == stated_count(counts@),
            crcs@.len() == unknown_crcs(views, counts@, counts@.len()),
            sum(counts@) <= usize::MAX,
            size_from == stated_count(counts@.take(b as int)),
            crc_from == unknown_crcs(views, counts@, b as nat),
            forall|k: int| b <= k < count ==> blocks@[k] == old(blocks)@[k],
            forall|k: int|
                0 <= k < count ==> (#[trigger] blocks@[k]).coders == old(blocks)@[k].coders,
            divided(views, counts@, sizes@, crcs@, b as nat) == Ok::<Seq<BlockView>, Error>(
                block_views(blocks@, b as int),
            ),
        decreases count - b,
    {
        let n: u64 = counts[b];
        let ghost before = blocks@;
        let ghost done_views = block_views(blocks@, b as int);
        proof {
            lemma_sum_at_least(counts@, b as int);
            assert(views[b as int] == blocks@[b as int]@);
            assert(counts@.take(b + 1).drop_last() =~= counts@.take(b as int));
            lemma_stated_count_grows(counts@, b + 1);
            lemma_unknown_crcs_grows(views, counts@, (b + 1) as nat, count as nat);
            assert(counts@.take(count as int) =~= counts@);
        }
        if n == 0 {
            blocks[b].substream_sizes = Vec::new();
            blocks[b].substream_crcs = Vec::new();
        } else {
            match divide_block(&blocks[b], n, sizes, size_from, crcs, crc_from) {
                Ok((file_sizes, file_crcs)) => {
                    if !(n == 1 && blocks[b].crc.is_some()) {
                        crc_from = crc_from + n as usize;
                    }
                    blocks[b].substream_sizes = file_sizes;
                    blocks[b].substream_crcs = file_crcs;
                    size_from = size_from + (n - 1) as usize;
                },
                Err(e) => {
                    proof {
                        lemma_divided_fails_on(
                            views,
                            counts@,
                            sizes@,
                            crcs@,
                            (b + 1) as nat,
                            count as nat,
                        );
                    }
                    return Err(e);
                },
            }
        }
        proof {
            assert(block_views(blocks@, b + 1) =~= done_views.push(blocks@[b as int]@)) by {
                assert forall|k: int| 0 <= k < b implies block_views(blocks@, b + 1)[k]
                    == done_views[k] by {
                    assert(blocks@[k] == before[k]);
                }
            }
        }
        b += 1;
    }
    Ok(())
}

/// `count` times the number 1.
fn all_ones(count: usize) -> (values: Vec<u64>)
    ensures
        values@ == ones(count as nat),
{
    let mut values: Vec<u64> = Vec::new();
    let mut i: usize = 0;
    while i < count
        invariant
            i <= count,
            values@ == ones(i as nat),
        decreases count - i,
    {
        values.push(1);
        i += 1;
        assert(values@ =~= ones(i as nat));
    }
    values
}

/// The number of file sizes that the header states for blocks of `counts` files.
fn count_stated(counts: &Vec<u64>) -> (stated: usize)
    requires
        sum(counts@) <= usize::MAX,
    ensures
        stated == stated_count(counts@),
{
    let mut stated: usize = 0;
    let mut i: usize = 0;
    while i < counts.len()
        invariant
            i <= counts.len(),
            sum(counts@) <= usize::MAX,
            stated == stated_count(counts@.take(i as int)),
        decreases counts.len() - i,
    {
        proof {
            assert(counts@.take(i + 1).drop_last() =~= counts@.take(i as int));
            lemma_stated_count_grows(counts@, i + 1);
        }
        if counts[i] > 0 {
            stated = stated + (counts[i] - 1) as usize;
        }
        i += 1;
    }
    assert(counts@.take(counts.len() as int) =~= counts@);
    stated
}

/// The number of CRCs that the header states for the files of `blocks`.
fn count_unknown(blocks: &Vec<Block>, counts: &Vec<u64>) -> (unknown: usize)
    requires
        counts@.len() == blocks@.len(),
        sum(counts@) <= usize::MAX,
    ensures
        unknown == unknown_crcs(block_views(blocks@, blocks@.len() as int), counts@, counts@.len()),
{
    let ghost views = block_views(blocks@, blocks@.len() as int);
    let mut unknown: usize = 0;
    let mut i: usize = 0;
    while i < counts.len()
        invariant
            i <= counts.len() == blocks@.len(),
            sum(counts@) <= usize::MAX,
            views == block_views(blocks@, blocks@.len() as int),
            unknown == unknown_crcs(views, counts@, i as nat),
        decreases counts.len() - i,
    {
        proof {
            lemma_unknown_crcs_grows(views, counts@, (i + 1) as nat, counts@.len());
            assert(counts@.take(counts@.len() as int) =~= counts@);
            assert(views[i as int] == blocks@[i as int]@);
        }
        if !(counts[i] == 1 && blocks[i].crc.is_some()) {
            unknown = unknown + counts[i] as usize;
        }
        i += 1;
    }
    unknown
}

/// Reads how the output of each of `blocks` is divided among its files, and puts
/// the division into the blocks. Where reading fails, some blocks may have got
/// theirs.
#[verifier::rlimit(40)]
pub fn read_sub_streams(bytes: &[u8], at: usize, blocks: &mut Vec<Block>) -> (read: Result<
    usize,
    Error,
>)
    ensures
        final(blocks)@.len() == old(blocks)@.len(),
        forall|b: int|
            0 <= b < old(blocks)@.len() ==> (#[trigger] final(blocks)@[b]).coders == old(blocks)@[b].coders,
        match p_sub_streams(
            bytes@,
            at as int,
            block_views(old(blocks)@, old(blocks)@.len() as int),
        ) {
            Ok((views, next)) => {
                &&& read matches Ok(end)
                &&& block_views(final(blocks)@, final(blocks)@.len() as int) == views
                &&& end == next
                &&& at < end <= bytes.len()
            },
            Err(e) => read matches Err(got) && got == e,
        },
{
    let mut pos: usize = at;
    let counts: Vec<u64> = if peek(bytes, pos, K_NUM_UNPACK_STREAM) {
        let (counts, behind) = match read_nums(bytes, pos + 1, blocks.len()) {
            Ok(r) => r,
            Err(e) => {
                return Err(e);
            },
        };
        proof {
            lemma_p_nums_range(bytes@, at + 1, blocks@.len());
        }
        pos = behind;
        counts
    } else {
        all_ones(blocks.len())
    };
    if sum_within(&counts, bytes.len()).is_none() {
        return Err(malformed_header());
    }
    let stated: usize = count_stated(&counts);
    let sizes: Vec<u64> = if peek(bytes, pos, K_SIZE) {
        let (sizes, behind) = match read_nums(bytes, pos + 1, stated) {
            Ok(r) => r,
            Err(e) => {
                return Err(e);
            },
        };
        proof {
            lemma_p_nums_range(bytes@, pos + 1, stated as nat);
        }
        pos = behind;
        sizes
    } else if stated > 0 {
        return Err(malformed_header());
    } else {
        Vec::new()
    };
    let unknown: usize = count_unknown(blocks, &counts);
    let (crcs, end) = match read_crcs_to_end(bytes, pos, unknown) {
        Ok(r) => r,
        Err(e) => {
            return Err(e);
        },
    };
    match divide(blocks, &counts, &sizes, &crcs) {
        Ok(()) => Ok(end),
        Err(e) => Err(e),
    }
}

/// Whether the byte at `at` is `id`.
pub fn peek(bytes: &[u8], at: usize, id: u8) -> (is: bool)
    ensures
        is == peek_is(bytes@, at as int, id),
{
    at < bytes.len() && bytes[at] == id
}

/// The streams of an archive: where its pack streams lie, and its blocks.
pub struct Streams {
    pub pack_pos: u64,
    pub pack_sizes: Vec<u64>,
    pub pack_crcs: Vec<Option<u32>>,
    pub blocks: Vec<Block>,
}

impl View for Streams {
    type V = StreamsView;

    open spec fn view(&self) -> StreamsView {
        StreamsView {
            pack_pos: self.pack_pos,
            pack_sizes: self.pack_sizes@,
            pack_crcs: self.pack_crcs@,
            blocks: block_views(self.blocks@, self.blocks@.len() as int),
        }
    }
}

/// Reads the pack streams, the blocks and the division of their output.
pub fn read_streams_info(bytes: &[u8], at: usize) -> (read: Result<(Streams, usize), Error>)
    ensures
        match p_streams_info(bytes@, at as int) {
            Ok((streams, next)) => {
                &&& read matches Ok((got, end))
                &&& got@ == streams
                &&& end == next
                &&& at < end <= bytes.len()
                &&& got.pack_sizes@.len() == got.pack_crcs@.len()
            },
            Err(e) => read matches Err(got) && got == e,
        },
{
    let mut pos: usize = at;
    let mut pack_pos: u64 = 0;
    let mut pack_sizes: Vec<u64> = Vec::new();
    let mut pack_crcs: Vec<Option<u32>> = Vec::new();
    if peek(bytes, pos, K_PACK_INFO) {
        let ((got_pos, sizes, crcs), behind) = match read_pack_info(bytes, pos + 1) {
            Ok(r) => r,
            Err(e) => {
                return Err(e);
            },
        };
        pack_pos = got_pos;
        pack_sizes = sizes;
        pack_crcs = crcs;
        pos = behind;
    }
    let mut blocks: Vec<Block> = Vec::new();
    assert(block_views(blocks@, 0) =~= Seq::<BlockView>::empty());
    if peek(bytes, pos, K_UNPACK_INFO) {
        assert(pos < bytes.len());
        let (got, behind) = match read_unpack_info(bytes, pos + 1) {
            Ok(r) => r,
            Err(e) => {
                return Err(e);
            },
        };
        blocks = got;
        pos = behind;
    }
    if peek(bytes, pos, K_SUB_STREAMS_INFO) {
        assert(pos < bytes.len());
        let behind = match read_sub_streams(bytes, pos + 1, &mut blocks) {
            Ok(r) => r,
            Err(e) => {
                return Err(e);
            },
        };
        pos = behind;
    } else {
        let counts = all_ones(blocks.len());
        let sizes: Vec<u64> = Vec::new();
        proof {
            lemma_ones(blocks@.len());
        }
        let unknown: usize = count_unknown(&blocks, &counts);
        let crcs = no_crcs(unknown);
        match divide(&mut blocks, &counts, &sizes, &crcs) {
            Ok(()) => {},
            Err(e) => {
                return Err(e);
            },
        }
    }
    let end = match read_expect(bytes, pos, K_END) {
        Ok(r) => r,
        Err(e) => {
            return Err(e);
        },
    };
    Ok((Streams { pack_pos, pack_sizes, pack_crcs, blocks }, end))
}

/// Blocks of one file each have as many files as there are blocks, and the header
/// states no size for them.
pub proof fn lemma_ones(count: nat)
    ensures
        sum(ones(count)) == count,
        stated_count(ones(count)) == 0,
    decreases count,
{
    if count > 0 {
        lemma_ones((count - 1) as nat);
        assert(ones(count).drop_last() =~= ones((count - 1) as nat));
    }
}

/// Reads the name at `at`.
pub fn read_name(data: &[u8], at: usize) -> (read: Result<(Vec<u16>, usize), Error>)
    ensures
        match p_name(data@, at as int) {
            Ok((name, next)) => read matches Ok((got, end)) && got@ == name && end == next && at
                < end <= data.len(),
            Err(e) => read matches Err(got) && got == e,
        },
{
    let mut name: Vec<u16> = Vec::new();
    let mut pos: usize = at;
    proof {
        lemma_p_name_range(data@, at as int);
    }
    loop
        invariant
            at <= pos,
            p_name(data@, at as int) == (match p_name(data@, pos as int) {
                Ok((rest, end)) => Ok::<(Seq<u16>, int), Error>((name@ + rest, end)),
                Err(e) => Err::<(Seq<u16>, int), Error>(e),
            }),
            p_name(data@, at as int) matches Ok((_, end)) ==> at < end <= data.len(),
        decreases data.len() - pos,
    {
        if pos > data.len() || data.len() - pos < 2 {
            return Err(malformed_header());
        }
        let low: u8 = data[pos];
        let high: u8 = data[pos + 1];
        if low == 0 && high == 0 {
            assert(name@ + Seq::<u16>::empty() =~= name@);
            return Ok((name, pos + 2));
        }
        let ghost before = name@;
        name.push(low as u16 + 256 * (high as u16));
        proof {
            match p_name(data@, pos + 2) {
                Ok((rest, end)) => {
                    assert(before + (seq![(low + 256 * high) as u16] + rest) =~= name@ + rest);
                },
                Err(_) => {},
            }
        }
        pos = pos + 2;
    }
}

/// The views of `names`.
pub open spec fn name_views(names: Seq<Vec<u16>>) -> Seq<Seq<u16>> {
    Seq::new(names.len(), |i: int| names[i]@)
}

/// Reads the `count` names from `at` on.
pub fn read_names(data: &[u8], at: usize, count: usize) -> (read: Result<
    (Vec<Vec<u16>>, usize),
    Error,
>)
    ensures
        match p_names(data@, at as int, count as nat) {
            Ok((names, next)) => read matches Ok((got, end)) && name_views(got@) == names
                && got@.len() == count && end == next && at <= end <= data.len(),
            Err(e) => read matches Err(got) && got == e,
        },
{
    if at > data.len() {
        proof {
            lemma_p_names_fails_on(data@, at as int, 0, count as nat);
        }
        return Err(malformed_header());
    }
    let mut names: Vec<Vec<u16>> = Vec::new();
    let mut pos: usize = at;
    let mut i: usize = 0;
    assert(name_views(names@) =~= Seq::<Seq<u16>>::empty());
    while i < count
        invariant
            i <= count,
            names@.len() == i,
            at <= pos <= data.len(),
            p_names(data@, at as int, i as nat) == Ok::<(Seq<Seq<u16>>, int), Error>(
                (name_views(names@), pos as int),
            ),
        decreases count - i,
    {
        match read_name(data, pos) {
            Ok((name, next)) => {
                let ghost before = name_views(names@);
                names.push(name);
                pos = next;
                assert(name_views(names@) =~= before.push(name@));
            },
            Err(e) => {
                proof {
                    lemma_p_names_fails_on(data@, at as int, (i + 1) as nat, count as nat);
                }
                return Err(e);
            },
        }
        i += 1;
    }
    Ok((names, pos))
}

/// Reads the names of `count` files from the data of their property.
pub fn read_names_data(data: &[u8], count: usize) -> (read: Result<Vec<Vec<u16>>, Error>)
    ensures
        match p_names_data(data@, count as nat) {
            Ok(names) => read matches Ok(got) && name_views(got@) == names && got@.len() == count,
            Err(e) => read matches Err(got) && got == e,
        },
{
    let (is_external, next) = match read_byte(data, 0) {
        Ok(r) => r,
        Err(e) => {
            return Err(e);
        },
    };
    if is_external != 0 {
        return Err(Error::UnsupportedFeature("External header data"));
    }
    let (names, end) = match read_names(data, next, count) {
        Ok(r) => r,
        Err(e) => {
            return Err(e);
        },
    };
    if end != data.len() {
        return Err(malformed_header());
    }
    Ok(names)
}

/// Reads a column of `count` values of `width` bytes from the data of its property;
/// `width` is 4 or 8.
pub fn read_column_data(data: &[u8], count: usize, width: usize) -> (read: Result<
    Vec<Option<u64>>,
    Error,
>)
    requires
        width == 4 || width == 8,
    ensures
        match p_column_data(data@, count as nat, width as nat) {
            Ok(values) => read matches Ok(got) && got@ == values && got@.len() == count,
            Err(e) => read matches Err(got) && got == e,
        },
{
    let (defined, a1) = match read_defined(data, 0, count) {
        Ok(r) => r,
        Err(e) => {
            return Err(e);
        },
    };
    let (is_external, a2) = match read_byte(data, a1) {
        Ok(r) => r,
        Err(e) => {
            return Err(e);
        },
    };
    if is_external != 0 {
        return Err(Error::UnsupportedFeature("External header data"));
    }
    proof {
        lemma_p_values_range(data@, a2 as int, defined@, width as nat, count as nat);
    }
    match read_values(data, a2, defined.as_slice(), width) {
        Ok((values, _)) => Ok(values),
        Err(e) => Err(e),
    }
}

/// Reads a vector of `count` bits from the data of its property.
pub fn read_flags_data(data: &[u8], count: usize) -> (read: Result<Vec<bool>, Error>)
    ensures
        match p_flags_data(data@, count as nat) {
            Ok(bits) => read matches Ok(got) && got@ == bits && got@.len() == count,
            Err(e) => read matches Err(got) && got == e,
        },
{
    match read_bits(data, 0, count) {
        Ok((bits, _)) => {
            assert(data@.skip(0) =~= data@);
            Ok(bits)
        },
        Err(_) => Err(malformed_header()),
    }
}

/// The number of bits of `bits` that are set.
pub fn count_set_bits(bits: &Vec<bool>) -> (set: usize)
    ensures
        set == count_set(bits@),
{
    let mut set: usize = 0;
    let mut i: usize = 0;
    while i < bits.len()
        invariant
            i <= bits.len(),
            set == count_set(bits@.take(i as int)),
            set <= i,
        decreases bits.len() - i,
    {
        assert(bits@.take(i + 1).drop_last() =~= bits@.take(i as int));
        if bits[i] {
            set += 1;
        }
        i += 1;
    }
    assert(bits@.take(bits.len() as int) =~= bits@);
    set
}

/// What the properties of the files say, column by column.
pub struct Columns {
    pub empty_stream: Vec<bool>,
    pub empty_file: Vec<bool>,
    pub anti: Vec<bool>,
    pub names: Vec<Vec<u16>>,
    pub creation: Vec<Option<u64>>,
    pub access: Vec<Option<u64>>,
    pub modified: Vec<Option<u64>>,
    pub attributes: Vec<Option<u64>>,
}

impl View for Columns {
    type V = FileColumns;

    open spec fn view(&self) -> FileColumns {
        FileColumns {
            empty_stream: self.empty_stream@,
            empty_file: self.empty_file@,
            anti: self.anti@,
            names: name_views(self.names@),
            creation: self.creation@,
            access: self.access@,
            modified: self.modified@,
            attributes: self.attributes@,
        }
    }
}

impl Columns {
    /// The columns that say something of every file do so of `count` files.
    pub open spec fn wf(&self, count: nat) -> bool {
        &&& self.empty_stream@.len() == count
        &&& self.names@.len() == count
        &&& self.creation@.len() == count
        &&& self.access@.len() == count
        &&& self.modified@.len() == count
        &&& self.attributes@.len() == count
    }
}

/// `count` missing values.
fn no_values(count: usize) -> (values: Vec<Option<u64>>)
    ensures
        values@ == none_of::<u64>(count as nat),
{
    let mut values: Vec<Option<u64>> = Vec::new();
    let mut i: usize = 0;
    while i < count
        invariant
            i <= count,
            values@ == none_of::<u64>(i as nat),
        decreases count - i,
    {
        values.push(None);
        i += 1;
        assert(values@ =~= none_of::<u64>(i as nat));
    }
    values
}

/// The columns of `count` files of which no property says anything.
pub fn blank(count: usize) -> (columns: Columns)
    ensures
        columns@ == blank_columns(count as nat),
        columns.wf(count as nat),
{
    let mut empty_stream: Vec<bool> = Vec::new();
    let mut names: Vec<Vec<u16>> = Vec::new();
    let mut i: usize = 0;
    while i < count
        invariant
            i <= count,
            empty_stream@ == Seq::new(i as nat, |k: int| false),
            name_views(names@) == Seq::new(i as nat, |k: int| Seq::<u16>::empty()),
            names@.len() == i,
        decreases count - i,
    {
        let ghost before = name_views(names@);
        empty_stream.push(false);
        let name: Vec<u16> = Vec::new();
        names.push(name);
        i += 1;
        assert(empty_stream@ =~= Seq::new(i as nat, |k: int| false));
        assert(name_views(names@) =~= before.push(Seq::<u16>::empty()));
        assert(name_views(names@) =~= Seq::new(i as nat, |k: int| Seq::<u16>::empty()));
    }
    Columns {
        empty_stream,
        empty_file: Vec::new(),
        anti: Vec::new(),
        names,
        creation: no_values(count),
        access: no_values(count),
        modified: no_values(count),
        attributes: no_values(count),
    }
}

/// Takes what the property `id` with the data `data` says of `count` files into the
/// columns.
pub fn apply_property(columns: Columns, id: u8, data: &[u8], count: usize) -> (applied: Result<
    Columns,
    Error,
>)
    requires
        columns.wf(count as nat),
    ensures
        match with_property(columns@, id, data@, count as nat) {
            Ok(next) => applied matches Ok(got) && got@ == next && got.wf(count as nat),
            Err(e) => applied matches Err(got) && got == e,
        },
{
    let mut columns = columns;
    if id == K_EMPTY_STREAM {
        match read_flags_data(data, count) {
            Ok(bits) => {
                columns.empty_stream = bits;
            },
            Err(e) => {
                return Err(e);
            },
        }
    } else if id == K_EMPTY_FILE {
        let set = count_set_bits(&columns.empty_stream);
        match read_flags_data(data, set) {
            Ok(bits) => {
                columns.empty_file = bits;
            },
            Err(e) => {
                return Err(e);
            },
        }
    } else if id == K_ANTI {
        let set = count_set_bits(&columns.empty_stream);
        match read_flags_data(data, set) {
            Ok(bits) => {
                columns.anti = bits;
            },
            Err(e) => {
                return Err(e);
            },
        }
    } else if id == K_NAME {
        match read_names_data(data, count) {
            Ok(names) => {
                columns.names = names;
            },
            Err(e) => {
                return Err(e);
            },
        }
    } else if id == K_C_TIME {
        match read_column_data(data, count, 8) {
            Ok(values) => {
                columns.creation = values;
            },
            Err(e) => {
                return Err(e);
            },
        }
    } else if id == K_A_TIME {
        match read_column_data(data, count, 8) {
            Ok(values) => {
                columns.access = values;
            },
            Err(e) => {
                return Err(e);
            },
        }
    } else if id == K_M_TIME {
        match read_column_data(data, count, 8) {
            Ok(values) => {
                columns.modified = values;
            },
            Err(e) => {
                return Err(e);
            },
        }
    } else if id == K_WIN_ATTRIBUTES {
        match read_column_data(data, count, 4) {
            Ok(values) => {
                columns.attributes = values;
            },
            Err(e) => {
                return Err(e);
            },
        }
    }
    Ok(columns)
}

/// Reads the properties of `count` files from `at` on, up to their end.
pub fn read_properties_of_files(bytes: &[u8], at: usize, count: usize) -> (read: Result<
    (Columns, usize),
    Error,
>)
    ensures
        match p_properties_of_files(bytes@, at as int, count as nat, blank_columns(count as nat)) {
            Ok((columns, next)) => read matches Ok((got, end)) && got@ == columns && got.wf(
                count as nat,
            ) && end == next && at < end <= bytes.len(),
            Err(e) => read matches Err(got) && got == e,
        },
{
    let mut columns = blank(count);
    let mut pos: usize = at;
    let ghost start = blank_columns(count as nat);
    loop
        invariant
            at <= pos,
            columns.wf(count as nat),
            start == blank_columns(count as nat),
            p_properties_of_files(bytes@, at as int, count as nat, start)
                == p_properties_of_files(bytes@, pos as int, count as nat, columns@),
        decreases bytes.len() - pos,
    {
        let (id, a1) = match read_byte(bytes, pos) {
            Ok(r) => r,
            Err(e) => {
                return Err(e);
            },
        };
        if id == K_END {
            return Ok((columns, a1));
        }
        let (size, a2) = match read_num(bytes, a1) {
            Ok(r) => r,
            Err(e) => {
                return Err(e);
            },
        };
        if size > (bytes.len() - a2) as u64 {
            return Err(malformed_header());
        }
        let data = vstd::slice::slice_subrange(bytes, a2, a2 + size as usize);
        match apply_property(columns, id, data, count) {
            Ok(next) => {
                columns = next;
            },
            Err(e) => {
                return Err(e);
            },
        }
        pos = a2 + size as usize;
    }
}

/// Builds the entries that the columns describe.
pub fn build_entries(columns: &Columns, count: usize) -> (entries: Vec<ArchiveEntry>)
    requires
        columns.wf(count as nat),
    ensures
        entry_views(entries@, entries@.len() as int) == Seq::new(
            count as nat,
            |i: int| entry_of(columns@, i),
        ),
        entries@.len() == count,
{
    let streamless: usize = count_set_bits(&columns.empty_stream);
    let has_empty_file: bool = columns.empty_file.len() == streamless;
    let has_anti: bool = columns.anti.len() == streamless;
    let mut entries: Vec<ArchiveEntry> = Vec::new();
    let mut rank: usize = 0;
    let mut i: usize = 0;
    assert(columns.empty_stream@.take(0) =~= Seq::<bool>::empty());
    while i < count
        invariant
            i <= count,
            columns.wf(count as nat),
            streamless == count_set(columns.empty_stream@),
            has_empty_file == (columns.empty_file@.len() == streamless),
            has_anti == (columns.anti@.len() == streamless),
            rank == count_set(columns.empty_stream@.take(i as int)),
            entries@.len() == i,
            forall|k: int| 0 <= k < i ==> (#[trigger] entries@[k])@ == entry_of(columns@, k),
        decreases count - i,
    {
        proof {
            assert(columns.empty_stream@.take(i + 1).drop_last() =~= columns.empty_stream@.take(
                i as int,
            ));
            lemma_count_set_bound(columns.empty_stream@, i + 1);
            assert(columns@.names[i as int] == columns.names@[i as int]@);
        }
        let no_stream: bool = columns.empty_stream[i];
        let empty_file: bool = no_stream && has_empty_file && columns.empty_file[rank];
        let anti: bool = no_stream && has_anti && columns.anti[rank];
        let entry = ArchiveEntry {
            name: columns.names[i].clone(),
            has_stream: !no_stream,
            is_directory: no_stream && !empty_file,
            is_anti_item: anti,
            creation_date: columns.creation[i],
            access_date: columns.access[i],
            last_modified_date: columns.modified[i],
            windows_attributes: match columns.attributes[i] {
                Some(a) => Some(#[verifier::truncate] (a as u32)),
                None => None,
            },
        };
        assert(entry.name@ =~= columns.names@[i as int]@);
        assert(entry@ == entry_of(columns@, i as int));
        entries.push(entry);
        if no_stream {
            rank += 1;
        }
        i += 1;
    }
    assert(entry_views(entries@, entries@.len() as int) =~= Seq::new(
        count as nat,
        |i: int| entry_of(columns@, i),
    ));
    entries
}

/// Reads the entries: their number and their properties.
#[verifier::rlimit(40)]
pub fn read_files_info(bytes: &[u8], at: usize) -> (read: Result<(Vec<ArchiveEntry>, usize), Error>)
    ensures
        match p_files_info(bytes@, at as int) {
            Ok((files, next)) => read matches Ok((got, end)) && entry_views(
                got@,
                got@.len() as int,
            ) == files && end == next && at < end <= bytes.len(),
            Err(e) => read matches Err(got) && got == e,
        },
{
    let (count, a1) = match read_count(bytes, at) {
        Ok(r) => r,
        Err(e) => {
            return Err(e);
        },
    };
    let (columns, end) = match read_properties_of_files(bytes, a1, count) {
        Ok(r) => r,
        Err(e) => {
            return Err(e);
        },
    };
    Ok((build_entries(&columns, count), end))
}

/// Skips the properties of the archive from `at` on, up to their end.
pub fn read_archive_properties(bytes: &[u8], at: usize) -> (read: Result<usize, Error>)
    ensures
        match p_archive_properties(bytes@, at as int) {
            Ok(next) => read == Ok::<usize, Error>(next as usize) && at < next <= bytes.len(),
            Err(e) => read == Err::<usize, Error>(e),
        },
{
    let mut pos: usize = at;
    loop
        invariant
            at <= pos,
            p_archive_properties(bytes@, at as int) == p_archive_properties(bytes@, pos as int),
        decreases bytes.len() - pos,
    {
        let (id, a1) = match read_byte(bytes, pos) {
            Ok(r) => r,
            Err(e) => {
                return Err(e);
            },
        };
        if id == K_END {
            return Ok(a1);
        }
        let (size, a2) = match read_num(bytes, a1) {
            Ok(r) => r,
            Err(e) => {
                return Err(e);
            },
        };
        if size > (bytes.len() - a2) as u64 {
            return Err(malformed_header());
        }
        pos = a2 + size as usize;
    }
}

/// The number of `files` that have a stream.
pub fn count_files_with_stream(files: &Vec<ArchiveEntry>) -> (with_stream: usize)
    ensures
        with_stream == files_with_stream(entry_views(files@, files@.len() as int)),
{
    let ghost views = entry_views(files@, files@.len() as int);
    let mut with_stream: usize = 0;
    let mut i: usize = 0;
    while i < files.len()
        invariant
            i <= files.len(),
            views == entry_views(files@, files@.len() as int),
            with_stream == files_with_stream(views.take(i as int)),
            with_stream <= i,
        decreases files.len() - i,
    {
        assert(views.take(i + 1).drop_last() =~= views.take(i as int));
        assert(views.take(i + 1).last() == files@[i as int]@);
        if files[i].has_stream {
            with_stream += 1;
        }
        i += 1;
    }
    assert(views.take(files.len() as int) =~= views);
    with_stream
}

/// Whether `blocks` hold `expected` files together.
pub fn blocks_hold(blocks: &Vec<Block>, expected: usize) -> (hold: bool)
    ensures
        hold == (files_in_blocks(block_views(blocks@, blocks@.len() as int)) == expected),
{
    let ghost views = block_views(blocks@, blocks@.len() as int);
    let mut total: usize = 0;
    let mut i: usize = 0;
    while i < blocks.len()
        invariant
            i <= blocks.len(),
            views == block_views(blocks@, blocks@.len() as int),
            total == files_in_blocks(views.take(i as int)),
            total <= expected,
        decreases blocks.len() - i,
    {
        assert(views.take(i + 1).drop_last() =~= views.take(i as int));
        assert(views.take(i + 1).last() == blocks@[i as int]@);
        let n: usize = blocks[i].substream_sizes.len();
        if n > expected - total {
            proof {
                lemma_files_in_blocks_grows(views, i + 1);
            }
            return false;
        }
        total = total + n;
        i += 1;
    }
    assert(views.take(blocks.len() as int) =~= views);
    total == expected
}

/// The first blocks hold no more files than all blocks.
pub proof fn lemma_files_in_blocks_grows(blocks: Seq<BlockView>, upto: int)
    requires
        0 <= upto <= blocks.len(),
    ensures
        files_in_blocks(blocks.take(upto)) <= files_in_blocks(blocks),
    decreases blocks.len(),
{
    if upto == blocks.len() {
        assert(blocks.take(upto) =~= blocks);
    } else {
        lemma_files_in_blocks_grows(blocks.drop_last(), upto);
        assert(blocks.drop_last().take(upto) =~= blocks.take(upto));
    }
}

/// Reads the metadata that the end header `bytes` states.
#[verifier::rlimit(40)]
pub fn read_header(bytes: &[u8]) -> (read: Result<Archive, Error>)
    ensures
        match parsed_header(bytes@) {
            Ok(archive) => read matches Ok(got) && got@ == archive,
            Err(e) => read matches Err(got) && got == e,
        },
{
    let a0 = match read_expect(bytes, 0, K_HEADER) {
        Ok(r) => r,
        Err(e) => {
            return Err(e);
        },
    };
    let mut pos: usize = a0;
    if peek(bytes, pos, K_ARCHIVE_PROPERTIES) {
        pos = match read_archive_properties(bytes, pos + 1) {
            Ok(r) => r,
            Err(e) => {
                return Err(e);
            },
        };
    }
    if peek(bytes, pos, K_ADDITIONAL_STREAMS_INFO) {
        return Err(Error::UnsupportedFeature("Additional streams"));
    }
    let mut streams = Streams {
        pack_pos: 0,
        pack_sizes: Vec::new(),
        pack_crcs: Vec::new(),
        blocks: Vec::new(),
    };
    assert(block_views(streams.blocks@, 0) =~= Seq::<BlockView>::empty());
    if peek(bytes, pos, K_MAIN_STREAMS_INFO) {
        let (got, behind) = match read_streams_info(bytes, pos + 1) {
            Ok(r) => r,
            Err(e) => {
                return Err(e);
            },
        };
        streams = got;
        pos = behind;
    }
    let mut files: Vec<ArchiveEntry> = Vec::new();
    assert(entry_views(files@, 0) =~= Seq::<EntryView>::empty());
    if peek(bytes, pos, K_FILES_INFO) {
        let (got, behind) = match read_files_info(bytes, pos + 1) {
            Ok(r) => r,
            Err(e) => {
                return Err(e);
            },
        };
        files = got;
        pos = behind;
    }
    let end = match read_expect(bytes, pos, K_END) {
        Ok(r) => r,
        Err(e) => {
            return Err(e);
        },
    };
    if end != bytes.len() {
        return Err(malformed_header());
    }
    let with_stream = count_files_with_stream(&files);
    if !blocks_hold(&streams.blocks, with_stream) {
        return Err(malformed_header());
    }
    let archive = Archive {
        pack_pos: streams.pack_pos,
        pack_sizes: streams.pack_sizes,
        pack_crcs: streams.pack_crcs,
        blocks: streams.blocks,
        files,
    };
    proof {
        assert(archive@.blocks =~= block_views(archive.blocks@, archive.blocks@.len() as int));
        assert(archive@.files =~= entry_views(archive.files@, archive.files@.len() as int));
    }
    Ok(archive)
}

} // verus!
