//! How the entries of a directory tree are named and divided among blocks.

use vstd::prelude::*;
use vstd::string::*;

use crate::error::{Error, IoKind};

verus! {

/// The most uncompressed bytes that entries sharing one block may have together:
/// 4 GiB less one.
pub const MAX_BLOCK_SIZE: u64 = 0xFFFF_FFFF;

/// The components `parts`, from `from` on, joined by `/`.
pub open spec fn joined(parts: Seq<String>, from: int) -> Seq<char>
    decreases parts.len() - from,
{
    if from >= parts.len() {
        Seq::empty()
    } else if from == parts.len() - 1 {
        parts[from]@
    } else {
        parts[from]@ + seq!['/'] + joined(parts, from + 1)
    }
}

/// Whether the path `base` is the path `path`, or leads to it: its components are
/// the first components of `path`.
pub open spec fn is_prefix(base: Seq<String>, path: Seq<String>) -> bool {
    &&& base.len() <= path.len()
    &&& forall|i: int| 0 <= i < base.len() ==> base[i]@ == path[i]@
}

/// Whether the components of `base` are the first components of `path`.
fn starts_with(path: &Vec<String>, base: &Vec<String>) -> (yes: bool)
    ensures
        yes == is_prefix(base@, path@),
{
    if base.len() > path.len() {
        return false;
    }
    let mut i: usize = 0;
    while i < base.len()
        invariant
            i <= base.len() <= path.len(),
            forall|k: int| 0 <= k < i ==> base@[k]@ == path@[k]@,
        decreases base.len() - i,
    {
        if base[i] != path[i] {
            return false;
        }
        i += 1;
    }
    true
}

/// The name under which the file at `ele` enters the archive when the path `src` is
/// archived; both paths are given by their components.
///
/// Where `ele` is `src` itself, a single file is archived under its last component;
/// a path of no components has none and is refused. Below `src`, a file is archived
/// under its path from `src` on, the components joined by `/`. A path that `src` does
/// not lead to is refused.
pub fn extract_file_name(src: &Vec<String>, ele: &Vec<String>) -> (name: Result<String, Error>)
    ensures
        is_prefix(src@, ele@) && src@.len() == ele@.len() ==> {
            if ele@.len() == 0 {
                name == Err::<String, Error>(Error::Io(IoKind::InvalidInput, "Invalid filename"))
            } else {
                name matches Ok(text) && text@ == ele@[ele@.len() - 1]@
            }
        },
        is_prefix(src@, ele@) && src@.len() < ele@.len() ==> (name matches Ok(text) && text@
            == joined(ele@, src@.len() as int)),
        !is_prefix(src@, ele@) ==> name == Err::<String, Error>(
            Error::Other("Path is not below the source path"),
        ),
{
    if !starts_with(ele, src) {
        return Err(Error::other("Path is not below the source path"));
    }
    if ele.len() == src.len() {
        if ele.len() == 0 {
            return Err(Error::Io(IoKind::InvalidInput, "Invalid filename"));
        }
        return Ok(ele[ele.len() - 1].clone());
    }
    let mut text = String::new();
    let mut i: usize = ele.len();
    // The name is built from its last component backwards.
    while i > src.len()
        invariant
            src.len() <= i <= ele.len(),
            src.len() < ele.len(),
            text@ == joined(ele@, i as int),
        decreases i,
    {
        i -= 1;
        let mut grown = ele[i].clone();
        if i + 1 < ele.len() {
            grown.append("/");
            proof {
                reveal_strlit("/");
                assert("/"@ =~= seq!['/']);
            }
            grown.append(text.as_str());
        }
        proof {
            assert(grown@ =~= joined(ele@, i as int));
        }
        text = grown;
    }
    Ok(text)
}

/// The blocks planned so far for the entries of a writer: the blocks that are
/// closed, and the block that still takes entries, with the bytes it holds.
pub struct Grouping {
    /// The closed blocks, each the ascending indices of its entries.
    pub closed: Seq<Seq<int>>,
    /// The indices of the entries in the block that is still open.
    pub open: Seq<int>,
    /// The uncompressed bytes of the entries in the open block.
    pub open_size: nat,
}

/// The grouping after one more entry, the one of index `index` and `size` bytes.
///
/// An entry of no bytes has no stream and joins no block. Where every entry gets its
/// own block, the entry is one. Otherwise an entry that alone reaches the cap gets a
/// block of its own at once; an entry that would take the open block over the cap
/// closes it and opens the next; any other joins the open block.
pub open spec fn grouped_step(solid: bool, before: Grouping, index: int, size: u64) -> Grouping {
    if size == 0 {
        before
    } else if !solid || size >= MAX_BLOCK_SIZE {
        Grouping { closed: before.closed.push(seq![index]), ..before }
    } else if before.open_size + size > MAX_BLOCK_SIZE {
        Grouping { closed: before.closed.push(before.open), open: seq![index], open_size: size as nat }
    } else {
        Grouping {
            closed: before.closed,
            open: before.open.push(index),
            open_size: before.open_size + size as nat,
        }
    }
}

/// The grouping of the first `count` entries.
pub open spec fn grouped(solid: bool, sizes: Seq<u64>, count: nat) -> Grouping
    decreases count,
{
    if count == 0 {
        Grouping { closed: Seq::empty(), open: Seq::empty(), open_size: 0 }
    } else {
        grouped_step(
            solid,
            grouped(solid, sizes, (count - 1) as nat),
            count - 1,
            sizes[count - 1],
        )
    }
}

/// The blocks of a grouping once no more entries come: the closed blocks, and the
/// open block where it holds entries.
pub open spec fn finished(grouping: Grouping) -> Seq<Seq<int>> {
    if grouping.open.len() > 0 {
        grouping.closed.push(grouping.open)
    } else {
        grouping.closed
    }
}

/// The blocks in which the entries of the sizes `sizes` are written, in the order in
/// which the blocks are written.
pub open spec fn blocks_of(solid: bool, sizes: Seq<u64>) -> Seq<Seq<int>> {
    finished(grouped(solid, sizes, sizes.len()))
}

/// The uncompressed bytes of the entries of one block.
pub open spec fn block_size(sizes: Seq<u64>, block: Seq<int>) -> nat
    decreases block.len(),
{
    if block.len() == 0 {
        0
    } else {
        block_size(sizes, block.drop_last()) + sizes[block.last()] as nat
    }
}

/// What holds of a grouping of the first `count` entries at every step: the open
/// block holds the bytes it is said to hold, which are within the cap; each block
/// holds entries that have bytes, in ascending order and from among the first
/// `count`; and a block of more than one entry is within the cap.
pub open spec fn grouping_inv(sizes: Seq<u64>, count: nat, grouping: Grouping) -> bool {
    &&& grouping.open_size == block_size(sizes, grouping.open)
    &&& grouping.open_size <= MAX_BLOCK_SIZE
    &&& grouping.open.len() > 0 ==> grouping.open_size > 0
    &&& block_inv(sizes, count, grouping.open)
    &&& forall|b: int|
        0 <= b < grouping.closed.len() ==> {
            &&& (#[trigger] grouping.closed[b]).len() > 0
            &&& block_inv(sizes, count, grouping.closed[b])
            &&& grouping.closed[b].len() > 1 ==> block_size(sizes, grouping.closed[b])
                <= MAX_BLOCK_SIZE
        }
}

/// The entries of a block have bytes, are among the first `count`, and ascend.
pub open spec fn block_inv(sizes: Seq<u64>, count: nat, block: Seq<int>) -> bool {
    &&& forall|i: int| 0 <= i < block.len() ==> 0 <= #[trigger] block[i] < count && sizes[block[i]] > 0
    &&& forall|i: int, j: int| 0 <= i < j < block.len() ==> block[i] < block[j]
}

/// The grouping of the first `count` entries is as [`grouping_inv`] says.
pub proof fn lemma_grouped_inv(solid: bool, sizes: Seq<u64>, count: nat)
    requires
        count <= sizes.len(),
    ensures
        grouping_inv(sizes, count, grouped(solid, sizes, count)),
    decreases count,
{
    if count > 0 {
        let before = grouped(solid, sizes, (count - 1) as nat);
        let after = grouped(solid, sizes, count);
        let index = count - 1;
        let size = sizes[index];
        lemma_grouped_inv(solid, sizes, (count - 1) as nat);
        assert(block_size(sizes, seq![index]) == size) by {
            assert(seq![index].drop_last() =~= Seq::<int>::empty());
            reveal_with_fuel(block_size, 2);
        }
        if size == 0 {
        } else if !solid || size >= MAX_BLOCK_SIZE {
            assert forall|b: int| 0 <= b < after.closed.len() implies {
                &&& (#[trigger] after.closed[b]).len() > 0
                &&& block_inv(sizes, count, after.closed[b])
                &&& after.closed[b].len() > 1 ==> block_size(sizes, after.closed[b])
                    <= MAX_BLOCK_SIZE
            } by {
                if b < before.closed.len() {
                    assert(after.closed[b] == before.closed[b]);
                }
            }
        } else if before.open_size + size > MAX_BLOCK_SIZE {
            assert forall|b: int| 0 <= b < after.closed.len() implies {
                &&& (#[trigger] after.closed[b]).len() > 0
                &&& block_inv(sizes, count, after.closed[b])
                &&& after.closed[b].len() > 1 ==> block_size(sizes, after.closed[b])
                    <= MAX_BLOCK_SIZE
            } by {
                if b < before.closed.len() {
                    assert(after.closed[b] == before.closed[b]);
                } else {
                    assert(after.closed[b] == before.open);
                    assert(before.open_size > 0);
                }
            }
        } else {
            assert(after.open.drop_last() =~= before.open);
            assert forall|i: int, j: int| 0 <= i < j < after.open.len() implies after.open[i]
                < after.open[j] by {
                if j == after.open.len() - 1 {
                    assert(after.open[i] == before.open[i]);
                }
            }
        }
    }
}

/// No block of more than one entry holds more than 4 GiB less one byte, no block is
/// empty, and each block holds entries that have bytes, in ascending order.
pub proof fn lemma_blocks_within_cap(solid: bool, sizes: Seq<u64>)
    ensures
        forall|b: int|
            0 <= b < blocks_of(solid, sizes).len() ==> {
                &&& (#[trigger] blocks_of(solid, sizes)[b]).len() > 0
                &&& block_inv(sizes, sizes.len(), blocks_of(solid, sizes)[b])
                &&& blocks_of(solid, sizes)[b].len() > 1 ==> block_size(
                    sizes,
                    blocks_of(solid, sizes)[b],
                ) <= MAX_BLOCK_SIZE
            },
{
    lemma_grouped_inv(solid, sizes, sizes.len());
    let grouping = grouped(solid, sizes, sizes.len());
    let blocks = blocks_of(solid, sizes);
    assert forall|b: int| 0 <= b < blocks.len() implies {
        &&& (#[trigger] blocks[b]).len() > 0
        &&& block_inv(sizes, sizes.len(), blocks[b])
        &&& blocks[b].len() > 1 ==> block_size(sizes, blocks[b]) <= MAX_BLOCK_SIZE
    } by {
        if b < grouping.closed.len() {
            assert(blocks[b] == grouping.closed[b]);
        }
    }
}

/// Without solid grouping every entry that has bytes is a block of its own.
pub proof fn lemma_non_solid_blocks_are_single(sizes: Seq<u64>, count: nat)
    requires
        count <= sizes.len(),
    ensures
        grouped(false, sizes, count).open.len() == 0,
        forall|b: int|
            0 <= b < grouped(false, sizes, count).closed.len() ==> (#[trigger] grouped(
                false,
                sizes,
                count,
            ).closed[b]).len() == 1,
    decreases count,
{
    if count > 0 {
        lemma_non_solid_blocks_are_single(sizes, (count - 1) as nat);
        let before = grouped(false, sizes, (count - 1) as nat);
        let after = grouped(false, sizes, count);
        assert forall|b: int| 0 <= b < after.closed.len() implies (#[trigger] after.closed[b]).len()
            == 1 by {
            if b < before.closed.len() {
                assert(after.closed[b] == before.closed[b]);
            }
        }
    }
}

/// Entries that all have no bytes are written in no block.
pub proof fn lemma_no_blocks_without_bytes(solid: bool, sizes: Seq<u64>, count: nat)
    requires
        count <= sizes.len(),
        forall|i: int| 0 <= i < sizes.len() ==> sizes[i] == 0,
    ensures
        grouped(solid, sizes, count).closed.len() == 0,
        grouped(solid, sizes, count).open.len() == 0,
    decreases count,
{
    if count > 0 {
        lemma_no_blocks_without_bytes(solid, sizes, (count - 1) as nat);
    }
}

/// The blocks of `blocks` as sequences of indices.
pub open spec fn blocks_view(blocks: Seq<Vec<usize>>) -> Seq<Seq<int>> {
    Seq::new(blocks.len(), |b: int| Seq::new(blocks[b]@.len(), |i: int| blocks[b]@[i] as int))
}

/// Plans the blocks in which entries of the sizes `sizes` are written: each block is
/// given by the indices of its entries, and the blocks come in the order in which
/// they are written. With `solid`, entries share blocks as far as the cap allows;
/// without, every entry that has bytes gets its own.
pub fn group_entries(solid: bool, sizes: &[u64]) -> (blocks: Vec<Vec<usize>>)
    ensures
        blocks_view(blocks@) == blocks_of(solid, sizes@),
{
    let mut closed: Vec<Vec<usize>> = Vec::new();
    let mut open: Vec<usize> = Vec::new();
    let mut file_size: u64 = 0;
    let mut i: usize = 0;
    while i < sizes.len()
        invariant
            i <= sizes.len(),
            blocks_view(closed@) == grouped(solid, sizes@, i as nat).closed,
            Seq::new(open@.len(), |k: int| open@[k] as int) == grouped(solid, sizes@, i as nat).open,
            file_size == grouped(solid, sizes@, i as nat).open_size,
            file_size <= MAX_BLOCK_SIZE,
        decreases sizes.len() - i,
    {
        let size: u64 = sizes[i];
        let ghost before = grouped(solid, sizes@, i as nat);
        let ghost after = grouped(solid, sizes@, (i + 1) as nat);
        assert(after == grouped_step(solid, before, i as int, size));
        if size == 0 {
        } else if !solid || size >= MAX_BLOCK_SIZE {
            let mut single: Vec<usize> = Vec::new();
            single.push(i);
            closed.push(single);
            assert(blocks_view(closed@) =~= after.closed) by {
                assert(Seq::new(single@.len(), |k: int| single@[k] as int) =~= seq![i as int]);
                assert forall|b: int| 0 <= b < closed@.len() implies blocks_view(closed@)[b]
                    == after.closed[b] by {
                    if b < closed@.len() - 1 {
                        assert(blocks_view(closed@)[b] == blocks_view(closed@.drop_last())[b]);
                    }
                }
            }
        } else if file_size > MAX_BLOCK_SIZE - size {
            let mut next: Vec<usize> = Vec::new();
            next.push(i);
            let ghost open_before = open@;
            closed.push(open);
            open = next;
            file_size = size;
            assert(blocks_view(closed@) =~= after.closed) by {
                assert forall|b: int| 0 <= b < closed@.len() implies blocks_view(closed@)[b]
                    == after.closed[b] by {
                    if b < closed@.len() - 1 {
                        assert(blocks_view(closed@)[b] == blocks_view(closed@.drop_last())[b]);
                    }
                }
            }
            assert(Seq::new(open@.len(), |k: int| open@[k] as int) =~= after.open);
        } else {
            file_size = file_size + size;
            open.push(i);
            assert(Seq::new(open@.len(), |k: int| open@[k] as int) =~= after.open);
        }
        i += 1;
    }
    if open.len() > 0 {
        closed.push(open);
        assert(blocks_view(closed@) =~= blocks_of(solid, sizes@)) by {
            assert forall|b: int| 0 <= b < closed@.len() implies blocks_view(closed@)[b]
                == blocks_of(solid, sizes@)[b] by {
                if b < closed@.len() - 1 {
                    assert(blocks_view(closed@)[b] == blocks_view(closed@.drop_last())[b]);
                }
            }
        }
    }
    closed
}

} // verus!
