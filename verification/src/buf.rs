//! Copying bytes between buffers.

use vstd::prelude::*;
use vstd::slice::{slice_subrange, slice_to_vec};

verus! {

/// Appends the bytes of `src` to `dst`.
pub fn append(dst: &mut Vec<u8>, src: &[u8])
    ensures
        final(dst)@ == old(dst)@ + src@,
{
    dst.extend_from_slice(src);
    assert(dst@ =~= old(dst)@ + src@);
}

/// The bytes of `src` from `from` up to, not including, `to`.
pub fn copy_range(src: &[u8], from: usize, to: usize) -> (bytes: Vec<u8>)
    requires
        from <= to <= src.len(),
    ensures
        bytes@ == src@.subrange(from as int, to as int),
{
    slice_to_vec(slice_subrange(src, from, to))
}

/// `bytes`, cut to `size` bytes where they are more.
pub open spec fn clipped(bytes: Seq<u8>, size: usize) -> Seq<u8> {
    if bytes.len() <= size {
        bytes
    } else {
        bytes.take(size as int)
    }
}

} // verus!
