//! Places in a buffer of bytes that grows as it is written: where a seek leads, how
//! much a read takes, and how far the buffer grows.

use vstd::prelude::*;

verus! {

/// Where to seek: counted from the start, from the end, or from the place at hand.
#[derive(Clone, Copy, Debug, PartialEq, Eq)]
pub enum SeekTo {
    Start(u64),
    End(i64),
    Current(i64),
}

/// `target`, held within a buffer of `len` bytes.
pub open spec fn clamped(target: int, len: int) -> int {
    if target < 0 {
        0
    } else if target >= len {
        len
    } else {
        target
    }
}

/// The place after a seek from `pos` in a buffer of `len` bytes. A place counted from
/// the start is taken as it is, also behind the end; one counted from the end or
/// from `pos` is held within the buffer; and a move by nothing moves nothing.
pub open spec fn sought(pos: usize, len: usize, to: SeekTo) -> int {
    match to {
        SeekTo::Start(n) => n as int,
        SeekTo::End(i) => clamped(len + i, len as int),
        SeekTo::Current(i) => if i == 0 {
            pos as int
        } else {
            clamped(pos + i, len as int)
        },
    }
}

/// How far back a negative `i` leads.
fn steps_back(i: i64) -> (back: u64)
    requires
        i < 0,
    ensures
        back == -i,
{
    let short: i64 = -(i + 1);
    let back: u64 = short as u64;
    back + 1
}

/// The place `back` bytes before `from`, held within a buffer of `len` bytes.
fn moved_back(from: usize, back: u64, len: usize) -> (next: usize)
    ensures
        next == clamped(from - back, len as int),
{
    if from as u64 <= back {
        0
    } else {
        let target: usize = from - (back as usize);
        if target >= len {
            len
        } else {
            target
        }
    }
}

/// The place after a seek from `pos` in a buffer of `len` bytes.
pub fn seek_position(pos: usize, len: usize, to: SeekTo) -> (next: usize)
    requires
        to matches SeekTo::Start(n) ==> n <= usize::MAX,
    ensures
        next == sought(pos, len, to),
{
    match to {
        SeekTo::Start(n) => n as usize,
        SeekTo::End(i) => {
            if i >= 0 {
                len
            } else {
                moved_back(len, steps_back(i), len)
            }
        },
        SeekTo::Current(i) => {
            if i == 0 {
                pos
            } else if i < 0 {
                moved_back(pos, steps_back(i), len)
            } else if pos >= len {
                len
            } else if i as u64 >= (len - pos) as u64 {
                len
            } else {
                pos + (i as usize)
            }
        },
    }
}

/// The number of bytes that a read of `want` bytes takes at `pos` in a buffer of
/// `len` bytes: what is there, and nothing behind the end.
pub open spec fn readable(pos: usize, len: usize, want: usize) -> int {
    if pos >= len {
        0
    } else if want <= len - pos {
        want as int
    } else {
        len - pos
    }
}

/// The number of bytes that a read of `want` bytes takes at `pos`.
pub fn read_len(pos: usize, len: usize, want: usize) -> (taken: usize)
    ensures
        taken == readable(pos, len, want),
        pos + taken <= len || taken == 0,
{
    if pos >= len {
        0
    } else if want <= len - pos {
        want
    } else {
        len - pos
    }
}

/// The length that a buffer of `cur_len` bytes gets when a write ends at `end` behind
/// it: at least `end`, at least twice what it was, and never nothing.
pub open spec fn grown(cur_len: usize, end: usize) -> int {
    let doubled = 2 * cur_len;
    let most = if end >= doubled {
        end as int
    } else {
        doubled
    };
    if most >= 1 {
        most
    } else {
        1
    }
}

/// The length that a buffer of `cur_len` bytes gets for a write that ends at `end`.
pub fn grown_len(cur_len: usize, end: usize) -> (new_len: usize)
    requires
        2 * cur_len <= usize::MAX,
    ensures
        new_len == grown(cur_len, end),
        new_len >= end,
        new_len >= 1,
{
    let doubled: usize = 2 * cur_len;
    let most: usize = if end >= doubled {
        end
    } else {
        doubled
    };
    if most >= 1 {
        most
    } else {
        1
    }
}

/// A seek never leaves the buffer, unless it is counted from the start or moves by
/// nothing.
pub proof fn lemma_seek_stays_within(pos: usize, len: usize, to: SeekTo)
    requires
        !(to is Start),
        !(to matches SeekTo::Current(i) && i == 0),
    ensures
        0 <= sought(pos, len, to) <= len,
{
}

} // verus!
