//! A persistent, indexable text container (a rope) for text editors.
//!
//! The text is held as UTF-8 in a balanced tree of leaves and branches whose
//! nodes are shared between ropes, so that cloning is cheap. Byte offsets and
//! character counts are maintained in every node.
use std::ops::Range;
use vstd::prelude::*;

mod assemble;
mod builder;
mod bytes;
mod chars;
mod chunks;
mod cursor;
mod info;
mod join;
mod leaf;
mod node;
mod path;
mod rope;
mod slice;
mod text;

pub use self::builder::Builder;
pub use self::bytes::{Bytes, BytesRev};
pub use self::chars::{Chars, CharsRev};
pub use self::chunks::{Chunks, ChunksRev};
pub use self::cursor::Cursor;
pub use self::info::Info;
pub use self::rope::{lemma_append_then_split_off, lemma_from_chars, lemma_split_off_then_append};
pub use self::rope::Rope;
pub use self::slice::Slice;

verus! {

/// The largest number of bytes that a leaf holds.
pub const MAX_LEAF_BYTES: usize = 1024;

/// The smallest number of bytes that a leaf holds, unless it is the root.
pub const MIN_LEAF_BYTES: usize = 256;

/// The largest number of children that a branch holds.
pub const MAX_FANOUT: usize = 8;

/// The smallest number of children that a branch holds, unless it is the
/// root.
pub const MIN_FANOUT: usize = 4;

/// Why an operation on a rope or a slice was refused.
#[derive(Debug, Clone, Copy, PartialEq, Eq, Structural)]
pub enum Error {
    /// An index or a range endpoint lies past the end of the text.
    OutOfRange,
    /// An index does not fall on a character boundary.
    InvalidBoundary,
    /// Bytes given as text are not valid UTF-8.
    InvalidEncoding,
}

/// One end of a range of byte indices.
#[derive(Debug, Clone, Copy, PartialEq, Eq, Structural)]
pub enum Bound {
    Included(usize),
    Excluded(usize),
    Unbounded,
}

/// The first index that a range with the lower end `b` holds.
pub open spec fn first_index(b: Bound) -> int {
    match b {
        Bound::Included(s) => s as int,
        Bound::Excluded(s) => s + 1,
        Bound::Unbounded => 0,
    }
}

/// The index past the last that a range with the upper end `b` holds, in a
/// text of length `len`.
pub open spec fn past_index(b: Bound, len: int) -> int {
    match b {
        Bound::Included(e) => e + 1,
        Bound::Excluded(e) => e as int,
        Bound::Unbounded => len,
    }
}

/// The half-open range that two ends describe within `0..len`. Ends that are
/// out of order or past `len` are refused.
pub fn range_bounds_to_range(start: Bound, end: Bound, len: usize) -> (r: Result<
    Range<usize>,
    Error,
>)
    ensures
        r is Ok <==> 0 <= first_index(start) <= past_index(end, len as int) <= len,
        r matches Ok(range) ==> range.start == first_index(start) && range.end == past_index(
            end,
            len as int,
        ),
        r matches Err(e) ==> e == Error::OutOfRange,
{
    let lo = match start {
        Bound::Included(s) => s,
        Bound::Excluded(s) => {
            if s == usize::MAX {
                return Err(Error::OutOfRange);
            }
            s + 1
        },
        Bound::Unbounded => 0,
    };
    let hi = match end {
        Bound::Included(e) => {
            if e == usize::MAX {
                return Err(Error::OutOfRange);
            }
            e + 1
        },
        Bound::Excluded(e) => e,
        Bound::Unbounded => len,
    };
    if lo > hi || hi > len {
        return Err(Error::OutOfRange);
    }
    Ok(lo..hi)
}

} // verus!
