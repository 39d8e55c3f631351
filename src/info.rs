//! The metrics that every node of a rope carries.
use vstd::prelude::*;
use vstd::utf8::*;

verus! {

/// Byte length and character count of a piece of text.
#[derive(Debug, Clone, Copy, PartialEq, Eq, Structural)]
pub struct Info {
    pub byte_len: usize,
    pub char_len: usize,
}

impl Info {
    /// The metrics of the valid text `b`.
    pub open spec fn describes(self, b: Seq<u8>) -> bool {
        &&& self.byte_len == b.len()
        &&& self.char_len == decode_utf8(b).len()
    }

    pub open spec fn spec_combine(self, other: Info) -> Info {
        Info {
            byte_len: (self.byte_len + other.byte_len) as usize,
            char_len: (self.char_len + other.char_len) as usize,
        }
    }

    /// The metrics of the empty text, the identity of `combine`.
    pub fn new() -> (r: Info)
        ensures
            r.byte_len == 0,
            r.char_len == 0,
            r.describes(Seq::empty()),
    {
        Info { byte_len: 0, char_len: 0 }
    }

    /// The metrics of two pieces of text placed one after the other.
    pub fn combine(self, other: Info) -> (r: Info)
        requires
            self.byte_len + other.byte_len <= usize::MAX,
            self.char_len + other.char_len <= usize::MAX,
        ensures
            r == self.spec_combine(other),
            r.byte_len == self.byte_len + other.byte_len,
            r.char_len == self.char_len + other.char_len,
    {
        Info { byte_len: self.byte_len + other.byte_len, char_len: self.char_len + other.char_len }
    }
}

/// Combining metrics is associative, where the sums fit.
pub proof fn lemma_combine_associative(a: Info, b: Info, c: Info)
    requires
        a.byte_len + b.byte_len + c.byte_len <= usize::MAX,
        a.char_len + b.char_len + c.char_len <= usize::MAX,
    ensures
        a.spec_combine(b).spec_combine(c) == a.spec_combine(b.spec_combine(c)),
{
}

/// The empty metrics are an identity of combining.
pub proof fn lemma_combine_identity(a: Info)
    ensures
        a.spec_combine(Info { byte_len: 0, char_len: 0 }) == a,
        (Info { byte_len: 0, char_len: 0 }).spec_combine(a) == a,
{
}

/// Metrics of two valid texts combine into the metrics of their concatenation.
pub proof fn lemma_combine_describes(a: Info, b: Info, x: Seq<u8>, y: Seq<u8>)
    requires
        valid_utf8(x),
        valid_utf8(y),
        a.describes(x),
        b.describes(y),
        x.len() + y.len() <= usize::MAX,
    ensures
        a.char_len + b.char_len <= a.byte_len + b.byte_len,
        a.spec_combine(b).describes(x + y),
{
    crate::text::lemma_concat(x, y);
    crate::text::lemma_chars_le_bytes(x);
    crate::text::lemma_chars_le_bytes(y);
}

} // verus!
