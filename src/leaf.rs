//! Leaves: the pieces of text that a rope stores.
use crate::info::Info;
use crate::text::floor_boundary;
use crate::{MAX_LEAF_BYTES, MIN_LEAF_BYTES};
use vstd::prelude::*;
use vstd::string::*;
use vstd::utf8::*;

verus! {

broadcast use vstd::utf8::group_utf8_lib;

/// A bounded piece of text together with its metrics.
pub struct Leaf {
    pub(crate) text: String,
    pub(crate) info: Info,
}

impl Leaf {
    /// The UTF-8 bytes of the leaf.
    pub open(crate) spec fn bytes(&self) -> Seq<u8> {
        encode_utf8(self.text@)
    }

    pub open(crate) spec fn wf(&self) -> bool {
        &&& self.info.describes(self.bytes())
        &&& self.bytes().len() <= MAX_LEAF_BYTES
    }

    /// A leaf that holds `s`.
    pub(crate) fn from_str(s: &str) -> (r: Leaf)
        requires
            s.spec_bytes().len() <= MAX_LEAF_BYTES,
        ensures
            r.wf(),
            r.bytes() == s.spec_bytes(),
    {
        let text = s.to_owned();
        let byte_len = s.len();
        let char_len = s.unicode_len();
        Leaf { text, info: Info { byte_len, char_len } }
    }

    /// The leaf of the empty text.
    pub(crate) fn empty() -> (r: Leaf)
        ensures
            r.wf(),
            r.bytes() == Seq::<u8>::empty(),
    {
        let text = String::new();
        proof {
            assert(encode_utf8(text@) =~= Seq::<u8>::empty());
        }
        Leaf { text, info: Info::new() }
    }

    pub(crate) fn as_str(&self) -> (r: &str)
        ensures
            r.spec_bytes() == self.bytes(),
    {
        self.text.as_str()
    }

    pub(crate) fn info(&self) -> (r: Info)
        ensures
            r == self.info,
    {
        self.info
    }

    /// A leaf that holds the text of `self` followed by that of `other`.
    pub(crate) fn concat(&self, other: &Leaf) -> (r: Leaf)
        requires
            self.wf(),
            other.wf(),
            self.bytes().len() + other.bytes().len() <= MAX_LEAF_BYTES,
        ensures
            r.wf(),
            r.bytes() == self.bytes() + other.bytes(),
    {
        proof {
            crate::info::lemma_combine_describes(self.info, other.info, self.bytes(), other.bytes());
            lemma_encode_concat(self.text@, other.text@);
        }
        let mut text = self.text.clone();
        text.append(other.text.as_str());
        Leaf { text, info: self.info.combine(other.info) }
    }

    /// Two leaves that hold the text of `self` followed by that of `other`,
    /// cut near the middle so that both hold at least the minimum.
    pub(crate) fn rebalance(&self, other: &Leaf) -> (r: (Leaf, Leaf))
        requires
            self.wf(),
            other.wf(),
            self.bytes().len() + other.bytes().len() > MAX_LEAF_BYTES,
            self.bytes().len() < MIN_LEAF_BYTES || other.bytes().len() < MIN_LEAF_BYTES,
        ensures
            r.0.wf(),
            r.1.wf(),
            r.0.bytes() + r.1.bytes() == self.bytes() + other.bytes(),
            r.0.bytes().len() >= MIN_LEAF_BYTES,
            r.1.bytes().len() >= MIN_LEAF_BYTES,
    {
        let mut text = self.text.clone();
        text.append(other.text.as_str());
        proof {
            lemma_encode_concat(self.text@, other.text@);
        }
        let s = text.as_str();
        let n = s.len();
        let m = floor_boundary(s, n / 2);
        let (a, b) = s.split_at(m);
        proof {
            assert(a.spec_bytes() + b.spec_bytes() =~= s.spec_bytes());
        }
        (Leaf::from_str(a), Leaf::from_str(b))
    }

    /// The two leaves on either side of the boundary `i`.
    pub(crate) fn split(&self, i: usize) -> (r: (Leaf, Leaf))
        requires
            self.wf(),
            is_char_boundary(self.bytes(), i as int),
        ensures
            r.0.wf(),
            r.1.wf(),
            r.0.bytes() == self.bytes().subrange(0, i as int),
            r.1.bytes() == self.bytes().subrange(i as int, self.bytes().len() as int),
    {
        let (a, b) = self.as_str().split_at(i);
        proof {
            crate::text::lemma_prefix(self.bytes(), i as int);
        }
        (Leaf::from_str(a), Leaf::from_str(b))
    }

    /// Whether `i` is a character boundary of the leaf.
    pub(crate) fn is_char_boundary(&self, i: usize) -> (r: bool)
        ensures
            r == is_char_boundary(self.bytes(), i as int),
    {
        self.as_str().is_char_boundary(i)
    }

    /// The number of characters before the boundary `i`.
    pub(crate) fn char_at_byte(&self, i: usize) -> (r: usize)
        requires
            self.wf(),
            is_char_boundary(self.bytes(), i as int),
        ensures
            r == decode_utf8(self.bytes().subrange(0, i as int)).len(),
    {
        let (a, _b) = self.as_str().split_at(i);
        proof {
            crate::text::lemma_prefix(self.bytes(), i as int);
        }
        a.unicode_len()
    }
}

/// Encoding is compatible with concatenation.
pub proof fn lemma_encode_concat(c: Seq<char>, d: Seq<char>)
    ensures
        encode_utf8(c + d) == encode_utf8(c) + encode_utf8(d),
    decreases c.len(),
{
    if c.len() == 0 {
        assert(c + d =~= d);
        assert(encode_utf8(c) =~= Seq::<u8>::empty());
        assert(encode_utf8(c) + encode_utf8(d) =~= encode_utf8(d));
    } else {
        assert((c + d).drop_first() =~= c.drop_first() + d);
        assert((c + d)[0] == c[0]);
        lemma_encode_concat(c.drop_first(), d);
        assert(encode_utf8(c + d) =~= encode_utf8(c) + encode_utf8(d));
    }
}

} // verus!
