//! Iterators over the characters of a rope, front to back and back to front.
use crate::chunks::{Chunks, ChunksRev};
use vstd::prelude::*;
use vstd::std_specs::iter::IteratorSpec;
use vstd::string::StringSliceAdditionalSpecFns;
use vstd::utf8::*;

verus! {

broadcast use vstd::utf8::group_utf8_lib;

/// The characters of one chunk.
fn chunk_chars(s: &str) -> (r: Vec<char>)
    ensures
        r@ == s@,
        r@ == decode_utf8(s.spec_bytes()),
{
    let mut out: Vec<char> = Vec::new();
    let mut it = s.chars();
    loop
        invariant
            out@ + it.remaining() == s@,
            it.decrease() is Some,
        ensures
            out@ == s@,
        decreases it.decrease()->0,
    {
        match it.next() {
            Some(c) => out.push(c),
            None => {
                assert(out@ + it.remaining() =~= out@);
                break ;
            },
        }
    }
    out
}

/// A chunk that is not empty has characters, which lead its text.
proof fn lemma_chunk(c: &str, rest: Seq<u8>)
    requires
        c.spec_bytes().len() > 0,
        valid_utf8(rest),
    ensures
        c@.len() > 0,
        decode_utf8(c.spec_bytes() + rest) == c@ + decode_utf8(rest),
        decode_utf8(rest + c.spec_bytes()) == decode_utf8(rest) + c@,
{
    if c@.len() == 0 {
        assert(c.spec_bytes() =~= Seq::<u8>::empty());
    }
    crate::text::lemma_concat(c.spec_bytes(), rest);
    crate::text::lemma_concat(rest, c.spec_bytes());
}

/// The characters of a range of a rope, front to back.
pub struct Chars<'a> {
    chunks: Chunks<'a>,
    buf: Vec<char>,
    idx: usize,
}

impl<'a> Chars<'a> {
    /// The characters still to come, in order.
    pub closed spec fn rest(&self) -> Seq<char> {
        self.buf@.subrange(self.idx as int, self.buf@.len() as int) + decode_utf8(
            self.chunks.rest(),
        )
    }

    pub closed spec fn wf(&self) -> bool {
        &&& self.chunks.wf()
        &&& self.idx <= self.buf@.len()
    }

    pub(crate) fn new(chunks: Chunks<'a>) -> (r: Chars<'a>)
        requires
            chunks.wf(),
        ensures
            r.wf(),
            r.rest() == decode_utf8(chunks.rest()),
    {
        let r = Chars { chunks, buf: Vec::new(), idx: 0 };
        proof {
            assert(r.rest() =~= decode_utf8(chunks.rest()));
        }
        r
    }

    /// The next character, or `None` at the end.
    pub fn next(&mut self) -> (r: Option<char>)
        requires
            old(self).wf(),
        ensures
            final(self).wf(),
            old(self).rest().len() == 0 ==> r is None && final(self).rest() == old(self).rest(),
            old(self).rest().len() > 0 ==> r == Some(old(self).rest()[0]) && final(self).rest()
                == old(self).rest().drop_first(),
    {
        let ghost before = self.rest();
        if self.idx < self.buf.len() {
            let c = self.buf[self.idx];
            self.idx = self.idx + 1;
            proof {
                assert(before[0] == c);
                assert(self.rest() =~= before.drop_first());
            }
            return Some(c);
        }
        proof {
            assert(before =~= decode_utf8(self.chunks.rest()));
        }
        match self.chunks.next() {
            None => None,
            Some(chunk) => {
                proof {
                    self.chunks.lemma_rest_valid();
                    lemma_chunk(chunk, self.chunks.rest());
                }
                self.buf = chunk_chars(chunk);
                self.idx = 1;
                proof {
                    assert(before[0] == self.buf@[0]);
                    assert(self.rest() =~= before.drop_first());
                }
                Some(self.buf[0])
            },
        }
    }

    /// All the remaining items, in the order they come.
    pub fn collect_vec(self) -> (r: Vec<char>)
        requires
            self.wf(),
        ensures
            r@ == self.rest(),
    {
        let mut it = self;
        let mut out: Vec<char> = Vec::new();
        let ghost all = it.rest();
        proof {
            assert(all =~= out@ + it.rest());
        }
        loop
            invariant
                it.wf(),
                all == out@ + it.rest(),
            ensures
                out@ == all,
            decreases it.rest().len(),
        {
            let ghost prev = it.rest();
            match it.next() {
                None => {
                    proof {
                        assert(out@ + it.rest() =~= out@);
                    }
                    break;
                },
                Some(x) => {
                    out.push(x);
                    proof {
                        assert(prev =~= seq![x] + it.rest());
                        assert(all =~= out@ + it.rest());
                    }
                },
            }
        }
        out
    }
}

/// The characters of a range of a rope, back to front.
pub struct CharsRev<'a> {
    chunks: ChunksRev<'a>,
    buf: Vec<char>,
    idx: usize,
}

impl<'a> CharsRev<'a> {
    /// The characters still to come, in the order they come: the text
    /// before the position, reversed.
    pub closed spec fn rest(&self) -> Seq<char> {
        (decode_utf8(self.chunks.rest()) + self.buf@.subrange(0, self.idx as int)).reverse()
    }

    pub closed spec fn wf(&self) -> bool {
        &&& self.chunks.wf()
        &&& self.idx <= self.buf@.len()
    }

    pub(crate) fn new(chunks: ChunksRev<'a>) -> (r: CharsRev<'a>)
        requires
            chunks.wf(),
        ensures
            r.wf(),
            r.rest() == decode_utf8(chunks.rest()).reverse(),
    {
        let r = CharsRev { chunks, buf: Vec::new(), idx: 0 };
        proof {
            assert(decode_utf8(chunks.rest()) + r.buf@.subrange(0, 0) =~= decode_utf8(
                chunks.rest(),
            ));
        }
        r
    }

    /// The next character toward the front, or `None` at the start.
    pub fn next(&mut self) -> (r: Option<char>)
        requires
            old(self).wf(),
        ensures
            final(self).wf(),
            old(self).rest().len() == 0 ==> r is None && final(self).rest() == old(self).rest(),
            old(self).rest().len() > 0 ==> r == Some(old(self).rest()[0]) && final(self).rest()
                == old(self).rest().drop_first(),
    {
        let ghost before = self.rest();
        let ghost inner = decode_utf8(self.chunks.rest()) + self.buf@.subrange(0, self.idx as int);
        if self.idx > 0 {
            self.idx = self.idx - 1;
            let c = self.buf[self.idx];
            proof {
                let now = decode_utf8(self.chunks.rest()) + self.buf@.subrange(0, self.idx as int);
                assert(inner =~= now.push(c));
                assert(before[0] == c);
                assert(self.rest() =~= before.drop_first());
            }
            return Some(c);
        }
        proof {
            assert(inner =~= decode_utf8(self.chunks.rest()));
        }
        match self.chunks.next() {
            None => {
                proof {
                    assert(before.len() == 0);
                }
                None
            },
            Some(chunk) => {
                proof {
                    self.chunks.lemma_rest_valid();
                    lemma_chunk(chunk, self.chunks.rest());
                }
                self.buf = chunk_chars(chunk);
                let n = self.buf.len();
                self.idx = n - 1;
                proof {
                    let now = decode_utf8(self.chunks.rest()) + self.buf@.subrange(0, (n - 1) as int);
                    assert(inner =~= now.push(self.buf@[n - 1]));
                    assert(before[0] == self.buf@[n - 1]);
                    assert(self.rest() =~= before.drop_first());
                }
                Some(self.buf[n - 1])
            },
        }
    }

    /// All the remaining items, in the order they come.
    pub fn collect_vec(self) -> (r: Vec<char>)
        requires
            self.wf(),
        ensures
            r@ == self.rest(),
    {
        let mut it = self;
        let mut out: Vec<char> = Vec::new();
        let ghost all = it.rest();
        proof {
            assert(all =~= out@ + it.rest());
        }
        loop
            invariant
                it.wf(),
                all == out@ + it.rest(),
            ensures
                out@ == all,
            decreases it.rest().len(),
        {
            let ghost prev = it.rest();
            match it.next() {
                None => {
                    proof {
                        assert(out@ + it.rest() =~= out@);
                    }
                    break;
                },
                Some(x) => {
                    out.push(x);
                    proof {
                        assert(prev =~= seq![x] + it.rest());
                        assert(all =~= out@ + it.rest());
                    }
                },
            }
        }
        out
    }
}

} // verus!
