//! Iterators over the bytes of a rope, front to back and back to front.
use crate::chunks::{Chunks, ChunksRev};
use vstd::prelude::*;
use vstd::string::StringSliceAdditionalSpecFns;

verus! {

/// The bytes of a range of a rope, front to back.
pub struct Bytes<'a> {
    chunks: Chunks<'a>,
    chunk: &'a [u8],
    idx: usize,
}

impl<'a> Bytes<'a> {
    /// The bytes still to come, in order.
    pub closed spec fn rest(&self) -> Seq<u8> {
        self.chunk@.subrange(self.idx as int, self.chunk@.len() as int) + self.chunks.rest()
    }

    pub closed spec fn wf(&self) -> bool {
        &&& self.chunks.wf()
        &&& self.idx <= self.chunk@.len()
    }

    pub(crate) fn new(chunks: Chunks<'a>) -> (r: Bytes<'a>)
        requires
            chunks.wf(),
        ensures
            r.wf(),
            r.rest() == chunks.rest(),
    {
        let chunk: &[u8] = "".as_bytes();
        proof {
            reveal_strlit("");
            assert(chunk@.subrange(0, chunk@.len() as int) + chunks.rest() =~= chunks.rest());
        }
        Bytes { chunks, chunk, idx: 0 }
    }

    /// The next byte, or `None` at the end.
    pub fn next(&mut self) -> (r: Option<u8>)
        requires
            old(self).wf(),
        ensures
            final(self).wf(),
            old(self).rest().len() == 0 ==> r is None && final(self).rest() == old(self).rest(),
            old(self).rest().len() > 0 ==> r == Some(old(self).rest()[0]) && final(self).rest()
                == old(self).rest().drop_first(),
    {
        let ghost before = self.rest();
        if self.idx < self.chunk.len() {
            let b = self.chunk[self.idx];
            self.idx = self.idx + 1;
            proof {
                assert(before[0] == b);
                assert(self.rest() =~= before.drop_first());
            }
            return Some(b);
        }
        proof {
            assert(before =~= self.chunks.rest());
        }
        match self.chunks.next() {
            None => None,
            Some(c) => {
                let bytes = c.as_bytes();
                self.chunk = bytes;
                self.idx = 1;
                proof {
                    assert(before[0] == bytes@[0]);
                    assert(self.rest() =~= before.drop_first());
                }
                Some(bytes[0])
            },
        }
    }

    /// All the remaining items, in the order they come.
    pub fn collect_vec(self) -> (r: Vec<u8>)
        requires
            self.wf(),
        ensures
            r@ == self.rest(),
    {
        let mut it = self;
        let mut out: Vec<u8> = Vec::new();
        let ghost all = it.rest();
        proof {
            assert(all =~= out@ + it.rest());
        }
        loop
            invariant
                it.wf(),
                all == out@ + it.rest(),
            ensures
                out@ == all,
            decreases it.rest().len(),
        {
            let ghost prev = it.rest();
            match it.next() {
                None => {
                    proof {
                        assert(out@ + it.rest() =~= out@);
                    }
                    break;
                },
                Some(x) => {
                    out.push(x);
                    proof {
                        assert(prev =~= seq![x] + it.rest());
                        assert(all =~= out@ + it.rest());
                    }
                },
            }
        }
        out
    }
}

/// The bytes of a range of a rope, back to front.
pub struct BytesRev<'a> {
    chunks: ChunksRev<'a>,
    chunk: &'a [u8],
    idx: usize,
}

impl<'a> BytesRev<'a> {
    /// The bytes still to come, in the order they come: the text before the
    /// position, reversed.
    pub closed spec fn rest(&self) -> Seq<u8> {
        (self.chunks.rest() + self.chunk@.subrange(0, self.idx as int)).reverse()
    }

    pub closed spec fn wf(&self) -> bool {
        &&& self.chunks.wf()
        &&& self.idx <= self.chunk@.len()
    }

    pub(crate) fn new(chunks: ChunksRev<'a>) -> (r: BytesRev<'a>)
        requires
            chunks.wf(),
        ensures
            r.wf(),
            r.rest() == chunks.rest().reverse(),
    {
        let chunk: &[u8] = "".as_bytes();
        proof {
            reveal_strlit("");
            assert(chunks.rest() + chunk@.subrange(0, 0) =~= chunks.rest());
        }
        BytesRev { chunks, chunk, idx: 0 }
    }

    /// The next byte toward the front, or `None` at the start.
    pub fn next(&mut self) -> (r: Option<u8>)
        requires
            old(self).wf(),
        ensures
            final(self).wf(),
            old(self).rest().len() == 0 ==> r is None && final(self).rest() == old(self).rest(),
            old(self).rest().len() > 0 ==> r == Some(old(self).rest()[0]) && final(self).rest()
                == old(self).rest().drop_first(),
    {
        let ghost before = self.rest();
        let ghost inner = self.chunks.rest() + self.chunk@.subrange(0, self.idx as int);
        if self.idx > 0 {
            self.idx = self.idx - 1;
            let b = self.chunk[self.idx];
            proof {
                let now = self.chunks.rest() + self.chunk@.subrange(0, self.idx as int);
                assert(inner =~= now.push(b));
                assert(before[0] == b);
                assert(self.rest() =~= before.drop_first());
            }
            return Some(b);
        }
        proof {
            assert(inner =~= self.chunks.rest());
        }
        match self.chunks.next() {
            None => {
                proof {
                    assert(before.len() == 0);
                }
                None
            },
            Some(c) => {
                let bytes = c.as_bytes();
                let n = bytes.len();
                self.chunk = bytes;
                self.idx = n - 1;
                proof {
                    let now = self.chunks.rest() + bytes@.subrange(0, (n - 1) as int);
                    assert(inner =~= now.push(bytes@[n - 1]));
                    assert(before[0] == bytes@[n - 1]);
                    assert(self.rest() =~= before.drop_first());
                }
                Some(bytes[n - 1])
            },
        }
    }

    /// All the remaining items, in the order they come.
    pub fn collect_vec(self) -> (r: Vec<u8>)
        requires
            self.wf(),
        ensures
            r@ == self.rest(),
    {
        let mut it = self;
        let mut out: Vec<u8> = Vec::new();
        let ghost all = it.rest();
        proof {
            assert(all =~= out@ + it.rest());
        }
        loop
            invariant
                it.wf(),
                all == out@ + it.rest(),
            ensures
                out@ == all,
            decreases it.rest().len(),
        {
            let ghost prev = it.rest();
            match it.next() {
                None => {
                    proof {
                        assert(out@ + it.rest() =~= out@);
                    }
                    break;
                },
                Some(x) => {
                    out.push(x);
                    proof {
                        assert(prev =~= seq![x] + it.rest());
                        assert(all =~= out@ + it.rest());
                    }
                },
            }
        }
        out
    }
}

} // verus!
