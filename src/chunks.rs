//! Iterators over the chunks of a rope, front to back and back to front.
use crate::cursor::Cursor;
use crate::rope::Rope;
use vstd::prelude::*;
use vstd::string::StringSliceAdditionalSpecFns;
use vstd::string::StringExecFns;
use vstd::utf8::*;

verus! {

broadcast use vstd::utf8::group_utf8_lib;

/// The chunks of a range of a rope, front to back. Each chunk is a
/// non-empty run of text within one leaf.
pub struct Chunks<'a> {
    cursor: Cursor<'a>,
    pos: usize,
}

impl<'a> Chunks<'a> {
    /// The bytes that the chunks still to come hold, in order.
    pub closed spec fn rest(&self) -> Seq<u8> {
        self.cursor.text().subrange(self.pos as int, self.cursor.hi())
    }

    pub closed spec fn wf(&self) -> bool {
        &&& self.cursor.wf()
        &&& (self.pos == self.cursor.spec_chunk_start() || self.pos == self.cursor.hi())
        &&& self.cursor.lo() <= self.pos <= self.cursor.hi()
    }

    /// What remains is valid UTF-8.
    pub proof fn lemma_rest_valid(&self)
        requires
            self.wf(),
        ensures
            valid_utf8(self.rest()),
    {
        self.cursor.lemma_wf();
        assert(is_char_boundary(self.cursor.text(), self.pos as int));
        crate::text::lemma_three(self.cursor.text(), self.pos as int, self.cursor.hi());
    }

    /// The chunks of the range `start..end` of `rope`.
    pub(crate) fn new(rope: &'a Rope, start: usize, end: usize) -> (r: Chunks<'a>)
        requires
            rope.wf(),
            start <= end <= rope@.len(),
            is_char_boundary(rope@, start as int),
            is_char_boundary(rope@, end as int),
        ensures
            r.wf(),
            r.rest() == rope@.subrange(start as int, end as int),
    {
        let cursor = Cursor::new(rope, start, end);
        Chunks { cursor, pos: start }
    }

    /// The next chunk, or `None` when all have been given.
    pub fn next(&mut self) -> (r: Option<&'a str>)
        requires
            old(self).wf(),
        ensures
            final(self).wf(),
            r is None <==> old(self).rest().len() == 0,
            r is None ==> final(self).rest() == old(self).rest(),
            r matches Some(c) ==> c.spec_bytes().len() > 0 && old(self).rest() == c.spec_bytes()
                + final(self).rest(),
    {
        proof {
            self.cursor.lemma_wf();
        }
        if self.pos >= self.cursor.chunk_end() {
            proof {
                assert(self.rest() =~= Seq::<u8>::empty());
            }
            return None;
        }
        let chunk = self.cursor.current_chunk();
        let ghost before = self.rest();
        let ghost x = self.cursor.text();
        let ghost hi = self.cursor.hi();
        let ghost cs = self.cursor.spec_chunk_start();
        let ghost ce = self.cursor.spec_chunk_end();
        self.pos = self.cursor.chunk_end();
        self.cursor.advance_chunk();
        proof {
            assert(before =~= x.subrange(cs, ce) + x.subrange(ce, hi));
        }
        Some(chunk)
    }

    /// All the remaining chunks, joined in order: the remaining text.
    pub fn collect_string(self) -> (r: String)
        requires
            self.wf(),
        ensures
            r@ == decode_utf8(self.rest()),
            encode_utf8(r@) == self.rest(),
    {
        let mut it = self;
        let mut out = String::new();
        let ghost all = it.rest();
        proof {
            it.lemma_rest_valid();
            assert(encode_utf8(out@) =~= Seq::<u8>::empty());
            assert(all =~= encode_utf8(out@) + it.rest());
        }
        loop
            invariant
                it.wf(),
                all == encode_utf8(out@) + it.rest(),
            ensures
                encode_utf8(out@) == all,
            decreases it.rest().len(),
        {
            let ghost prev = out@;
            match it.next() {
                None => {
                    proof {
                        assert(encode_utf8(out@) + it.rest() =~= encode_utf8(out@));
                    }
                    break;
                },
                Some(c) => {
                    out.append(c);
                    proof {
                        crate::leaf::lemma_encode_concat(prev, c@);
                        assert(all =~= encode_utf8(out@) + it.rest());
                    }
                },
            }
        }
        proof {
            vstd::utf8::encode_utf8_decode_utf8(out@);
        }
        out
    }
}

/// The chunks of a range of a rope, back to front. Each chunk reads front to
/// back within itself.
pub struct ChunksRev<'a> {
    cursor: Cursor<'a>,
    pos: usize,
}

impl<'a> ChunksRev<'a> {
    /// The bytes that the chunks still to come hold, in text order.
    pub closed spec fn rest(&self) -> Seq<u8> {
        self.cursor.text().subrange(self.cursor.lo(), self.pos as int)
    }

    pub closed spec fn wf(&self) -> bool {
        &&& self.cursor.wf()
        &&& (self.pos == self.cursor.spec_chunk_end() || self.pos == self.cursor.lo())
        &&& self.pos == self.cursor.spec_chunk_end() ==> (self.cursor.spec_chunk_start()
            < self.cursor.spec_chunk_end() || self.pos == self.cursor.lo())
        &&& self.cursor.lo() <= self.pos <= self.cursor.hi()
    }

    /// What remains is valid UTF-8.
    pub proof fn lemma_rest_valid(&self)
        requires
            self.wf(),
        ensures
            valid_utf8(self.rest()),
    {
        self.cursor.lemma_wf();
        assert(is_char_boundary(self.cursor.text(), self.pos as int));
        crate::text::lemma_three(self.cursor.text(), self.cursor.lo(), self.pos as int);
    }

    /// The chunks of the range `start..end` of `rope`, last first.
    pub(crate) fn new(rope: &'a Rope, start: usize, end: usize) -> (r: ChunksRev<'a>)
        requires
            rope.wf(),
            start <= end <= rope@.len(),
            is_char_boundary(rope@, start as int),
            is_char_boundary(rope@, end as int),
        ensures
            r.wf(),
            r.rest() == rope@.subrange(start as int, end as int),
    {
        let cursor = Cursor::new_back(rope, start, end);
        ChunksRev { cursor, pos: end }
    }

    /// The next chunk toward the front, or `None` when all have been given.
    pub fn next(&mut self) -> (r: Option<&'a str>)
        requires
            old(self).wf(),
        ensures
            final(self).wf(),
            r is None <==> old(self).rest().len() == 0,
            r is None ==> final(self).rest() == old(self).rest(),
            r matches Some(c) ==> c.spec_bytes().len() > 0 && old(self).rest()
                == final(self).rest() + c.spec_bytes(),
    {
        proof {
            self.cursor.lemma_wf();
        }
        if self.pos <= self.cursor.chunk_start() {
            proof {
                assert(self.rest() =~= Seq::<u8>::empty());
            }
            return None;
        }
        let chunk = self.cursor.current_chunk();
        let ghost before = self.rest();
        let ghost x = self.cursor.text();
        let ghost lo = self.cursor.lo();
        let ghost cs = self.cursor.spec_chunk_start();
        let ghost ce = self.cursor.spec_chunk_end();
        self.pos = self.cursor.chunk_start();
        self.cursor.retreat_chunk();
        proof {
            assert(before =~= x.subrange(lo, cs) + x.subrange(cs, ce));
        }
        Some(chunk)
    }
}

} // verus!
