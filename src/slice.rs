//! Slices: read-only views of a byte range of a rope.
use crate::bytes::{Bytes, BytesRev};
use crate::chars::{Chars, CharsRev};
use crate::chunks::{Chunks, ChunksRev};
use crate::cursor::Cursor;
use crate::rope::Rope;
use crate::Error;
use vstd::prelude::*;
use vstd::utf8::*;

verus! {

broadcast use vstd::utf8::group_utf8_lib;

/// The text of a rope between two character boundaries. It shares the rope's
/// nodes; its offsets count from the start of the range.
pub struct Slice<'a> {
    rope: &'a Rope,
    start: usize,
    end: usize,
}

impl<'a> View for Slice<'a> {
    type V = Seq<u8>;

    /// The UTF-8 bytes of the range.
    closed spec fn view(&self) -> Seq<u8> {
        self.rope@.subrange(self.start as int, self.end as int)
    }
}

impl<'a> Slice<'a> {
    pub closed spec fn wf(&self) -> bool {
        &&& self.rope.wf()
        &&& self.start <= self.end <= self.rope@.len()
        &&& is_char_boundary(self.rope@, self.start as int)
        &&& is_char_boundary(self.rope@, self.end as int)
    }

    /// The rope's text around the slice, and the slice's place in it.
    proof fn lemma_parts(&self)
        requires
            self.wf(),
        ensures
            valid_utf8(self@),
            self.rope@ == self.rope@.subrange(0, self.start as int) + self@
                + self.rope@.subrange(self.end as int, self.rope@.len() as int),
            valid_utf8(self.rope@.subrange(0, self.start as int)),
            valid_utf8(self.rope@.subrange(self.end as int, self.rope@.len() as int)),
    {
        self.rope.lemma_valid();
        crate::text::lemma_three(self.rope@, self.start as int, self.end as int);
    }

    pub(crate) fn new(rope: &'a Rope, start: usize, end: usize) -> (r: Slice<'a>)
        requires
            rope.wf(),
            start <= end <= rope@.len(),
            is_char_boundary(rope@, start as int),
            is_char_boundary(rope@, end as int),
        ensures
            r.wf(),
            r@ == rope@.subrange(start as int, end as int),
    {
        Slice { rope, start, end }
    }

    /// The length of the slice in bytes.
    pub fn byte_len(&self) -> (r: usize)
        requires
            self.wf(),
        ensures
            r == self@.len(),
    {
        self.end - self.start
    }

    /// Whether the slice is empty.
    pub fn is_empty(&self) -> (r: bool)
        requires
            self.wf(),
        ensures
            r == (self@.len() == 0),
    {
        self.start == self.end
    }

    /// The number of characters of the slice.
    pub fn char_len(&self) -> (r: usize)
        requires
            self.wf(),
        ensures
            r == decode_utf8(self@).len(),
    {
        let ghost x = self.rope@;
        proof {
            self.lemma_parts();
            crate::node::lemma_mid(
                x.subrange(0, self.start as int),
                self@,
                x.subrange(self.end as int, x.len() as int),
                self@.len() as int,
            );
            assert(self@.subrange(0, self@.len() as int) =~= self@);
        }
        let before = self.rope.chars_before(self.start);
        let upto = self.rope.chars_before(self.end);
        upto - before
    }

    /// Whether `i`, counted from the start of the slice, falls on a
    /// character boundary of the slice (its end included).
    pub fn is_char_boundary(&self, i: usize) -> (r: bool)
        requires
            self.wf(),
        ensures
            r == is_char_boundary(self@, i as int),
    {
        proof {
            self.lemma_parts();
        }
        if i > self.end - self.start {
            false
        } else {
            proof {
                crate::node::lemma_mid(
                    self.rope@.subrange(0, self.start as int),
                    self@,
                    self.rope@.subrange(self.end as int, self.rope@.len() as int),
                    i as int,
                );
            }
            self.rope.is_char_boundary(self.start + i)
        }
    }

    /// The number of characters before the byte index `i` of the slice.
    pub fn char_at_byte(&self, i: usize) -> (r: Result<usize, Error>)
        requires
            self.wf(),
        ensures
            i > self@.len() ==> r == Err::<usize, Error>(Error::OutOfRange),
            i <= self@.len() && !is_char_boundary(self@, i as int) ==> r == Err::<usize, Error>(
                Error::InvalidBoundary,
            ),
            i <= self@.len() && is_char_boundary(self@, i as int) ==> r == Ok::<usize, Error>(
                decode_utf8(self@.subrange(0, i as int)).len() as usize,
            ),
    {
        if i > self.end - self.start {
            return Err(Error::OutOfRange);
        }
        if !self.is_char_boundary(i) {
            return Err(Error::InvalidBoundary);
        }
        let ghost x = self.rope@;
        proof {
            self.lemma_parts();
            crate::node::lemma_mid(
                x.subrange(0, self.start as int),
                self@,
                x.subrange(self.end as int, x.len() as int),
                i as int,
            );
            crate::node::lemma_mid(
                x.subrange(0, self.start as int),
                self@,
                x.subrange(self.end as int, x.len() as int),
                0,
            );
            assert(x.subrange(0, self.start as int) + self@.subrange(0, 0) =~= x.subrange(
                0,
                self.start as int,
            ));
        }
        let before = self.rope.chars_before(self.start);
        let upto = self.rope.chars_before(self.start + i);
        Ok(upto - before)
    }

    /// A cursor on the first chunk of the slice. Its offsets are those of
    /// the rope.
    pub fn cursor_front(&self) -> (r: Cursor<'a>)
        requires
            self.wf(),
        ensures
            r.wf(),
            r.text().subrange(r.lo(), r.hi()) == self@,
            r.spec_chunk_start() == r.lo(),
    {
        Cursor::new(self.rope, self.start, self.end)
    }

    /// A cursor on the last chunk of the slice. Its offsets are those of the
    /// rope.
    pub fn cursor_back(&self) -> (r: Cursor<'a>)
        requires
            self.wf(),
        ensures
            r.wf(),
            r.text().subrange(r.lo(), r.hi()) == self@,
            r.spec_chunk_end() == r.hi(),
    {
        Cursor::new_back(self.rope, self.start, self.end)
    }

    /// The chunks of the slice, front to back.
    pub fn chunks(&self) -> (r: Chunks<'a>)
        requires
            self.wf(),
        ensures
            r.wf(),
            r.rest() == self@,
    {
        Chunks::new(self.rope, self.start, self.end)
    }

    /// The chunks of the slice, back to front.
    pub fn chunks_rev(&self) -> (r: ChunksRev<'a>)
        requires
            self.wf(),
        ensures
            r.wf(),
            r.rest() == self@,
    {
        ChunksRev::new(self.rope, self.start, self.end)
    }

    /// The bytes of the slice, front to back.
    pub fn bytes(&self) -> (r: Bytes<'a>)
        requires
            self.wf(),
        ensures
            r.wf(),
            r.rest() == self@,
    {
        Bytes::new(self.chunks())
    }

    /// The bytes of the slice, back to front.
    pub fn bytes_rev(&self) -> (r: BytesRev<'a>)
        requires
            self.wf(),
        ensures
            r.wf(),
            r.rest() == self@.reverse(),
    {
        BytesRev::new(self.chunks_rev())
    }

    /// The characters of the slice, front to back.
    pub fn chars(&self) -> (r: Chars<'a>)
        requires
            self.wf(),
        ensures
            r.wf(),
            r.rest() == decode_utf8(self@),
    {
        Chars::new(self.chunks())
    }

    /// The characters of the slice, back to front.
    pub fn chars_rev(&self) -> (r: CharsRev<'a>)
        requires
            self.wf(),
        ensures
            r.wf(),
            r.rest() == decode_utf8(self@).reverse(),
    {
        CharsRev::new(self.chunks_rev())
    }
}

} // verus!
