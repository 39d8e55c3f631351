//! A cursor that walks the chunks of a rope, or of a range of it.
//!
//! The cursor keeps the path from the root to its current leaf, so that it
//! moves to a neighbouring leaf by climbing only as far as the nearest
//! ancestor with a sibling on that side.
use crate::leaf::Leaf;
use crate::node::{lemma_nodes_bytes_push, lemma_valid, nodes_bytes, Node};
use crate::path::{
    after, before, descend_to, focus, is_leaf_node, kids, lemma_path, lemma_pop, lemma_push, path_ok, Step,
};
use crate::rope::Rope;
use crate::Error;
use vstd::prelude::*;
use vstd::string::StringSliceAdditionalSpecFns;
use vstd::utf8::*;

verus! {

broadcast use vstd::utf8::group_utf8_lib;

/// The run of a leaf's text that falls between `lo` and `hi`.
#[verifier::spinoff_prover]
fn clip<'a>(x: Ghost<Seq<u8>>, leaf: &'a Leaf, ls: usize, lo: usize, hi: usize) -> (r: (&'a str, usize, usize))
    requires
        valid_utf8(x@),
        x@.len() <= usize::MAX,
        leaf.wf(),
        leaf.bytes().len() > 0,
        ls + leaf.bytes().len() <= x@.len(),
        x@.subrange(ls as int, ls + leaf.bytes().len()) == leaf.bytes(),
        is_char_boundary(x@, ls as int),
        is_char_boundary(x@, ls + leaf.bytes().len()),
        is_char_boundary(x@, lo as int),
        is_char_boundary(x@, hi as int),
        lo < hi,
        ls < hi,
        lo < ls + leaf.bytes().len(),
    ensures
        r.1 == (if ls > lo { ls } else { lo }),
        r.2 == (if ls + leaf.bytes().len() < hi { ls + leaf.bytes().len() } else { hi as int }),
        r.1 < r.2,
        r.0.spec_bytes() == x@.subrange(r.1 as int, r.2 as int),
        is_char_boundary(x@, r.1 as int),
        is_char_boundary(x@, r.2 as int),
{
    let le = ls + leaf.info().byte_len;
    let cs = if ls > lo {
        ls
    } else {
        lo
    };
    let ce = if le < hi {
        le
    } else {
        hi
    };
    proof {
        crate::text::lemma_window(x@, ls as int, le as int, cs as int, ce as int);
    }
    let (head, _) = leaf.as_str().split_at(ce - ls);
    let (_, chunk) = head.split_at(cs - ls);
    (chunk, cs, ce)
}

/// A position in the chunks of a range of a rope. The current chunk is the
/// part of the current leaf that lies in the range; it is empty only at the
/// end of the range.
pub struct Cursor<'a> {
    rope: &'a Rope,
    root: &'a Node,
    height: usize,
    start: usize,
    end: usize,
    path: Vec<Step<'a>>,
    leaf: &'a Leaf,
    leaf_start: usize,
    chunk: &'a str,
    chunk_start: usize,
    chunk_end: usize,
}

impl<'a> Cursor<'a> {
    /// The bytes of the whole rope.
    pub closed spec fn text(&self) -> Seq<u8> {
        self.rope@
    }

    /// The start of the range walked.
    pub closed spec fn lo(&self) -> int {
        self.start as int
    }

    /// The end of the range walked.
    pub closed spec fn hi(&self) -> int {
        self.end as int
    }

    /// Where the current chunk starts.
    pub closed spec fn spec_chunk_start(&self) -> int {
        self.chunk_start as int
    }

    /// Where the current chunk ends.
    pub closed spec fn spec_chunk_end(&self) -> int {
        self.chunk_end as int
    }

    /// The path reaches the current leaf, which starts at `leaf_start`.
    closed spec fn on_leaf(&self) -> bool {
        &&& self.root.wf_at(self.height as nat)
        &&& self.root.bytes_at(self.height as nat) == self.rope@
        &&& path_ok(*self.root, self.height as nat, self.path@)
        &&& self.path@.len() == self.height
        &&& is_leaf_node(focus(*self.root, self.path@), *self.leaf)
        &&& self.leaf_start == before(self.path@).len()
    }

    pub closed spec fn wf(&self) -> bool {
        &&& self.rope.wf()
        &&& self.on_leaf()
        &&& self.start <= self.chunk_start <= self.chunk_end <= self.end <= self.rope@.len()
        &&& is_char_boundary(self.rope@, self.start as int)
        &&& is_char_boundary(self.rope@, self.end as int)
        &&& is_char_boundary(self.rope@, self.chunk_start as int)
        &&& is_char_boundary(self.rope@, self.chunk_end as int)
        &&& self.chunk.spec_bytes() == self.rope@.subrange(
            self.chunk_start as int,
            self.chunk_end as int,
        )
        &&& if self.chunk_start == self.chunk_end {
            &&& self.chunk_end == self.end
            &&& self.start < self.end ==> self.leaf_start < self.end <= self.leaf_start
                + self.leaf.bytes().len()
        } else {
            &&& self.chunk_start == (if self.leaf_start > self.start {
                self.leaf_start
            } else {
                self.start
            })
            &&& self.chunk_end == (if self.leaf_start + self.leaf.bytes().len() < self.end {
                self.leaf_start + self.leaf.bytes().len()
            } else {
                self.end as int
            })
        }
    }

    /// Facts about the current leaf.
    proof fn lemma_leaf(&self)
        requires
            self.rope.wf(),
            self.on_leaf(),
        ensures
            valid_utf8(self.rope@),
            self.leaf.wf(),
            self.leaf_start + self.leaf.bytes().len() <= self.rope@.len(),
            self.rope@.subrange(self.leaf_start as int, self.leaf_start + self.leaf.bytes().len())
                == self.leaf.bytes(),
            is_char_boundary(self.rope@, self.leaf_start as int),
            is_char_boundary(self.rope@, self.leaf_start + self.leaf.bytes().len()),
            self.height > 0 ==> self.leaf.bytes().len() > 0,
            self.rope@.len() > 0 ==> self.leaf.bytes().len() > 0,
            self.rope@.len() <= usize::MAX,
            self.leaf_start + self.leaf.bytes().len() == self.rope@.len() <==> after(self.path@).len() == 0,
            before(self.path@) + self.leaf.bytes() + after(self.path@) == self.rope@,
    {
        let root = *self.root;
        let h = self.height as nat;
        self.rope.lemma_valid();
        lemma_path(root, h, self.path@);
        if self.height == 0 {
            assert(before(self.path@) =~= Seq::<u8>::empty());
            assert(after(self.path@) =~= Seq::<u8>::empty());
        }
        lemma_valid(root, h);
        let b = before(self.path@);
        let l = self.leaf.bytes();
        let a = after(self.path@);
        match focus(root, self.path@) {
            Node::Leaf(x) => {
                assert(focus(root, self.path@).bytes_at(0) == l);
            },
            Node::Branch(_) => {},
        }
        assert(focus(root, self.path@).wf_at(0));
        crate::text::lemma_concat(b, l);
        crate::text::lemma_concat(b + l, a);
        crate::text::lemma_boundary_in_concat(b + l, a, b.len() as int);
        crate::text::lemma_boundary_in_concat(b + l, a, (b.len() + l.len()) as int);
        crate::text::lemma_boundary_in_concat(b, l, b.len() as int);
        assert((b + l + a).subrange(b.len() as int, (b.len() + l.len()) as int) =~= l);
    }

    /// The text of a cursor is valid and its range lies on boundaries.
    pub proof fn lemma_wf(&self)
        requires
            self.wf(),
        ensures
            valid_utf8(self.text()),
            0 <= self.lo() <= self.spec_chunk_start() <= self.spec_chunk_end() <= self.hi()
                <= self.text().len(),
            is_char_boundary(self.text(), self.lo()),
            is_char_boundary(self.text(), self.hi()),
            is_char_boundary(self.text(), self.spec_chunk_start()),
            is_char_boundary(self.text(), self.spec_chunk_end()),
            self.spec_chunk_start() == self.spec_chunk_end() ==> self.spec_chunk_end()
                == self.hi(),
    {
        self.rope.lemma_valid();
    }

    /// A cursor whose leaf is the one where `pos` falls; its chunk is the
    /// part of that leaf within the range, or empty at the end of the range.
    #[verifier::spinoff_prover]
    fn place(rope: &'a Rope, start: usize, end: usize, pos: usize) -> (r: Cursor<'a>)
        requires
            rope.wf(),
            start <= end <= rope@.len(),
            is_char_boundary(rope@, start as int),
            is_char_boundary(rope@, end as int),
            start <= pos <= end,
            start < end ==> pos < end,
        ensures
            r.wf(),
            r.rope == rope,
            r.start == start,
            r.end == end,
            r.leaf_start <= pos < r.leaf_start + r.leaf.bytes().len() || (start == end),
            start < end ==> r.chunk_start < r.chunk_end,
            start == end ==> r.chunk_start == end && r.chunk_end == end,
    {
        let (root, height) = rope.tree();
        let (path, leaf, leaf_start) = descend_to(root, height, pos);
        let mut c = Cursor {
            rope,
            root,
            height,
            start,
            end,
            path,
            leaf,
            leaf_start,
            chunk: "",
            chunk_start: end,
            chunk_end: end,
        };
        proof {
            rope.lemma_valid();
            c.lemma_leaf();
            reveal_strlit("");
            assert(c.chunk.spec_bytes() =~= rope@.subrange(end as int, end as int));
        }
        if start < end {
            let (chunk, cs, ce) = clip(Ghost(rope@), leaf, leaf_start, start, end);
            c.chunk = chunk;
            c.chunk_start = cs;
            c.chunk_end = ce;
        }
        c
    }

    /// A cursor on the first chunk of the range `start..end` of `rope`.
    pub fn new(rope: &'a Rope, start: usize, end: usize) -> (r: Cursor<'a>)
        requires
            rope.wf(),
            start <= end <= rope@.len(),
            is_char_boundary(rope@, start as int),
            is_char_boundary(rope@, end as int),
        ensures
            r.wf(),
            r.text() == rope@,
            r.lo() == start,
            r.hi() == end,
            r.spec_chunk_start() == start,
    {
        Cursor::place(rope, start, end, start)
    }

    /// A cursor on the last chunk of the range `start..end` of `rope`.
    pub fn new_back(rope: &'a Rope, start: usize, end: usize) -> (r: Cursor<'a>)
        requires
            rope.wf(),
            start <= end <= rope@.len(),
            is_char_boundary(rope@, start as int),
            is_char_boundary(rope@, end as int),
        ensures
            r.wf(),
            r.text() == rope@,
            r.lo() == start,
            r.hi() == end,
            r.spec_chunk_end() == end,
            start < end ==> r.spec_chunk_start() < end,
    {
        if start < end {
            Cursor::place(rope, start, end, end - 1)
        } else {
            Cursor::place(rope, start, end, start)
        }
    }

    /// The current chunk.
    pub fn current_chunk(&self) -> (r: &'a str)
        requires
            self.wf(),
        ensures
            r.spec_bytes() == self.text().subrange(self.spec_chunk_start(), self.spec_chunk_end()),
    {
        self.chunk
    }

    pub fn chunk_start(&self) -> (r: usize)
        ensures
            r == self.spec_chunk_start(),
    {
        self.chunk_start
    }

    pub fn chunk_end(&self) -> (r: usize)
        ensures
            r == self.spec_chunk_end(),
    {
        self.chunk_end
    }

    /// Moves to the chunk that holds the byte at `offset`, or past the last
    /// chunk where `offset` is the end of the range.
    pub fn seek(&mut self, offset: usize) -> (r: Result<(), Error>)
        requires
            old(self).wf(),
        ensures
            final(self).wf(),
            final(self).text() == old(self).text(),
            final(self).lo() == old(self).lo(),
            final(self).hi() == old(self).hi(),
            r is Ok <==> old(self).lo() <= offset <= old(self).hi(),
            r is Err ==> r->Err_0 == Error::OutOfRange && *final(self) == *old(self),
            r is Ok && offset < old(self).hi() ==> final(self).spec_chunk_start() <= offset
                < final(self).spec_chunk_end(),
            r is Ok && offset == old(self).hi() ==> final(self).spec_chunk_start() == offset
                && final(self).spec_chunk_end() == offset,
    {
        if offset < self.start || offset > self.end {
            return Err(Error::OutOfRange);
        }
        if offset < self.end {
            *self = Cursor::place(self.rope, self.start, self.end, offset);
        } else {
            let mut c = if self.start < self.end {
                Cursor::place(self.rope, self.start, self.end, self.end - 1)
            } else {
                Cursor::place(self.rope, self.start, self.end, self.end)
            };
            let chunk = "";
            proof {
                reveal_strlit("");
                assert(chunk.spec_bytes() =~= c.rope@.subrange(c.end as int, c.end as int));
            }
            c.chunk = chunk;
            c.chunk_start = c.end;
            c.chunk_end = c.end;
            *self = c;
        }
        Ok(())
    }

    /// Moves to the next leaf, which starts where the current one ends.
    #[verifier::spinoff_prover]
    fn next_leaf(&mut self)
        requires
            old(self).rope.wf(),
            old(self).on_leaf(),
            old(self).leaf_start + old(self).leaf.bytes().len() < old(self).rope@.len(),
        ensures
            final(self).on_leaf(),
            final(self).rope == old(self).rope,
            final(self).start == old(self).start,
            final(self).end == old(self).end,
            final(self).leaf_start == old(self).leaf_start + old(self).leaf.bytes().len(),
            final(self).leaf.bytes().len() > 0,
    {
        proof {
            self.lemma_leaf();
        }
        let ghost root = *self.root;
        let ghost hh = self.height as nat;
        let ghost old_after = after(self.path@);
        let ghost old_end = self.leaf_start + self.leaf.bytes().len();
        let ghost old_self = *self;
        proof {
            lemma_path(root, hh, self.path@);
        }
        loop
            invariant
                self.rope == old_self.rope,
                self.root == old_self.root,
                self.height == old_self.height,
                self.start == old_self.start,
                self.end == old_self.end,
                self.leaf_start == old_self.leaf_start,
                self.leaf == old_self.leaf,
                root == *self.root,
                hh == self.height,
                root.wf_at(hh),
                path_ok(root, hh, self.path@),
                after(self.path@) == old_after,
                old_after.len() > 0,
                before(self.path@).len() + focus(root, self.path@).bytes_at(
                    (hh - self.path@.len()) as nat,
                ).len() == old_end,
            ensures
                path_ok(root, hh, self.path@),
                self.path@.len() > 0,
                self.path@.last().index + 1 < kids(*self.path@.last().node).len(),
                before(self.path@).len() + focus(root, self.path@).bytes_at(
                    (hh - self.path@.len()) as nat,
                ).len() == old_end,
            decreases self.path@.len(),
        {
            let n = self.path.len();
            if n == 0 {
                proof {
                    assert(false);
                }
            }
            let s = self.path[n - 1];
            proof {
                assert(s == self.path@.last());
                lemma_pop(root, hh, self.path@);
            }
            let count = s.node.children(s.height).len();
            if s.index + 1 < count {
                break;
            }
            let ghost p = self.path@;
            self.path.pop();
            proof {
                assert(self.path@ == p.drop_last());
                let k = kids(*s.node);
                assert(k.subrange(s.index + 1, k.len() as int) =~= Seq::<Node>::empty());
                assert(nodes_bytes(Seq::<Node>::empty(), (s.height - 1) as nat) =~= Seq::<u8>::empty());
                assert(after(p) =~= after(self.path@));
            }
        }
        let n = self.path.len();
        let s = self.path[n - 1];
        let ghost p = self.path@;
        proof {
            assert(s == p.last());
            lemma_pop(root, hh, p);
        }
        let children = s.node.children(s.height);
        let t = Step { node: s.node, index: s.index + 1, height: s.height };
        self.path.pop();
        proof {
            lemma_push(root, hh, p.drop_last(), t);
            let k = kids(*s.node);
            lemma_nodes_bytes_push(k.subrange(0, s.index as int), k[s.index as int], (s.height - 1) as nat);
            assert(k.subrange(0, s.index as int).push(k[s.index as int]) =~= k.subrange(0, s.index + 1));
        }
        self.path.push(t);
        let mut node: &'a Node = &children[s.index + 1];
        let mut h = s.height - 1;
        proof {
            assert(self.path@ == p.drop_last().push(t));
        }
        while h > 0
            invariant
                self.rope == old_self.rope,
                self.root == old_self.root,
                self.height == old_self.height,
                self.start == old_self.start,
                self.end == old_self.end,
                self.leaf_start == old_self.leaf_start,
                self.leaf == old_self.leaf,
                root == *self.root,
                hh == self.height,
                root.wf_at(hh),
                path_ok(root, hh, self.path@),
                *node == focus(root, self.path@),
                h == hh - self.path@.len(),
                node.wf_at(h as nat),
                before(self.path@).len() == old_end,
                self.path@.len() > 0,
            decreases h,
        {
            let step = Step { node, index: 0, height: h };
            let ghost q = self.path@;
            proof {
                lemma_push(root, hh, q, step);
                assert(kids(*node).subrange(0, 0) =~= Seq::<Node>::empty());
                assert(nodes_bytes(Seq::<Node>::empty(), (h - 1) as nat) =~= Seq::<u8>::empty());
                assert(before(q.push(step)) =~= before(q));
            }
            self.path.push(step);
            node = &node.children(h)[0];
            h = h - 1;
        }
        proof {
            lemma_path(root, hh, self.path@);
        }
        let leaf = node.as_leaf();
        self.leaf_start = self.leaf_start + self.leaf.info().byte_len;
        self.leaf = leaf;
    }

    /// Moves to the previous leaf, which ends where the current one starts.
    #[verifier::spinoff_prover]
    fn prev_leaf(&mut self)
        requires
            old(self).rope.wf(),
            old(self).on_leaf(),
            old(self).leaf_start > 0,
        ensures
            final(self).on_leaf(),
            final(self).rope == old(self).rope,
            final(self).start == old(self).start,
            final(self).end == old(self).end,
            final(self).leaf_start + final(self).leaf.bytes().len() == old(self).leaf_start,
            final(self).leaf.bytes().len() > 0,
    {
        proof {
            self.lemma_leaf();
        }
        let ghost root = *self.root;
        let ghost hh = self.height as nat;
        let ghost old_before = before(self.path@);
        let ghost old_self = *self;
        loop
            invariant
                self.rope == old_self.rope,
                self.root == old_self.root,
                self.height == old_self.height,
                self.start == old_self.start,
                self.end == old_self.end,
                self.leaf_start == old_self.leaf_start,
                self.leaf == old_self.leaf,
                root == *self.root,
                hh == self.height,
                root.wf_at(hh),
                path_ok(root, hh, self.path@),
                before(self.path@) == old_before,
                old_before.len() > 0,
            ensures
                path_ok(root, hh, self.path@),
                self.path@.len() > 0,
                self.path@.last().index > 0,
                before(self.path@) == old_before,
            decreases self.path@.len(),
        {
            let n = self.path.len();
            if n == 0 {
                proof {
                    assert(false);
                }
            }
            let s = self.path[n - 1];
            proof {
                assert(s == self.path@.last());
                lemma_pop(root, hh, self.path@);
            }
            if s.index > 0 {
                break;
            }
            let ghost p = self.path@;
            self.path.pop();
            proof {
                assert(self.path@ == p.drop_last());
                assert(kids(*s.node).subrange(0, 0) =~= Seq::<Node>::empty());
                assert(nodes_bytes(Seq::<Node>::empty(), (s.height - 1) as nat) =~= Seq::<u8>::empty());
                assert(before(p) =~= before(self.path@));
            }
        }
        let n = self.path.len();
        let s = self.path[n - 1];
        let ghost p = self.path@;
        proof {
            assert(s == p.last());
            lemma_pop(root, hh, p);
        }
        let children = s.node.children(s.height);
        let t = Step { node: s.node, index: s.index - 1, height: s.height };
        self.path.pop();
        proof {
            lemma_push(root, hh, p.drop_last(), t);
            let k = kids(*s.node);
            lemma_nodes_bytes_push(k.subrange(0, s.index - 1), k[s.index - 1], (s.height - 1) as nat);
            assert(k.subrange(0, s.index - 1).push(k[s.index - 1]) =~= k.subrange(0, s.index as int));
        }
        self.path.push(t);
        let mut node: &'a Node = &children[s.index - 1];
        let mut h = s.height - 1;
        proof {
            assert(self.path@ == p.drop_last().push(t));
        }
        while h > 0
            invariant
                self.rope == old_self.rope,
                self.root == old_self.root,
                self.height == old_self.height,
                self.start == old_self.start,
                self.end == old_self.end,
                self.leaf_start == old_self.leaf_start,
                self.leaf == old_self.leaf,
                root == *self.root,
                hh == self.height,
                root.wf_at(hh),
                path_ok(root, hh, self.path@),
                *node == focus(root, self.path@),
                h == hh - self.path@.len(),
                node.wf_at(h as nat),
                before(self.path@).len() + node.bytes_at(h as nat).len() == old_before.len(),
                self.path@.len() > 0,
            decreases h,
        {
            let cs = node.children(h);
            let last = cs.len() - 1;
            let step = Step { node, index: last, height: h };
            let ghost q = self.path@;
            proof {
                lemma_push(root, hh, q, step);
                crate::node::lemma_nodes_ends(cs@, (h - 1) as nat);
            }
            self.path.push(step);
            node = &cs[last];
            h = h - 1;
        }
        proof {
            lemma_path(root, hh, self.path@);
        }
        let leaf = node.as_leaf();
        self.leaf_start = self.leaf_start - leaf.info().byte_len;
        self.leaf = leaf;
    }

    /// Moves to the next chunk; fails where the current one is the last.
    pub fn advance_chunk(&mut self) -> (r: bool)
        requires
            old(self).wf(),
        ensures
            final(self).wf(),
            final(self).text() == old(self).text(),
            final(self).lo() == old(self).lo(),
            final(self).hi() == old(self).hi(),
            r == (old(self).spec_chunk_end() < old(self).hi()),
            !r ==> *final(self) == *old(self),
            r ==> final(self).spec_chunk_start() == old(self).spec_chunk_end()
                && final(self).spec_chunk_start() < final(self).spec_chunk_end(),
    {
        if self.chunk_end >= self.end {
            return false;
        }
        proof {
            self.lemma_leaf();
        }
        self.next_leaf();
        proof {
            self.lemma_leaf();
        }
        let (chunk, cs, ce) = clip(Ghost(self.rope@), self.leaf, self.leaf_start, self.start, self.end);
        self.chunk = chunk;
        self.chunk_start = cs;
        self.chunk_end = ce;
        true
    }

    /// Moves to the previous chunk; fails where the current one is the
    /// first.
    pub fn retreat_chunk(&mut self) -> (r: bool)
        requires
            old(self).wf(),
        ensures
            final(self).wf(),
            final(self).text() == old(self).text(),
            final(self).lo() == old(self).lo(),
            final(self).hi() == old(self).hi(),
            r == (old(self).lo() < old(self).spec_chunk_start()),
            !r ==> *final(self) == *old(self),
            r ==> final(self).spec_chunk_end() == old(self).spec_chunk_start()
                && final(self).spec_chunk_start() < final(self).spec_chunk_end(),
    {
        if self.chunk_start <= self.start {
            return false;
        }
        proof {
            self.lemma_leaf();
        }
        if self.chunk_start < self.chunk_end {
            self.prev_leaf();
            proof {
                self.lemma_leaf();
            }
        }
        let (chunk, cs, ce) = clip(Ghost(self.rope@), self.leaf, self.leaf_start, self.start, self.end);
        self.chunk = chunk;
        self.chunk_start = cs;
        self.chunk_end = ce;
        true
    }
}

} // verus!
