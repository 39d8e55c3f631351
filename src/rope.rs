//! The rope: a balanced tree of text with cheap splitting and joining.
use crate::bytes::{Bytes, BytesRev};
use crate::chars::{Chars, CharsRev};
use crate::chunks::{Chunks, ChunksRev};
use crate::cursor::Cursor;
use crate::join::{join, max_nat};
use crate::leaf::Leaf;
use crate::node::{
    full_nodes, lemma_full_len, lemma_nodes_bytes_concat, lemma_nodes_bytes_one, lemma_nodes_bytes_push,
    lemma_valid, lemma_valid_nodes, new_branch, nodes_bytes, wf_nodes, Node,
};
use crate::path::{
    after, before, descend_to, focus, lemma_after_step, lemma_before_grows, lemma_before_step,
    lemma_path, lemma_path_full, path_ok, Step,
};
use crate::slice::Slice;
use crate::text::lemma_prefix;
use crate::{first_index, past_index, range_bounds_to_range, Bound, Error};
use std::ops::Range;
use std::rc::Rc;
use vstd::prelude::*;
use vstd::string::StringSliceAdditionalSpecFns;
use vstd::utf8::*;

verus! {

broadcast use vstd::utf8::group_utf8_lib;

/// A text held as a balanced tree of UTF-8 leaves. Clones, splits and
/// joins share the nodes that they do not change.
#[derive(Clone)]
pub struct Rope {
    height: usize,
    root: Node,
}

impl View for Rope {
    type V = Seq<u8>;

    /// The UTF-8 bytes of the text.
    closed spec fn view(&self) -> Seq<u8> {
        self.root.bytes_at(self.height as nat)
    }
}

impl Rope {
    /// The tree is well formed: its leaves all lie at the same depth, every
    /// node below the root holds at least the minimum and at most the
    /// maximum, and the tree is no taller than its text is long.
    pub closed spec fn wf(&self) -> bool {
        &&& self.root.wf_at(self.height as nat)
        &&& self.root.root_ok(self.height as nat)
        &&& self.height > 0 ==> self.height < self@.len()
    }

    /// The text of a well-formed rope is valid UTF-8.
    pub proof fn lemma_valid(&self)
        requires
            self.wf(),
        ensures
            valid_utf8(self@),
            self@.len() <= usize::MAX,
    {
        lemma_valid(self.root, self.height as nat);
        if self.height > 0 {
            match self.root {
                Node::Branch(b) => {},
                Node::Leaf(_) => {},
            }
        }
    }

    /// The empty rope: a single empty leaf.
    pub fn empty() -> (r: Rope)
        ensures
            r.wf(),
            r@ == Seq::<u8>::empty(),
    {
        Rope { height: 0, root: Node::Leaf(Rc::new(Leaf::empty())) }
    }

    /// A rope over a tree whose nodes below the root hold the minimum.
    pub(crate) fn from_parts(root: Node, height: usize) -> (r: Rope)
        requires
            root.wf_at(height as nat),
            root.root_ok(height as nat),
            height > 0 ==> height < root.bytes_at(height as nat).len(),
        ensures
            r.wf(),
            r@ == root.bytes_at(height as nat),
    {
        Rope { height, root }
    }

    /// A rope over a subtree all of whose nodes hold the minimum.
    fn from_full(node: &Node, height: usize) -> (r: Rope)
        requires
            node.wf_at(height as nat),
            node.full_at(height as nat),
        ensures
            r.wf(),
            r@ == node.bytes_at(height as nat),
    {
        proof {
            lemma_full_len(*node, height as nat);
            match *node {
                Node::Branch(_) => {},
                Node::Leaf(_) => {},
            }
        }
        Rope { height, root: node.share() }
    }

    /// A rope of a single leaf.
    pub(crate) fn from_leaf(leaf: Leaf) -> (r: Rope)
        requires
            leaf.wf(),
        ensures
            r.wf(),
            r@ == leaf.bytes(),
    {
        Rope { height: 0, root: Node::Leaf(Rc::new(leaf)) }
    }

    /// The length of the text in bytes.
    pub fn byte_len(&self) -> (r: usize)
        requires
            self.wf(),
        ensures
            r == self@.len(),
    {
        self.root.info(self.height).byte_len
    }

    /// The number of characters of the text.
    pub fn char_len(&self) -> (r: usize)
        requires
            self.wf(),
        ensures
            r == decode_utf8(self@).len(),
    {
        self.root.info(self.height).char_len
    }

    /// Whether the text is empty.
    pub fn is_empty(&self) -> (r: bool)
        requires
            self.wf(),
        ensures
            r == (self@.len() == 0),
    {
        self.byte_len() == 0
    }

    /// Whether `i` falls on a character boundary of the text (the end
    /// included).
    pub fn is_char_boundary(&self, i: usize) -> (r: bool)
        requires
            self.wf(),
        ensures
            r == is_char_boundary(self@, i as int),
    {
        proof {
            self.lemma_valid();
        }
        if i > self.byte_len() {
            false
        } else {
            self.root.is_char_boundary(self.height, i)
        }
    }

    /// The number of characters before the byte index `i`.
    pub fn char_at_byte(&self, i: usize) -> (r: Result<usize, Error>)
        requires
            self.wf(),
        ensures
            i > self@.len() ==> r == Err::<usize, Error>(Error::OutOfRange),
            i <= self@.len() && !is_char_boundary(self@, i as int) ==> r == Err::<usize, Error>(
                Error::InvalidBoundary,
            ),
            i <= self@.len() && is_char_boundary(self@, i as int) ==> r == Ok::<usize, Error>(
                decode_utf8(self@.subrange(0, i as int)).len() as usize,
            ),
    {
        if i > self.byte_len() {
            Err(Error::OutOfRange)
        } else if !self.is_char_boundary(i) {
            Err(Error::InvalidBoundary)
        } else {
            Ok(self.root.char_at_byte(self.height, i))
        }
    }

    /// Another rope over the same nodes.
    pub fn share(&self) -> (r: Rope)
        ensures
            r == *self,
    {
        Rope { height: self.height, root: self.root.share() }
    }

    /// Places the text of `other` after that of `self`.
    #[verifier::spinoff_prover]
    pub fn append(&mut self, other: Rope)
        requires
            old(self).wf(),
            other.wf(),
            old(self)@.len() + other@.len() <= usize::MAX,
        ensures
            final(self).wf(),
            final(self)@ == old(self)@ + other@,
    {
        if other.is_empty() {
            proof {
                assert(self@ + other@ =~= self@);
            }
            return;
        }
        if self.is_empty() {
            proof {
                assert(self@ + other@ =~= other@);
            }
            *self = other;
            return;
        }
        let ha = self.height;
        let hb = other.height;
        let r = join(&self.root, ha, &other.root, hb);
        let h = if ha >= hb {
            ha
        } else {
            hb
        };
        proof {
            assert(h as nat == max_nat(ha as nat, hb as nat));
            lemma_valid_nodes(r@, h as nat);
        }
        if r.len() == 1 {
            proof {
                assert(r@ =~= seq![r@[0]]);
                lemma_nodes_bytes_one(r@[0], h as nat);
            }
            self.root = r[0].share();
            self.height = h;
        } else {
            self.root = new_branch(r, h);
            self.height = h + 1;
        }
    }

    /// Appends the subtrees `nodes[from..to]`, all of which hold the
    /// minimum.
    #[verifier::spinoff_prover]
    fn append_nodes(&mut self, nodes: &Vec<Node>, h: usize, from: usize, to: usize)
        requires
            old(self).wf(),
            from <= to <= nodes@.len(),
            wf_nodes(nodes@, h as nat),
            full_nodes(nodes@, h as nat),
            old(self)@.len() + nodes_bytes(nodes@.subrange(from as int, to as int), h as nat).len()
                <= usize::MAX,
        ensures
            final(self).wf(),
            final(self)@ == old(self)@ + nodes_bytes(nodes@.subrange(from as int, to as int), h as nat),
    {
        let ghost start = self@;
        let ghost k = nodes@;
        let ghost hk = h as nat;
        let mut j = from;
        proof {
            assert(k.subrange(from as int, from as int) =~= Seq::<Node>::empty());
            assert(start + nodes_bytes(Seq::<Node>::empty(), hk) =~= start);
        }
        while j < to
            invariant
                k == nodes@,
                hk == h,
                from <= j <= to <= k.len(),
                wf_nodes(k, hk),
                full_nodes(k, hk),
                self.wf(),
                self@ == start + nodes_bytes(k.subrange(from as int, j as int), hk),
                start.len() + nodes_bytes(k.subrange(from as int, to as int), hk).len() <= usize::MAX,
            decreases to - j,
        {
            let piece = Rope::from_full(&nodes[j], h);
            proof {
                lemma_nodes_bytes_push(k.subrange(from as int, j as int), k[j as int], hk);
                assert(k.subrange(from as int, j as int).push(k[j as int]) =~= k.subrange(from as int, j + 1));
                assert(k.subrange(from as int, to as int) =~= k.subrange(from as int, j + 1) + k.subrange(j + 1, to as int));
                lemma_nodes_bytes_concat(k.subrange(from as int, j + 1), k.subrange(j + 1, to as int), hk);
            }
            self.append(piece);
            proof {
                assert(self@ =~= start + nodes_bytes(k.subrange(from as int, j + 1), hk));
            }
            j = j + 1;
        }
    }

    /// The rope of the text before the boundary `i`: the subtrees to the
    /// left of the path down to `i`, appended top to bottom, then the part of
    /// the leaf before `i`. Those subtrees are shared, not copied.
    #[verifier::spinoff_prover]
    fn prefix(&self, i: usize) -> (r: Rope)
        requires
            self.wf(),
            is_char_boundary(self@, i as int),
        ensures
            r.wf(),
            r@ == self@.subrange(0, i as int),
    {
        proof {
            self.lemma_valid();
            lemma_prefix(self@, i as int);
        }
        if i == self.byte_len() {
            proof {
                assert(self@.subrange(0, i as int) =~= self@);
            }
            return self.share();
        }
        let (path, leaf, ls) = descend_to(&self.root, self.height, i);
        let ghost root = self.root;
        let ghost hh = self.height as nat;
        let ghost p = path@;
        let ghost text = self@;
        proof {
            lemma_path(root, hh, p);
            match focus(root, p) {
                Node::Leaf(x) => {},
                Node::Branch(_) => {},
            }
            assert(text == before(p) + leaf.bytes() + after(p));
        }
        let mut out = Rope::empty();
        let mut d: usize = 0;
        proof {
            assert(p.subrange(0, 0) =~= Seq::<Step>::empty());
        }
        while d < path.len()
            invariant
                path@ == p,
                root == self.root,
                hh == self.height,
                self.wf(),
                text == self@,
                root.wf_at(hh),
                root.root_ok(hh),
                path_ok(root, hh, p),
                text == before(p) + leaf.bytes() + after(p),
                text.len() <= usize::MAX,
                d <= p.len(),
                out.wf(),
                out@ == before(p.subrange(0, d as int)),
            decreases p.len() - d,
        {
            let step = path[d];
            let kids_d = step.node.children(step.height);
            let ghost hk = (step.height - 1) as nat;
            proof {
                lemma_path_full(root, hh, p, d as int);
                lemma_before_step(p, d as int);
                lemma_before_grows(p, d + 1);
            }
            out.append_nodes(kids_d, step.height - 1, 0, step.index);
            d = d + 1;
        }
        proof {
            assert(p.subrange(0, p.len() as int) =~= p);
            crate::text::lemma_concat(before(p), leaf.bytes());
            crate::text::lemma_concat(before(p) + leaf.bytes(), after(p));
            crate::text::lemma_boundary_in_concat(before(p) + leaf.bytes(), after(p), i as int);
            crate::text::lemma_boundary_in_concat(before(p), leaf.bytes(), i as int);
        }
        let (head, _tail) = leaf.split(i - ls);
        let last = Rope::from_leaf(head);
        proof {
            assert(text.subrange(0, i as int) =~= before(p) + leaf.bytes().subrange(0, i - ls));
        }
        out.append(last);
        out
    }

    /// The rope of the text from the boundary `i` on: the part of the leaf
    /// after `i`, then the subtrees to the right of the path down to `i`,
    /// appended bottom to top.
    #[verifier::spinoff_prover]
    #[verifier::rlimit(30)]
    fn suffix(&self, i: usize) -> (r: Rope)
        requires
            self.wf(),
            is_char_boundary(self@, i as int),
        ensures
            r.wf(),
            r@ == self@.subrange(i as int, self@.len() as int),
    {
        proof {
            self.lemma_valid();
            lemma_prefix(self@, i as int);
        }
        if i == self.byte_len() {
            proof {
                assert(self@.subrange(i as int, i as int) =~= Seq::<u8>::empty());
            }
            return Rope::empty();
        }
        let (path, leaf, ls) = descend_to(&self.root, self.height, i);
        let ghost root = self.root;
        let ghost hh = self.height as nat;
        let ghost p = path@;
        let ghost text = self@;
        proof {
            lemma_path(root, hh, p);
            match focus(root, p) {
                Node::Leaf(x) => {},
                Node::Branch(_) => {},
            }
            assert(text == before(p) + leaf.bytes() + after(p));
            crate::text::lemma_concat(before(p), leaf.bytes());
            crate::text::lemma_concat(before(p) + leaf.bytes(), after(p));
            crate::text::lemma_boundary_in_concat(before(p) + leaf.bytes(), after(p), i as int);
            crate::text::lemma_boundary_in_concat(before(p), leaf.bytes(), i as int);
        }
        let (_head, tail) = leaf.split(i - ls);
        let ghost t = tail.bytes();
        let mut out = Rope::from_leaf(tail);
        let mut d: usize = path.len();
        proof {
            assert(p.subrange(0, p.len() as int) =~= p);
        }
        while d > 0
            invariant
                path@ == p,
                root == self.root,
                hh == self.height,
                root.wf_at(hh),
                root.root_ok(hh),
                path_ok(root, hh, p),
                (t + after(p)).len() <= usize::MAX,
                d <= p.len(),
                out.wf(),
                out@ + after(p.subrange(0, d as int)) == t + after(p),
            decreases d,
        {
            let step = path[d - 1];
            let kids_d = step.node.children(step.height);
            let n = kids_d.len();
            let ghost hk = (step.height - 1) as nat;
            let ghost k = kids_d@;
            let ghost rest = after(p.subrange(0, d - 1));
            let ghost start = out@;
            let ghost x = nodes_bytes(k.subrange(step.index + 1, n as int), hk);
            proof {
                lemma_path_full(root, hh, p, d - 1);
                lemma_after_step(p, d as int);
                lemma_regroup(start, x, rest, t + after(p));
            }
            out.append_nodes(kids_d, step.height - 1, step.index + 1, n);
            d = d - 1;
        }
        proof {
            assert(p.subrange(0, 0) =~= Seq::<Step>::empty());
            assert(out@ + Seq::<u8>::empty() =~= out@);
            assert(text.subrange(i as int, text.len() as int) =~= t + after(p));
        }
        out
    }

    /// Cuts the text at the byte index `i`: `self` keeps what comes before,
    /// the returned rope holds what comes after. An index that is past the
    /// end or inside a character is refused, and `self` is left as it was.
    pub fn split_off(&mut self, i: usize) -> (r: Result<Rope, Error>)
        requires
            old(self).wf(),
        ensures
            final(self).wf(),
            !is_char_boundary(old(self)@, i as int) ==> r is Err && r->Err_0
                == Error::InvalidBoundary && *final(self) == *old(self),
            is_char_boundary(old(self)@, i as int) ==> r is Ok && r->Ok_0.wf() && final(self)@
                == old(self)@.subrange(0, i as int) && r->Ok_0@ == old(self)@.subrange(
                i as int,
                old(self)@.len() as int,
            ),
    {
        if !self.is_char_boundary(i) {
            return Err(Error::InvalidBoundary);
        }
        let b = self.suffix(i);
        *self = self.prefix(i);
        Ok(b)
    }

    /// Removes the text before the byte index `i`. An index that is past the
    /// end or inside a character is refused, and `self` is left as it was.
    pub fn truncate_front(&mut self, i: usize) -> (r: Result<(), Error>)
        requires
            old(self).wf(),
        ensures
            final(self).wf(),
            !is_char_boundary(old(self)@, i as int) ==> r == Err::<(), Error>(
                Error::InvalidBoundary,
            ) && *final(self) == *old(self),
            is_char_boundary(old(self)@, i as int) ==> r == Ok::<(), Error>(()) && final(self)@
                == old(self)@.subrange(i as int, old(self)@.len() as int),
    {
        if !self.is_char_boundary(i) {
            return Err(Error::InvalidBoundary);
        }
        *self = self.suffix(i);
        Ok(())
    }

    /// Removes the text from the byte index `i` on. An index that is past
    /// the end or inside a character is refused, and `self` is left as it
    /// was.
    pub fn truncate_back(&mut self, i: usize) -> (r: Result<(), Error>)
        requires
            old(self).wf(),
        ensures
            final(self).wf(),
            !is_char_boundary(old(self)@, i as int) ==> r == Err::<(), Error>(
                Error::InvalidBoundary,
            ) && *final(self) == *old(self),
            is_char_boundary(old(self)@, i as int) ==> r == Ok::<(), Error>(()) && final(self)@
                == old(self)@.subrange(0, i as int),
    {
        if !self.is_char_boundary(i) {
            return Err(Error::InvalidBoundary);
        }
        *self = self.prefix(i);
        Ok(())
    }
}

impl Rope {
    /// The root of the tree and its height.
    pub(crate) fn tree(&self) -> (r: (&Node, usize))
        requires
            self.wf(),
        ensures
            r.0.wf_at(r.1 as nat),
            r.0.bytes_at(r.1 as nat) == self@,
    {
        (&self.root, self.height)
    }

    /// The number of characters before the boundary `i`.
    pub(crate) fn chars_before(&self, i: usize) -> (r: usize)
        requires
            self.wf(),
            is_char_boundary(self@, i as int),
        ensures
            r == decode_utf8(self@.subrange(0, i as int)).len(),
    {
        self.root.char_at_byte(self.height, i)
    }

    /// A cursor on the first chunk of the text.
    pub fn cursor_front(&self) -> (r: Cursor<'_>)
        requires
            self.wf(),
        ensures
            r.wf(),
            r.text() == self@,
            r.lo() == 0,
            r.hi() == self@.len(),
            r.spec_chunk_start() == 0,
    {
        proof {
            self.lemma_valid();
        }
        Cursor::new(self, 0, self.byte_len())
    }

    /// A cursor on the last chunk of the text.
    pub fn cursor_back(&self) -> (r: Cursor<'_>)
        requires
            self.wf(),
        ensures
            r.wf(),
            r.text() == self@,
            r.lo() == 0,
            r.hi() == self@.len(),
            r.spec_chunk_end() == self@.len(),
    {
        proof {
            self.lemma_valid();
        }
        Cursor::new_back(self, 0, self.byte_len())
    }

    /// The chunks of the text, front to back.
    pub fn chunks(&self) -> (r: Chunks<'_>)
        requires
            self.wf(),
        ensures
            r.wf(),
            r.rest() == self@,
    {
        proof {
            self.lemma_valid();
            assert(self@.subrange(0, self@.len() as int) =~= self@);
        }
        Chunks::new(self, 0, self.byte_len())
    }

    /// The chunks of the text, back to front.
    pub fn chunks_rev(&self) -> (r: ChunksRev<'_>)
        requires
            self.wf(),
        ensures
            r.wf(),
            r.rest() == self@,
    {
        proof {
            self.lemma_valid();
            assert(self@.subrange(0, self@.len() as int) =~= self@);
        }
        ChunksRev::new(self, 0, self.byte_len())
    }

    /// The bytes of the text, front to back.
    pub fn bytes(&self) -> (r: Bytes<'_>)
        requires
            self.wf(),
        ensures
            r.wf(),
            r.rest() == self@,
    {
        Bytes::new(self.chunks())
    }

    /// The bytes of the text, back to front.
    pub fn bytes_rev(&self) -> (r: BytesRev<'_>)
        requires
            self.wf(),
        ensures
            r.wf(),
            r.rest() == self@.reverse(),
    {
        BytesRev::new(self.chunks_rev())
    }

    /// The characters of the text, front to back.
    pub fn chars(&self) -> (r: Chars<'_>)
        requires
            self.wf(),
        ensures
            r.wf(),
            r.rest() == decode_utf8(self@),
    {
        Chars::new(self.chunks())
    }

    /// The characters of the text, back to front.
    pub fn chars_rev(&self) -> (r: CharsRev<'_>)
        requires
            self.wf(),
        ensures
            r.wf(),
            r.rest() == decode_utf8(self@).reverse(),
    {
        CharsRev::new(self.chunks_rev())
    }

    /// A view of the text in the byte range `range`, sharing the rope's
    /// nodes.
    pub fn slice(&self, range: Range<usize>) -> (r: Result<Slice<'_>, Error>)
        requires
            self.wf(),
        ensures
            (range.start > range.end || range.end > self@.len()) ==> r == Err::<Slice<'_>, Error>(
                Error::OutOfRange,
            ),
            range.start <= range.end <= self@.len() && !(is_char_boundary(
                self@,
                range.start as int,
            ) && is_char_boundary(self@, range.end as int)) ==> r == Err::<Slice<'_>, Error>(
                Error::InvalidBoundary,
            ),
            range.start <= range.end <= self@.len() && is_char_boundary(self@, range.start as int)
                && is_char_boundary(self@, range.end as int) ==> r is Ok && r->Ok_0.wf()
                && r->Ok_0@ == self@.subrange(range.start as int, range.end as int),
    {
        if range.start > range.end || range.end > self.byte_len() {
            return Err(Error::OutOfRange);
        }
        if !self.is_char_boundary(range.start) || !self.is_char_boundary(range.end) {
            return Err(Error::InvalidBoundary);
        }
        Ok(Slice::new(self, range.start, range.end))
    }
}

impl Rope {
    /// A view of the text between the ends `start` and `end`.
    pub fn slice_bounds(&self, start: Bound, end: Bound) -> (r: Result<Slice<'_>, Error>)
        requires
            self.wf(),
        ensures
            !(0 <= first_index(start) <= past_index(end, self@.len() as int) <= self@.len())
                ==> r == Err::<Slice<'_>, Error>(Error::OutOfRange),
            0 <= first_index(start) <= past_index(end, self@.len() as int) <= self@.len() && !(
            is_char_boundary(self@, first_index(start)) && is_char_boundary(
                self@,
                past_index(end, self@.len() as int),
            )) ==> r == Err::<Slice<'_>, Error>(Error::InvalidBoundary),
            0 <= first_index(start) <= past_index(end, self@.len() as int) <= self@.len()
                && is_char_boundary(self@, first_index(start)) && is_char_boundary(
                self@,
                past_index(end, self@.len() as int),
            ) ==> r is Ok && r->Ok_0.wf() && r->Ok_0@ == self@.subrange(
                first_index(start),
                past_index(end, self@.len() as int),
            ),
    {
        let range = range_bounds_to_range(start, end, self.byte_len())?;
        self.slice(range)
    }
}

/// Appending a rope and then splitting at the old end gives back both texts:
/// the old end is a character boundary of the joined text, and on either side
/// of it lies the text of each rope.
pub proof fn lemma_append_then_split_off(a: Rope, b: Rope)
    requires
        a.wf(),
        b.wf(),
    ensures
        is_char_boundary(a@ + b@, a@.len() as int),
        (a@ + b@).subrange(0, a@.len() as int) == a@,
        (a@ + b@).subrange(a@.len() as int, (a@ + b@).len() as int) == b@,
{
    a.lemma_valid();
    b.lemma_valid();
    crate::text::lemma_concat(a@, b@);
}

/// Splitting at a character boundary and appending the second part back
/// gives the text that was split.
pub proof fn lemma_split_off_then_append(a: Rope, i: int)
    requires
        a.wf(),
        is_char_boundary(a@, i),
    ensures
        a@.subrange(0, i) + a@.subrange(i, a@.len() as int) == a@,
{
    a.lemma_valid();
    lemma_prefix(a@, i);
    assert(a@.subrange(0, i) + a@.subrange(i, a@.len() as int) =~= a@);
}

/// The rope of a string holds the string's characters: its character count
/// is theirs.
pub proof fn lemma_from_chars(s: &str)
    ensures
        decode_utf8(s.spec_bytes()) == s@,
        valid_utf8(s.spec_bytes()),
{
}

/// Regrouping a concatenation of three pieces.
proof fn lemma_regroup(a: Seq<u8>, x: Seq<u8>, r: Seq<u8>, g: Seq<u8>)
    requires
        a + (x + r) == g,
    ensures
        a + x + r == g,
        a.len() + x.len() <= g.len(),
{
    assert(a + x + r =~= a + (x + r));
}

} // verus!
