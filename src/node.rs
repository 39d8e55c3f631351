//! The tree that holds a rope's text: leaves and branches, shared by
//! reference counting.
use crate::info::Info;
use crate::leaf::Leaf;
use crate::text::{lemma_boundary_in_concat, lemma_chars_le_bytes, lemma_concat, lemma_prefix};
use crate::{MAX_FANOUT, MIN_FANOUT, MIN_LEAF_BYTES};
use std::rc::Rc;
use vstd::prelude::*;
use vstd::utf8::*;

verus! {

broadcast use vstd::utf8::group_utf8_lib;

/// An inner node: an ordered list of children and their combined metrics.
pub struct Branch {
    pub(crate) info: Info,
    pub(crate) nodes: Vec<Node>,
}

/// A node of the tree. Nodes are never changed once built, so they may be
/// shared between ropes.
#[derive(Clone)]
pub enum Node {
    Leaf(Rc<Leaf>),
    Branch(Rc<Branch>),
}

impl Node {
    /// The text of a node whose leaves lie `h` levels below it.
    pub open(crate) spec fn bytes_at(self, h: nat) -> Seq<u8>
        decreases h, 0nat, 0nat,
    {
        match self {
            Node::Leaf(l) => l.bytes(),
            Node::Branch(b) => if h == 0 {
                Seq::empty()
            } else {
                nodes_bytes(b.nodes@, (h - 1) as nat)
            },
        }
    }

    /// A node whose leaves all lie `h` levels below it and hold at most
    /// `MAX_LEAF_BYTES`, whose branches hold between one and `MAX_FANOUT`
    /// non-empty children, and whose cached metrics are right. The minimums
    /// are stated apart, by `full_at`.
    pub open(crate) spec fn wf_at(self, h: nat) -> bool
        decreases h,
    {
        match self {
            Node::Leaf(l) => h == 0 && l.wf(),
            Node::Branch(b) => {
                &&& h > 0
                &&& 1 <= b.nodes@.len() <= MAX_FANOUT
                &&& forall|i: int|
                    0 <= i < b.nodes@.len() ==> {
                        &&& (#[trigger] b.nodes@[i]).wf_at((h - 1) as nat)
                        &&& b.nodes@[i].bytes_at((h - 1) as nat).len() > 0
                    }
                &&& b.info.describes(nodes_bytes(b.nodes@, (h - 1) as nat))
            },
        }
    }
}

impl Node {
    /// Every node of the subtree holds at least the minimum: `MIN_LEAF_BYTES`
    /// bytes for a leaf, `MIN_FANOUT` children for a branch.
    pub open(crate) spec fn full_at(self, h: nat) -> bool
        decreases h,
    {
        match self {
            Node::Leaf(l) => MIN_LEAF_BYTES <= l.bytes().len(),
            Node::Branch(b) => {
                &&& h > 0
                &&& MIN_FANOUT <= b.nodes@.len()
                &&& forall|i: int|
                    0 <= i < b.nodes@.len() ==> (#[trigger] b.nodes@[i]).full_at((h - 1) as nat)
            },
        }
    }

    /// Every node below the root holds at least the minimum; the root may
    /// hold less.
    pub open(crate) spec fn root_ok(self, h: nat) -> bool {
        match self {
            Node::Leaf(_) => true,
            Node::Branch(b) => full_nodes(b.nodes@, (h - 1) as nat),
        }
    }
}

/// Every node of the list holds at least the minimum.
pub open(crate) spec fn full_nodes(s: Seq<Node>, h: nat) -> bool {
    forall|i: int| 0 <= i < s.len() ==> (#[trigger] s[i]).full_at(h)
}

pub proof fn lemma_full_nodes_subrange(s: Seq<Node>, h: nat, a: int, b: int)
    requires
        full_nodes(s, h),
        0 <= a <= b <= s.len(),
    ensures
        full_nodes(s.subrange(a, b), h),
{
    assert forall|i: int| 0 <= i < s.subrange(a, b).len() implies (#[trigger] s.subrange(
        a,
        b,
    )[i]).full_at(h) by {
        assert(s.subrange(a, b)[i] == s[a + i]);
    }
}

pub proof fn lemma_full_nodes_concat(s: Seq<Node>, t: Seq<Node>, h: nat)
    requires
        full_nodes(s, h),
        full_nodes(t, h),
    ensures
        full_nodes(s + t, h),
{
    assert forall|i: int| 0 <= i < (s + t).len() implies (#[trigger] (s + t)[i]).full_at(h) by {
        if i < s.len() {
            assert((s + t)[i] == s[i]);
        } else {
            assert((s + t)[i] == t[i - s.len()]);
        }
    }
}

/// A full subtree is longer than it is tall.
pub proof fn lemma_full_len(n: Node, h: nat)
    requires
        n.wf_at(h),
        n.full_at(h),
    ensures
        n.bytes_at(h).len() > h,
    decreases h,
{
    match n {
        Node::Leaf(_) => {},
        Node::Branch(b) => {
            let s = b.nodes@;
            let hh = (h - 1) as nat;
            lemma_full_len(s[0], hh);
            lemma_full_len(s[1], hh);
            lemma_nodes_parts(s, hh, 0);
            lemma_nodes_parts(s, hh, 1);
            assert(s.subrange(0, 1) =~= seq![s[0]]);
            lemma_nodes_bytes_one(s[0], hh);
        },
    }
}

/// The text of a list of sibling nodes, read left to right.
pub open(crate) spec fn nodes_bytes(s: Seq<Node>, h: nat) -> Seq<u8>
    decreases h, 1nat, s.len(),
{
    if s.len() == 0 {
        Seq::empty()
    } else {
        nodes_bytes(s.drop_last(), h) + s.last().bytes_at(h)
    }
}

/// Every node of the list is well formed at height `h` and not empty.
pub open(crate) spec fn wf_nodes(s: Seq<Node>, h: nat) -> bool {
    forall|i: int|
        0 <= i < s.len() ==> {
            &&& (#[trigger] s[i]).wf_at(h)
            &&& s[i].bytes_at(h).len() > 0
        }
}

pub proof fn lemma_nodes_bytes_concat(a: Seq<Node>, b: Seq<Node>, h: nat)
    ensures
        nodes_bytes(a + b, h) == nodes_bytes(a, h) + nodes_bytes(b, h),
    decreases b.len(),
{
    if b.len() == 0 {
        assert(a + b =~= a);
        assert(nodes_bytes(a, h) + nodes_bytes(b, h) =~= nodes_bytes(a, h));
    } else {
        assert((a + b).drop_last() =~= a + b.drop_last());
        assert((a + b).last() == b.last());
        lemma_nodes_bytes_concat(a, b.drop_last(), h);
        assert(nodes_bytes(a + b, h) =~= nodes_bytes(a, h) + nodes_bytes(b, h));
    }
}

pub proof fn lemma_nodes_bytes_one(n: Node, h: nat)
    ensures
        nodes_bytes(seq![n], h) == n.bytes_at(h),
{
    assert(seq![n].drop_last() =~= Seq::<Node>::empty());
    assert(seq![n].last() == n);
    assert(nodes_bytes(Seq::<Node>::empty(), h) == Seq::<u8>::empty());
    assert(Seq::<u8>::empty() + n.bytes_at(h) =~= n.bytes_at(h));
}

pub proof fn lemma_nodes_bytes_push(s: Seq<Node>, n: Node, h: nat)
    ensures
        nodes_bytes(s.push(n), h) == nodes_bytes(s, h) + n.bytes_at(h),
{
    assert(s.push(n).drop_last() =~= s);
}

/// The text of a well-formed node is valid UTF-8.
pub proof fn lemma_valid(n: Node, h: nat)
    requires
        n.wf_at(h),
    ensures
        valid_utf8(n.bytes_at(h)),
    decreases h, 0nat, 0nat,
{
    match n {
        Node::Leaf(l) => {},
        Node::Branch(b) => {
            lemma_valid_nodes(b.nodes@, (h - 1) as nat);
        },
    }
}

pub proof fn lemma_valid_nodes(s: Seq<Node>, h: nat)
    requires
        wf_nodes(s, h),
    ensures
        valid_utf8(nodes_bytes(s, h)),
        nodes_bytes(s, h).len() >= s.len(),
    decreases h, 1nat, s.len(),
{
    if s.len() > 0 {
        assert(s.last() == s[s.len() - 1]);
        lemma_valid(s.last(), h);
        assert(wf_nodes(s.drop_last(), h)) by {
            assert forall|i: int| 0 <= i < s.drop_last().len() implies {
                &&& (#[trigger] s.drop_last()[i]).wf_at(h)
                &&& s.drop_last()[i].bytes_at(h).len() > 0
            } by {
                assert(s.drop_last()[i] == s[i]);
            }
        }
        lemma_valid_nodes(s.drop_last(), h);
    }
}

/// The nodes of a subrange of a well-formed list are well formed.
pub proof fn lemma_wf_nodes_subrange(s: Seq<Node>, h: nat, a: int, b: int)
    requires
        wf_nodes(s, h),
        0 <= a <= b <= s.len(),
    ensures
        wf_nodes(s.subrange(a, b), h),
{
    assert forall|i: int| 0 <= i < s.subrange(a, b).len() implies {
        &&& (#[trigger] s.subrange(a, b)[i]).wf_at(h)
        &&& s.subrange(a, b)[i].bytes_at(h).len() > 0
    } by {
        assert(s.subrange(a, b)[i] == s[a + i]);
    }
}

pub proof fn lemma_wf_nodes_concat(s: Seq<Node>, t: Seq<Node>, h: nat)
    requires
        wf_nodes(s, h),
        wf_nodes(t, h),
    ensures
        wf_nodes(s + t, h),
{
    assert forall|i: int| 0 <= i < (s + t).len() implies {
        &&& (#[trigger] (s + t)[i]).wf_at(h)
        &&& (s + t)[i].bytes_at(h).len() > 0
    } by {
        if i < s.len() {
            assert((s + t)[i] == s[i]);
        } else {
            assert((s + t)[i] == t[i - s.len()]);
        }
    }
}

/// The text of a list split around its `k`-th node.
pub proof fn lemma_nodes_parts(s: Seq<Node>, h: nat, k: int)
    requires
        wf_nodes(s, h),
        0 <= k < s.len(),
    ensures
        nodes_bytes(s, h) == nodes_bytes(s.subrange(0, k), h) + s[k].bytes_at(h) + nodes_bytes(
            s.subrange(k + 1, s.len() as int),
            h,
        ),
        valid_utf8(nodes_bytes(s.subrange(0, k), h)),
        valid_utf8(s[k].bytes_at(h)),
        valid_utf8(nodes_bytes(s.subrange(k + 1, s.len() as int), h)),
{
    let p = s.subrange(0, k);
    let q = s.subrange(k + 1, s.len() as int);
    assert(s =~= p.push(s[k]) + q);
    lemma_nodes_bytes_concat(p.push(s[k]), q, h);
    lemma_nodes_bytes_push(p, s[k], h);
    lemma_wf_nodes_subrange(s, h, 0, k);
    lemma_wf_nodes_subrange(s, h, k + 1, s.len() as int);
    lemma_valid_nodes(p, h);
    lemma_valid_nodes(q, h);
    lemma_valid(s[k], h);
}

/// Boundaries and character counts inside the middle piece of a text.
pub proof fn lemma_mid(p: Seq<u8>, c: Seq<u8>, s: Seq<u8>, j: int)
    requires
        valid_utf8(p),
        valid_utf8(c),
        valid_utf8(s),
        0 <= j <= c.len(),
    ensures
        is_char_boundary(p + c + s, p.len() + j) == is_char_boundary(c, j),
        is_char_boundary(c, j) ==> decode_utf8((p + c + s).subrange(0, p.len() + j))
            == decode_utf8(p) + decode_utf8(c.subrange(0, j)),
        (p + c + s).subrange(p.len() as int, (p.len() + c.len()) as int) == c,
{
    lemma_concat(p, c);
    lemma_boundary_in_concat(p + c, s, p.len() + j);
    lemma_boundary_in_concat(p, c, p.len() + j);
    assert((p + c + s).subrange(p.len() as int, (p.len() + c.len()) as int) =~= c);
    if is_char_boundary(c, j) {
        lemma_prefix(c, j);
        assert((p + c + s).subrange(0, p.len() + j) =~= p + c.subrange(0, j));
        lemma_concat(p, c.subrange(0, j));
    }
}

impl Node {
    /// Another handle on the same node.
    pub(crate) fn share(&self) -> (r: Node)
        ensures
            r == *self,
    {
        match self {
            Node::Leaf(l) => Node::Leaf(l.clone()),
            Node::Branch(b) => Node::Branch(b.clone()),
        }
    }

    pub(crate) fn info(&self, h: usize) -> (r: Info)
        requires
            self.wf_at(h as nat),
        ensures
            r.describes(self.bytes_at(h as nat)),
    {
        match self {
            Node::Leaf(l) => l.info(),
            Node::Branch(b) => b.info,
        }
    }

    /// The children of a branch.
    pub(crate) fn children(&self, h: usize) -> (r: &Vec<Node>)
        requires
            self.wf_at(h as nat),
            h > 0,
        ensures
            self matches Node::Branch(b) && r@ == b.nodes@,
            1 <= r@.len() <= MAX_FANOUT,
            wf_nodes(r@, (h - 1) as nat),
            self.bytes_at(h as nat) == nodes_bytes(r@, (h - 1) as nat),
    {
        match self {
            Node::Branch(b) => &b.nodes,
            Node::Leaf(_) => vstd::pervasive::unreached(),
        }
    }
}

/// The child of a list of siblings where the position `pos` falls: the first
/// one that ends after `pos`, or the last one.
#[verifier::spinoff_prover]
pub(crate) fn child_at(nodes: &Vec<Node>, h: usize, pos: usize) -> (r: (usize, Info))
    requires
        1 <= nodes@.len(),
        wf_nodes(nodes@, h as nat),
        pos <= nodes_bytes(nodes@, h as nat).len(),
        nodes_bytes(nodes@, h as nat).len() <= usize::MAX,
    ensures
        r.0 < nodes@.len(),
        r.1.describes(nodes_bytes(nodes@.subrange(0, r.0 as int), h as nat)),
        r.1.byte_len <= pos,
        pos < r.1.byte_len + nodes@[r.0 as int].bytes_at(h as nat).len() || (r.0 == nodes@.len()
            - 1 && pos == r.1.byte_len + nodes@[r.0 as int].bytes_at(h as nat).len()),
{
    let ghost s = nodes@;
    let ghost hh = h as nat;
    let mut k: usize = 0;
    let mut acc = Info::new();
    proof {
        assert(s.subrange(0, 0) =~= Seq::<Node>::empty());
    }
    let n = nodes.len();
    loop
        invariant
            s == nodes@,
            n == s.len(),
            hh == h as nat,
            1 <= s.len(),
            wf_nodes(s, hh),
            pos <= nodes_bytes(s, hh).len(),
            nodes_bytes(s, hh).len() <= usize::MAX,
            k < s.len(),
            acc.describes(nodes_bytes(s.subrange(0, k as int), hh)),
            acc.byte_len <= pos,
        ensures
            k < s.len(),
            acc.describes(nodes_bytes(s.subrange(0, k as int), hh)),
            acc.byte_len <= pos,
            pos < acc.byte_len + s[k as int].bytes_at(hh).len() || (k == s.len() - 1 && pos
                == acc.byte_len + s[k as int].bytes_at(hh).len()),
        decreases s.len() - k,
    {
        let inf = nodes[k].info(h);
        proof {
            lemma_nodes_parts(s, hh, k as int);
            lemma_nodes_bytes_push(s.subrange(0, k as int), s[k as int], hh);
            assert(s.subrange(0, k as int).push(s[k as int]) =~= s.subrange(0, k + 1));
            if k + 1 == s.len() {
                assert(s.subrange(k + 1, s.len() as int) =~= Seq::<Node>::empty());
            }
            crate::info::lemma_combine_describes(
                acc,
                inf,
                nodes_bytes(s.subrange(0, k as int), hh),
                s[k as int].bytes_at(hh),
            );
        }
        if k + 1 == n || pos < acc.byte_len + inf.byte_len {
            break;
        }
        acc = acc.combine(inf);
        k = k + 1;
    }
    (k, acc)
}

impl Node {
    /// Whether `i` is a character boundary of the node's text.
    pub(crate) fn is_char_boundary(&self, h: usize, i: usize) -> (r: bool)
        requires
            self.wf_at(h as nat),
            i <= self.bytes_at(h as nat).len(),
        ensures
            r == is_char_boundary(self.bytes_at(h as nat), i as int),
        decreases h,
    {
        match self {
            Node::Leaf(l) => l.is_char_boundary(i),
            Node::Branch(_) => {
                let nodes = self.children(h);
                let (k, before) = child_at(nodes, h - 1, i);
                proof {
                    let s = nodes@;
                    let hh = (h - 1) as nat;
                    lemma_nodes_parts(s, hh, k as int);
                    lemma_mid(
                        nodes_bytes(s.subrange(0, k as int), hh),
                        s[k as int].bytes_at(hh),
                        nodes_bytes(s.subrange(k + 1, s.len() as int), hh),
                        i - before.byte_len,
                    );
                }
                nodes[k].is_char_boundary(h - 1, i - before.byte_len)
            },
        }
    }

    /// The number of characters before the boundary `i`.
    pub(crate) fn char_at_byte(&self, h: usize, i: usize) -> (r: usize)
        requires
            self.wf_at(h as nat),
            is_char_boundary(self.bytes_at(h as nat), i as int),
        ensures
            r == decode_utf8(self.bytes_at(h as nat).subrange(0, i as int)).len(),
        decreases h,
    {
        proof {
            lemma_valid(*self, h as nat);
            lemma_prefix(self.bytes_at(h as nat), i as int);
        }
        match self {
            Node::Leaf(l) => l.char_at_byte(i),
            Node::Branch(_) => {
                let nodes = self.children(h);
                let (k, before) = child_at(nodes, h - 1, i);
                proof {
                    let s = nodes@;
                    let hh = (h - 1) as nat;
                    lemma_nodes_parts(s, hh, k as int);
                    lemma_mid(
                        nodes_bytes(s.subrange(0, k as int), hh),
                        s[k as int].bytes_at(hh),
                        nodes_bytes(s.subrange(k + 1, s.len() as int), hh),
                        i - before.byte_len,
                    );
                    lemma_chars_le_bytes(self.bytes_at(h as nat).subrange(0, i as int));
                }
                let inner = nodes[k].char_at_byte(h - 1, i - before.byte_len);
                before.char_len + inner
            },
        }
    }
}

/// A branch over `nodes`, one level above them.
#[verifier::spinoff_prover]
pub(crate) fn new_branch(nodes: Vec<Node>, h: usize) -> (r: Node)
    requires
        1 <= nodes@.len() <= MAX_FANOUT,
        wf_nodes(nodes@, h as nat),
        nodes_bytes(nodes@, h as nat).len() <= usize::MAX,
        h < usize::MAX,
    ensures
        r.wf_at((h + 1) as nat),
        r.bytes_at((h + 1) as nat) == nodes_bytes(nodes@, h as nat),
        full_nodes(nodes@, h as nat) ==> r.root_ok((h + 1) as nat),
        full_nodes(nodes@, h as nat) && nodes@.len() >= MIN_FANOUT ==> r.full_at((h + 1) as nat),
{
    let ghost s = nodes@;
    let ghost hh = h as nat;
    let mut k: usize = 0;
    let mut acc = Info::new();
    proof {
        assert(s.subrange(0, 0) =~= Seq::<Node>::empty());
    }
    while k < nodes.len()
        invariant
            s == nodes@,
            hh == h as nat,
            wf_nodes(s, hh),
            nodes_bytes(s, hh).len() <= usize::MAX,
            k <= s.len(),
            acc.describes(nodes_bytes(s.subrange(0, k as int), hh)),
        decreases s.len() - k,
    {
        let inf = nodes[k].info(h);
        proof {
            lemma_nodes_parts(s, hh, k as int);
            lemma_nodes_bytes_push(s.subrange(0, k as int), s[k as int], hh);
            assert(s.subrange(0, k as int).push(s[k as int]) =~= s.subrange(0, k + 1));
            crate::info::lemma_combine_describes(
                acc,
                inf,
                nodes_bytes(s.subrange(0, k as int), hh),
                s[k as int].bytes_at(hh),
            );
        }
        acc = acc.combine(inf);
        k = k + 1;
    }
    proof {
        assert(s.subrange(0, s.len() as int) =~= s);
    }
    Node::Branch(Rc::new(Branch { info: acc, nodes }))
}

/// Appends handles on the nodes `v[a..b]` to `dst`.
pub(crate) fn extend_nodes(dst: &mut Vec<Node>, v: &Vec<Node>, a: usize, b: usize)
    requires
        a <= b <= v@.len(),
    ensures
        final(dst)@ == old(dst)@ + v@.subrange(a as int, b as int),
{
    let ghost start = dst@;
    let mut k = a;
    while k < b
        invariant
            a <= k <= b <= v@.len(),
            dst@ == start + v@.subrange(a as int, k as int),
        decreases b - k,
    {
        dst.push(v[k].share());
        proof {
            assert(start + v@.subrange(a as int, k + 1) =~= (start + v@.subrange(a as int, k as int)).push(v@[k as int]));
        }
        k = k + 1;
    }
}

/// Handles on the nodes `v[a..b]`.
pub(crate) fn copy_nodes(v: &Vec<Node>, a: usize, b: usize) -> (r: Vec<Node>)
    requires
        a <= b <= v@.len(),
    ensures
        r@ == v@.subrange(a as int, b as int),
{
    let mut r: Vec<Node> = Vec::new();
    extend_nodes(&mut r, v, a, b);
    proof {
        assert(Seq::<Node>::empty() + v@.subrange(a as int, b as int) =~= v@.subrange(a as int, b as int));
    }
    r
}

pub(crate) proof fn lemma_cut_between(s: Seq<Node>, h: nat, k: int)
    requires
        wf_nodes(s, h),
        0 <= k < s.len(),
    ensures
        wf_nodes(s.subrange(0, k), h),
        wf_nodes(s.subrange(k, s.len() as int), h),
        nodes_bytes(s, h) == nodes_bytes(s.subrange(0, k), h) + nodes_bytes(
            s.subrange(k, s.len() as int),
            h,
        ),
        nodes_bytes(s, h).subrange(0, nodes_bytes(s.subrange(0, k), h).len() as int)
            == nodes_bytes(s.subrange(0, k), h),
        nodes_bytes(s, h).subrange(
            nodes_bytes(s.subrange(0, k), h).len() as int,
            nodes_bytes(s, h).len() as int,
        ) == nodes_bytes(s.subrange(k, s.len() as int), h),
{
    lemma_wf_nodes_subrange(s, h, 0, k);
    lemma_wf_nodes_subrange(s, h, k, s.len() as int);
    assert(s =~= s.subrange(0, k) + s.subrange(k, s.len() as int));
    lemma_nodes_bytes_concat(s.subrange(0, k), s.subrange(k, s.len() as int), h);
    let x = nodes_bytes(s.subrange(0, k), h);
    let y = nodes_bytes(s.subrange(k, s.len() as int), h);
    assert((x + y).subrange(0, x.len() as int) =~= x);
    assert((x + y).subrange(x.len() as int, (x + y).len() as int) =~= y);
}

pub(crate) proof fn lemma_nodes_bytes_two(x: Node, y: Node, h: nat)
    ensures
        nodes_bytes(seq![x, y], h) == x.bytes_at(h) + y.bytes_at(h),
{
    assert(seq![x, y] =~= seq![x].push(y));
    lemma_nodes_bytes_push(seq![x], y, h);
    lemma_nodes_bytes_one(x, h);
}

/// The first and the last node of a list, taken off.
pub proof fn lemma_nodes_ends(s: Seq<Node>, h: nat)
    requires
        s.len() >= 1,
    ensures
        nodes_bytes(s, h) == nodes_bytes(s.subrange(0, s.len() - 1), h) + s[s.len() - 1].bytes_at(h),
        nodes_bytes(s, h) == s[0].bytes_at(h) + nodes_bytes(s.subrange(1, s.len() as int), h),
{
    assert(s.drop_last() =~= s.subrange(0, s.len() - 1));
    assert(s =~= seq![s[0]] + s.subrange(1, s.len() as int));
    lemma_nodes_bytes_concat(seq![s[0]], s.subrange(1, s.len() as int), h);
    lemma_nodes_bytes_one(s[0], h);
}

/// A branch built over a non-empty list of non-empty nodes is not empty.
pub(crate) proof fn lemma_branch_not_empty(r: Node, s: Seq<Node>, h: nat)
    requires
        wf_nodes(s, h),
        s.len() >= 1,
        r.bytes_at(h + 1) == nodes_bytes(s, h),
    ensures
        r.bytes_at(h + 1).len() > 0,
{
    lemma_valid_nodes(s, h);
}

impl Node {
    pub(crate) fn as_leaf(&self) -> (r: &Leaf)
        requires
            self.wf_at(0),
        ensures
            self matches Node::Leaf(l) && *r == *l,
            r.wf(),
            r.bytes() == self.bytes_at(0),
    {
        match self {
            Node::Leaf(l) => &**l,
            Node::Branch(_) => vstd::pervasive::unreached(),
        }
    }
}

} // verus!
