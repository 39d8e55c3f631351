//! Paths from the root of a tree down to one of its leaves, and the text on
//! either side of where they end.
use crate::leaf::Leaf;
use crate::node::{child_at, full_nodes, lemma_nodes_parts, lemma_valid, nodes_bytes, wf_nodes, Node};
use vstd::prelude::*;
use vstd::utf8::*;

verus! {

broadcast use vstd::utf8::group_utf8_lib;

/// One step of a path: a branch of height `height`, and which of its
/// children the path goes on through.
#[derive(Clone, Copy)]
pub(crate) struct Step<'a> {
    pub(crate) node: &'a Node,
    pub(crate) index: usize,
    pub(crate) height: usize,
}

/// The children of a node; none for a leaf.
pub(crate) open spec fn kids(n: Node) -> Seq<Node> {
    match n {
        Node::Branch(b) => b.nodes@,
        Node::Leaf(_) => Seq::empty(),
    }
}

/// The node where a path from `root` ends.
pub(crate) open spec fn focus(root: Node, path: Seq<Step>) -> Node {
    if path.len() == 0 {
        root
    } else {
        kids(*path.last().node)[path.last().index as int]
    }
}

/// The text to the left of where a path ends.
pub(crate) open spec fn before(path: Seq<Step>) -> Seq<u8>
    decreases path.len(),
{
    if path.len() == 0 {
        Seq::empty()
    } else {
        let s = path.last();
        before(path.drop_last()) + nodes_bytes(
            kids(*s.node).subrange(0, s.index as int),
            (s.height - 1) as nat,
        )
    }
}

/// The text to the right of where a path ends.
pub(crate) open spec fn after(path: Seq<Step>) -> Seq<u8>
    decreases path.len(),
{
    if path.len() == 0 {
        Seq::empty()
    } else {
        let s = path.last();
        nodes_bytes(kids(*s.node).subrange(s.index + 1, kids(*s.node).len() as int), (s.height - 1) as nat)
            + after(path.drop_last())
    }
}

/// The node is the leaf `l`.
pub(crate) open spec fn is_leaf_node(n: Node, l: Leaf) -> bool {
    match n {
        Node::Leaf(x) => *x == l,
        Node::Branch(_) => false,
    }
}

/// Each step goes down one level from where the path before it ends.
pub(crate) open spec fn path_ok(root: Node, h: nat, path: Seq<Step>) -> bool {
    &&& path.len() <= h
    &&& forall|d: int|
        0 <= d < path.len() ==> {
            &&& (#[trigger] path[d]).height == h - d
            &&& *path[d].node == focus(root, path.subrange(0, d))
            &&& path[d].node.wf_at(path[d].height as nat)
            &&& path[d].height > 0
            &&& path[d].index < kids(*path[d].node).len()
        }
}

/// Where a path ends, the node is well formed, and the text around it is
/// the text of the root.
#[verifier::spinoff_prover]
pub(crate) proof fn lemma_path(root: Node, h: nat, path: Seq<Step>)
    requires
        root.wf_at(h),
        path_ok(root, h, path),
    ensures
        focus(root, path).wf_at((h - path.len()) as nat),
        before(path) + focus(root, path).bytes_at((h - path.len()) as nat) + after(path)
            == root.bytes_at(h),
        path.len() < h ==> focus(root, path).bytes_at((h - path.len()) as nat).len() > 0
            || path.len() == 0,
        path.len() > 0 ==> focus(root, path).bytes_at((h - path.len()) as nat).len() > 0,
        valid_utf8(before(path)),
        valid_utf8(after(path)),
    decreases path.len(),
{
    if path.len() == 0 {
        assert(Seq::<u8>::empty() + root.bytes_at(h) + Seq::<u8>::empty() =~= root.bytes_at(h));
    } else {
        let p = path.drop_last();
        let s = path.last();
        let k = path.len() - 1;
        assert(path[k] == s);
        assert(path_ok(root, h, p)) by {
            assert forall|d: int| 0 <= d < p.len() implies {
                &&& (#[trigger] p[d]).height == h - d
                &&& *p[d].node == focus(root, p.subrange(0, d))
                &&& p[d].node.wf_at(p[d].height as nat)
                &&& p[d].height > 0
                &&& p[d].index < kids(*p[d].node).len()
            } by {
                assert(p[d] == path[d]);
                assert(p.subrange(0, d) =~= path.subrange(0, d));
            }
        }
        lemma_path(root, h, p);
        assert(path.subrange(0, k) =~= p);
        let n = *s.node;
        let hh = (s.height - 1) as nat;
        match n {
            Node::Branch(b) => {
                lemma_nodes_parts(b.nodes@, hh, s.index as int);
                crate::text::lemma_concat(before(p), nodes_bytes(b.nodes@.subrange(0, s.index as int), hh));
                crate::text::lemma_concat(
                    nodes_bytes(b.nodes@.subrange(s.index + 1, b.nodes@.len() as int), hh),
                    after(p),
                );
                assert(before(path) + focus(root, path).bytes_at(hh) + after(path) =~= before(p)
                    + n.bytes_at(s.height as nat) + after(p));
            },
            Node::Leaf(_) => {},
        }
    }
}

/// Going one step further down keeps the path well formed.
#[verifier::spinoff_prover]
pub(crate) proof fn lemma_push(root: Node, h: nat, path: Seq<Step>, s: Step)
    requires
        root.wf_at(h),
        path_ok(root, h, path),
        *s.node == focus(root, path),
        s.height == h - path.len(),
        s.node.wf_at(s.height as nat),
        s.height > 0,
        s.index < kids(*s.node).len(),
    ensures
        path_ok(root, h, path.push(s)),
        path.push(s).drop_last() == path,
        path.push(s).last() == s,
        focus(root, path.push(s)) == kids(*s.node)[s.index as int],
        s.node.bytes_at(s.height as nat) == nodes_bytes(kids(*s.node), (s.height - 1) as nat),
        wf_nodes(kids(*s.node), (s.height - 1) as nat),
        1 <= kids(*s.node).len(),
{
    let q = path.push(s);
    assert(q.drop_last() =~= path);
    assert forall|d: int| 0 <= d < q.len() implies {
        &&& (#[trigger] q[d]).height == h - d
        &&& *q[d].node == focus(root, q.subrange(0, d))
        &&& q[d].node.wf_at(q[d].height as nat)
        &&& q[d].height > 0
        &&& q[d].index < kids(*q[d].node).len()
    } by {
        if d < path.len() {
            assert(q[d] == path[d]);
            assert(q.subrange(0, d) =~= path.subrange(0, d));
        } else {
            assert(q.subrange(0, d) =~= path);
        }
    }
    match *s.node {
        Node::Branch(b) => {},
        Node::Leaf(_) => {},
    }
}

/// Going one step back up keeps the path well formed; the node reached holds
/// the siblings around the node left.
#[verifier::spinoff_prover]
pub(crate) proof fn lemma_pop(root: Node, h: nat, path: Seq<Step>)
    requires
        root.wf_at(h),
        path_ok(root, h, path),
        path.len() > 0,
    ensures
        path_ok(root, h, path.drop_last()),
        focus(root, path.drop_last()) == *path.last().node,
        ({
            let s = path.last();
            let k = kids(*s.node);
            let hh = (s.height - 1) as nat;
            &&& path.last().node.bytes_at(s.height as nat) == nodes_bytes(k, hh)
            &&& nodes_bytes(k, hh) == nodes_bytes(k.subrange(0, s.index as int), hh)
                + focus(root, path).bytes_at(hh) + nodes_bytes(k.subrange(s.index + 1, k.len() as int), hh)
            &&& s.height == h - path.len() + 1
            &&& s.index < k.len()
            &&& wf_nodes(k, hh)
        }),
{
    let p = path.drop_last();
    let n = path.len() - 1;
    assert(path[n] == path.last());
    assert(path.subrange(0, n) =~= p);
    assert forall|d: int| 0 <= d < p.len() implies {
        &&& (#[trigger] p[d]).height == h - d
        &&& *p[d].node == focus(root, p.subrange(0, d))
        &&& p[d].node.wf_at(p[d].height as nat)
        &&& p[d].height > 0
        &&& p[d].index < kids(*p[d].node).len()
    } by {
        assert(p[d] == path[d]);
        assert(p.subrange(0, d) =~= path.subrange(0, d));
    }
    let s = path.last();
    match *s.node {
        Node::Branch(b) => {
            lemma_nodes_parts(b.nodes@, (s.height - 1) as nat, s.index as int);
        },
        Node::Leaf(_) => {},
    }
}

/// A path from `root` down to the leaf where `pos` falls (the last leaf
/// where `pos` is the end of the text).
#[verifier::spinoff_prover]
pub(crate) fn descend_to<'a>(root: &'a Node, height: usize, pos: usize) -> (r: (Vec<Step<'a>>, &'a Leaf, usize))
    requires
        root.wf_at(height as nat),
        pos <= root.bytes_at(height as nat).len(),
    ensures
        path_ok(*root, height as nat, r.0@),
        r.0@.len() == height,
        is_leaf_node(focus(*root, r.0@), *r.1),
        r.2 == before(r.0@).len(),
        r.2 <= pos <= r.2 + r.1.bytes().len(),
        pos < root.bytes_at(height as nat).len() ==> pos < r.2 + r.1.bytes().len(),
{
    let ghost total = root.bytes_at(height as nat);
    let mut path: Vec<Step<'a>> = Vec::new();
    let mut node: &'a Node = root;
    let mut h = height;
    let mut offset: usize = 0;
    proof {
        lemma_valid(*root, height as nat);
    }
    while h > 0
        invariant
            root.wf_at(height as nat),
            total == root.bytes_at(height as nat),
            pos <= total.len(),
            h <= height,
            path_ok(*root, height as nat, path@),
            path@.len() == height - h,
            *node == focus(*root, path@),
            node.wf_at(h as nat),
            offset == before(path@).len(),
            offset <= pos <= offset + node.bytes_at(h as nat).len(),
            pos < total.len() ==> pos < offset + node.bytes_at(h as nat).len(),
            before(path@) + node.bytes_at(h as nat) + after(path@) == total,
        decreases h,
    {
        let children = node.children(h);
        proof {
            lemma_path(*root, height as nat, path@);
            lemma_valid(*node, h as nat);
        }
        let (k, inf) = child_at(children, h - 1, pos - offset);
        let step = Step { node, index: k, height: h };
        let ghost old_path = path@;
        path.push(step);
        proof {
            assert(path@ == old_path.push(step));
            assert(path@.drop_last() =~= old_path);
            assert(path_ok(*root, height as nat, path@)) by {
                assert forall|d: int| 0 <= d < path@.len() implies {
                    &&& (#[trigger] path@[d]).height == height - d
                    &&& *path@[d].node == focus(*root, path@.subrange(0, d))
                    &&& path@[d].node.wf_at(path@[d].height as nat)
                    &&& path@[d].height > 0
                    &&& path@[d].index < kids(*path@[d].node).len()
                } by {
                    if d < old_path.len() {
                        assert(path@[d] == old_path[d]);
                        assert(path@.subrange(0, d) =~= old_path.subrange(0, d));
                    } else {
                        assert(path@.subrange(0, d) =~= old_path);
                    }
                }
            }
            lemma_path(*root, height as nat, path@);
            lemma_nodes_parts(children@, (h - 1) as nat, k as int);
        }
        offset = offset + inf.byte_len;
        node = &children[k];
        h = h - 1;
    }
    (path, node.as_leaf(), offset)
}

/// Along a path from a root whose children hold the minimum, every node
/// passed has children that hold the minimum.
pub(crate) proof fn lemma_path_full(root: Node, h: nat, path: Seq<Step>, d: int)
    requires
        root.wf_at(h),
        root.root_ok(h),
        path_ok(root, h, path),
        0 <= d < path.len(),
    ensures
        full_nodes(kids(*path[d].node), (path[d].height - 1) as nat),
    decreases d,
{
    if d == 0 {
        assert(path.subrange(0, 0) =~= Seq::<Step>::empty());
    } else {
        lemma_path_full(root, h, path, d - 1);
        let q = path.subrange(0, d);
        assert(q.last() == path[d - 1]);
        let parent = *path[d - 1].node;
        let child = kids(parent)[path[d - 1].index as int];
        assert(child.full_at((path[d - 1].height - 1) as nat));
        match child {
            Node::Branch(b) => {},
            Node::Leaf(_) => {},
        }
    }
}

/// The text before a shorter path is no longer than the text before the
/// whole path.
pub(crate) proof fn lemma_before_grows(path: Seq<Step>, d: int)
    requires
        0 <= d <= path.len(),
    ensures
        before(path.subrange(0, d)).len() <= before(path).len(),
    decreases path.len(),
{
    if d == path.len() {
        assert(path.subrange(0, d) =~= path);
    } else {
        lemma_before_grows(path.drop_last(), d);
        assert(path.drop_last().subrange(0, d) =~= path.subrange(0, d));
    }
}

/// The text after a path, one step at a time from the bottom.
pub(crate) proof fn lemma_after_step(path: Seq<Step>, d: int)
    requires
        0 < d <= path.len(),
    ensures
        after(path.subrange(0, d)) == nodes_bytes(
            kids(*path[d - 1].node).subrange(path[d - 1].index + 1, kids(*path[d - 1].node).len() as int),
            (path[d - 1].height - 1) as nat,
        ) + after(path.subrange(0, d - 1)),
{
    assert(path.subrange(0, d).drop_last() =~= path.subrange(0, d - 1));
    assert(path.subrange(0, d).last() == path[d - 1]);
}

/// The text before a path, one step at a time from the top.
pub(crate) proof fn lemma_before_step(path: Seq<Step>, d: int)
    requires
        0 <= d < path.len(),
    ensures
        before(path.subrange(0, d + 1)) == before(path.subrange(0, d)) + nodes_bytes(
            kids(*path[d].node).subrange(0, path[d].index as int),
            (path[d].height - 1) as nat,
        ),
{
    assert(path.subrange(0, d + 1).drop_last() =~= path.subrange(0, d));
    assert(path.subrange(0, d + 1).last() == path[d]);
}

} // verus!
