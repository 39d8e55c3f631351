//! Joining two trees into one, whatever their heights.
use crate::node::{
    copy_nodes, extend_nodes, full_nodes, lemma_branch_not_empty, lemma_cut_between,
    lemma_full_nodes_concat, lemma_full_nodes_subrange, lemma_nodes_bytes_concat,
    lemma_nodes_bytes_one, lemma_nodes_bytes_two, lemma_nodes_ends, lemma_valid_nodes,
    lemma_wf_nodes_concat, lemma_wf_nodes_subrange, new_branch, nodes_bytes, wf_nodes, Node,
};
use crate::{MAX_FANOUT, MAX_LEAF_BYTES, MIN_FANOUT, MIN_LEAF_BYTES};
use std::rc::Rc;
use vstd::prelude::*;
use vstd::utf8::*;

verus! {

broadcast use vstd::utf8::group_utf8_lib;

/// One or two branches over `c`, one level above it.
#[verifier::spinoff_prover]
fn regroup(c: Vec<Node>, h: usize) -> (r: Vec<Node>)
    requires
        1 <= c@.len() <= 2 * MAX_FANOUT,
        wf_nodes(c@, h as nat),
        nodes_bytes(c@, h as nat).len() <= usize::MAX,
        h < usize::MAX,
    ensures
        1 <= r@.len() <= 2,
        wf_nodes(r@, (h + 1) as nat),
        nodes_bytes(r@, (h + 1) as nat) == nodes_bytes(c@, h as nat),
        full_nodes(c@, h as nat) ==> forall|i: int|
            0 <= i < r@.len() ==> (#[trigger] r@[i]).root_ok((h + 1) as nat),
        full_nodes(c@, h as nat) && c@.len() >= MIN_FANOUT ==> full_nodes(r@, (h + 1) as nat),
        r@.len() == 2 ==> c@.len() > MAX_FANOUT,
{
    let n = c.len();
    let ghost hh = h as nat;
    if n <= MAX_FANOUT {
        let ghost cs = c@;
        let x = new_branch(c, h);
        proof {
            lemma_branch_not_empty(x, cs, hh);
            lemma_nodes_bytes_one(x, hh + 1);
            assert(wf_nodes(seq![x], hh + 1));
        }
        let mut r: Vec<Node> = Vec::new();
        r.push(x);
        proof {
            assert(r@ =~= seq![x]);
        }
        r
    } else {
        let m = n / 2;
        let left = copy_nodes(&c, 0, m);
        let right = copy_nodes(&c, m, n);
        proof {
            lemma_cut_between(c@, hh, m as int);
            if full_nodes(c@, hh) {
                lemma_full_nodes_subrange(c@, hh, 0, m as int);
                lemma_full_nodes_subrange(c@, hh, m as int, n as int);
            }
        }
        let ghost ls = left@;
        let ghost rs = right@;
        let x = new_branch(left, h);
        let y = new_branch(right, h);
        proof {
            lemma_branch_not_empty(x, ls, hh);
            lemma_branch_not_empty(y, rs, hh);
            lemma_nodes_bytes_two(x, y, hh + 1);
            assert(wf_nodes(seq![x, y], hh + 1));
        }
        let mut r: Vec<Node> = Vec::new();
        r.push(x);
        r.push(y);
        proof {
            assert(r@ =~= seq![x, y]);
        }
        r
    }
}

pub(crate) open spec fn max_nat(a: nat, b: nat) -> nat {
    if a >= b {
        a
    } else {
        b
    }
}

/// One or two nodes, at the greater of the two heights, that hold the text
/// of `a` followed by that of `b`. The shorter tree is grafted onto the
/// right or left edge of the taller one; branches that overflow are split in
/// two, and leaves that meet at the seam are merged, or evened out where one
/// of them holds less than the minimum.
pub(crate) fn join(a: &Node, ha: usize, b: &Node, hb: usize) -> (r: Vec<Node>)
    requires
        a.wf_at(ha as nat),
        b.wf_at(hb as nat),
        a.root_ok(ha as nat),
        b.root_ok(hb as nat),
        a.bytes_at(ha as nat).len() > 0,
        b.bytes_at(hb as nat).len() > 0,
        a.bytes_at(ha as nat).len() + b.bytes_at(hb as nat).len() <= usize::MAX,
    ensures
        1 <= r@.len() <= 2,
        wf_nodes(r@, max_nat(ha as nat, hb as nat)),
        nodes_bytes(r@, max_nat(ha as nat, hb as nat)) == a.bytes_at(ha as nat) + b.bytes_at(
            hb as nat,
        ),
        forall|i: int|
            0 <= i < r@.len() ==> (#[trigger] r@[i]).root_ok(max_nat(ha as nat, hb as nat)),
        r@.len() == 2 ==> full_nodes(r@, max_nat(ha as nat, hb as nat)),
        (ha >= hb && a.full_at(ha as nat)) || (hb >= ha && b.full_at(hb as nat)) ==> full_nodes(
            r@,
            max_nat(ha as nat, hb as nat),
        ),
    decreases ha + hb, 2nat,
{
    if ha == hb {
        if ha == 0 {
            join_leaves(a, b)
        } else {
            join_level(a, b, ha)
        }
    } else if ha > hb {
        join_right(a, ha, b, hb)
    } else {
        join_left(a, ha, b, hb)
    }
}

#[verifier::spinoff_prover]
fn join_leaves(a: &Node, b: &Node) -> (r: Vec<Node>)
    requires
        a.wf_at(0),
        b.wf_at(0),
        a.bytes_at(0).len() > 0,
        b.bytes_at(0).len() > 0,
    ensures
        1 <= r@.len() <= 2,
        wf_nodes(r@, 0),
        nodes_bytes(r@, 0) == a.bytes_at(0) + b.bytes_at(0),
        forall|i: int| 0 <= i < r@.len() ==> (#[trigger] r@[i]).root_ok(0),
        r@.len() == 2 ==> full_nodes(r@, 0),
        a.full_at(0) || b.full_at(0) ==> full_nodes(r@, 0),
    decreases 0nat, 0nat,
{
    let la = a.as_leaf();
    let lb = b.as_leaf();
    let na = la.info().byte_len;
    let nb = lb.info().byte_len;
    let mut r: Vec<Node> = Vec::new();
    if na + nb <= MAX_LEAF_BYTES {
        let x = Node::Leaf(Rc::new(la.concat(lb)));
        r.push(x);
        proof {
            assert(r@ =~= seq![x]);
            lemma_nodes_bytes_one(x, 0);
            assert(wf_nodes(seq![x], 0));
        }
    } else if na >= MIN_LEAF_BYTES && nb >= MIN_LEAF_BYTES {
        r.push(a.share());
        r.push(b.share());
        proof {
            assert(r@ =~= seq![*a, *b]);
            lemma_nodes_bytes_two(*a, *b, 0);
            assert(wf_nodes(seq![*a, *b], 0));
        }
    } else {
        let (p, q) = la.rebalance(lb);
        let x = Node::Leaf(Rc::new(p));
        let y = Node::Leaf(Rc::new(q));
        r.push(x);
        r.push(y);
        proof {
            assert(r@ =~= seq![x, y]);
            lemma_nodes_bytes_two(x, y, 0);
            assert(wf_nodes(seq![x, y], 0));
        }
    }
    r
}

proof fn lemma_seam_wf(ca: Seq<Node>, cb: Seq<Node>, seam: Seq<Node>, h: nat)
    requires
        ca.len() >= 1,
        cb.len() >= 1,
        wf_nodes(ca, h),
        wf_nodes(cb, h),
        wf_nodes(seam, h),
    ensures
        wf_nodes(ca.subrange(0, ca.len() - 1) + seam + cb.subrange(1, cb.len() as int), h),
{
    let left = ca.subrange(0, ca.len() - 1);
    let right = cb.subrange(1, cb.len() as int);
    lemma_wf_nodes_subrange(ca, h, 0, ca.len() - 1);
    lemma_wf_nodes_subrange(cb, h, 1, cb.len() as int);
    lemma_wf_nodes_concat(left, seam, h);
    lemma_wf_nodes_concat(left + seam, right, h);
}

proof fn lemma_seam_full(ca: Seq<Node>, cb: Seq<Node>, seam: Seq<Node>, h: nat)
    requires
        ca.len() >= 1,
        cb.len() >= 1,
        full_nodes(ca, h),
        full_nodes(cb, h),
        full_nodes(seam, h),
    ensures
        full_nodes(ca.subrange(0, ca.len() - 1) + seam + cb.subrange(1, cb.len() as int), h),
{
    let left = ca.subrange(0, ca.len() - 1);
    let right = cb.subrange(1, cb.len() as int);
    lemma_full_nodes_subrange(ca, h, 0, ca.len() - 1);
    lemma_full_nodes_subrange(cb, h, 1, cb.len() as int);
    lemma_full_nodes_concat(left, seam, h);
    lemma_full_nodes_concat(left + seam, right, h);
}

proof fn lemma_seam_bytes(ca: Seq<Node>, cb: Seq<Node>, seam: Seq<Node>, h: nat)
    requires
        ca.len() >= 1,
        cb.len() >= 1,
        nodes_bytes(seam, h) == ca[ca.len() - 1].bytes_at(h) + cb[0].bytes_at(h),
    ensures
        nodes_bytes(ca.subrange(0, ca.len() - 1) + seam + cb.subrange(1, cb.len() as int), h)
            == nodes_bytes(ca, h) + nodes_bytes(cb, h),
{
    let left = ca.subrange(0, ca.len() - 1);
    let right = cb.subrange(1, cb.len() as int);
    lemma_nodes_ends(ca, h);
    lemma_nodes_ends(cb, h);
    lemma_nodes_bytes_concat(left, seam, h);
    lemma_nodes_bytes_concat(left + seam, right, h);
    assert(nodes_bytes(left + seam + right, h) =~= nodes_bytes(ca, h) + nodes_bytes(cb, h));
}

/// Joins two trees of the same height: the children on either side of the
/// seam are joined first, so that small leaves there are merged.
#[verifier::spinoff_prover]
fn join_level(a: &Node, b: &Node, h: usize) -> (r: Vec<Node>)
    requires
        h > 0,
        a.wf_at(h as nat),
        b.wf_at(h as nat),
        a.root_ok(h as nat),
        b.root_ok(h as nat),
        a.bytes_at(h as nat).len() + b.bytes_at(h as nat).len() <= usize::MAX,
    ensures
        1 <= r@.len() <= 2,
        wf_nodes(r@, h as nat),
        nodes_bytes(r@, h as nat) == a.bytes_at(h as nat) + b.bytes_at(h as nat),
        forall|i: int| 0 <= i < r@.len() ==> (#[trigger] r@[i]).root_ok(h as nat),
        r@.len() == 2 ==> full_nodes(r@, h as nat),
        a.full_at(h as nat) || b.full_at(h as nat) ==> full_nodes(r@, h as nat),
    decreases h + h, 1nat,
{
    let ca = a.children(h);
    let cb = b.children(h);
    let n = ca.len();
    let m = cb.len();
    let ghost hh = (h - 1) as nat;
    let ghost left = ca@.subrange(0, n - 1);
    let ghost right = cb@.subrange(1, m as int);
    proof {
        lemma_nodes_ends(ca@, hh);
        lemma_nodes_ends(cb@, hh);
        lemma_wf_nodes_subrange(ca@, hh, 0, n - 1);
        lemma_wf_nodes_subrange(cb@, hh, 1, m as int);
        lemma_valid_nodes(left, hh);
        lemma_valid_nodes(right, hh);
        assert(max_nat(hh, hh) == hh);
    }
    let seam = join(&ca[n - 1], h - 1, &cb[0], h - 1);
    let mut c = copy_nodes(ca, 0, n - 1);
    extend_nodes(&mut c, &seam, 0, seam.len());
    extend_nodes(&mut c, cb, 1, m);
    proof {
        assert(seam@.subrange(0, seam@.len() as int) =~= seam@);
        lemma_seam_wf(ca@, cb@, seam@, hh);
        lemma_seam_full(ca@, cb@, seam@, hh);
        lemma_seam_bytes(ca@, cb@, seam@, hh);
        assert(c@ == left + seam@ + right);
    }
    regroup(c, h - 1)
}

#[verifier::spinoff_prover]
fn join_right(a: &Node, ha: usize, b: &Node, hb: usize) -> (r: Vec<Node>)
    requires
        ha > hb,
        a.wf_at(ha as nat),
        b.wf_at(hb as nat),
        a.root_ok(ha as nat),
        b.root_ok(hb as nat),
        b.bytes_at(hb as nat).len() > 0,
        a.bytes_at(ha as nat).len() + b.bytes_at(hb as nat).len() <= usize::MAX,
    ensures
        1 <= r@.len() <= 2,
        wf_nodes(r@, ha as nat),
        nodes_bytes(r@, ha as nat) == a.bytes_at(ha as nat) + b.bytes_at(hb as nat),
        forall|i: int| 0 <= i < r@.len() ==> (#[trigger] r@[i]).root_ok(ha as nat),
        r@.len() == 2 ==> full_nodes(r@, ha as nat),
        a.full_at(ha as nat) ==> full_nodes(r@, ha as nat),
    decreases ha + hb, 1nat,
{
    let ca = a.children(ha);
    let n = ca.len();
    let ghost hh = (ha - 1) as nat;
    proof {
        lemma_nodes_ends(ca@, hh);
        lemma_wf_nodes_subrange(ca@, hh, 0, n - 1);
        lemma_valid_nodes(ca@.subrange(0, n - 1), hh);
        lemma_valid_nodes(ca@, hh);
    }
    let r = join(&ca[n - 1], ha - 1, b, hb);
    let mut c = copy_nodes(ca, 0, n - 1);
    extend_nodes(&mut c, &r, 0, r.len());
    proof {
        assert(r@.subrange(0, r@.len() as int) =~= r@);
        lemma_wf_nodes_subrange(ca@, hh, 0, n - 1);
        lemma_wf_nodes_concat(ca@.subrange(0, n - 1), r@, hh);
        lemma_nodes_bytes_concat(ca@.subrange(0, n - 1), r@, hh);
        lemma_full_nodes_subrange(ca@, hh, 0, n - 1);
        lemma_full_nodes_concat(ca@.subrange(0, n - 1), r@, hh);
    }
    regroup(c, ha - 1)
}

#[verifier::spinoff_prover]
fn join_left(a: &Node, ha: usize, b: &Node, hb: usize) -> (r: Vec<Node>)
    requires
        ha < hb,
        a.wf_at(ha as nat),
        b.wf_at(hb as nat),
        a.root_ok(ha as nat),
        b.root_ok(hb as nat),
        a.bytes_at(ha as nat).len() > 0,
        a.bytes_at(ha as nat).len() + b.bytes_at(hb as nat).len() <= usize::MAX,
    ensures
        1 <= r@.len() <= 2,
        wf_nodes(r@, hb as nat),
        nodes_bytes(r@, hb as nat) == a.bytes_at(ha as nat) + b.bytes_at(hb as nat),
        forall|i: int| 0 <= i < r@.len() ==> (#[trigger] r@[i]).root_ok(hb as nat),
        r@.len() == 2 ==> full_nodes(r@, hb as nat),
        b.full_at(hb as nat) ==> full_nodes(r@, hb as nat),
    decreases ha + hb, 1nat,
{
    let cb = b.children(hb);
    let n = cb.len();
    let ghost hh = (hb - 1) as nat;
    proof {
        lemma_nodes_ends(cb@, hh);
        lemma_wf_nodes_subrange(cb@, hh, 1, n as int);
        lemma_valid_nodes(cb@.subrange(1, n as int), hh);
        lemma_valid_nodes(cb@, hh);
    }
    let r = join(a, ha, &cb[0], hb - 1);
    let mut c = copy_nodes(&r, 0, r.len());
    extend_nodes(&mut c, cb, 1, n);
    proof {
        assert(r@.subrange(0, r@.len() as int) =~= r@);
        lemma_wf_nodes_subrange(cb@, hh, 1, n as int);
        lemma_wf_nodes_concat(r@, cb@.subrange(1, n as int), hh);
        lemma_nodes_bytes_concat(r@, cb@.subrange(1, n as int), hh);
        lemma_full_nodes_subrange(cb@, hh, 1, n as int);
        lemma_full_nodes_concat(r@, cb@.subrange(1, n as int), hh);
    }
    regroup(c, hb - 1)
}

} // verus!
