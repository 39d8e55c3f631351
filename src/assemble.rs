//! Building balanced trees from lists of leaves, and listing the leaves of
//! a tree.
use crate::node::{
    copy_nodes, full_nodes, lemma_branch_not_empty, lemma_full_nodes_subrange, lemma_nodes_bytes_concat, lemma_nodes_bytes_one,
    lemma_nodes_bytes_push, lemma_valid_nodes, lemma_wf_nodes_subrange, new_branch, nodes_bytes,
    wf_nodes, Node,
};
use crate::{MAX_FANOUT, MIN_FANOUT};
use vstd::prelude::*;
use vstd::utf8::*;

verus! {

broadcast use vstd::utf8::group_utf8_lib;

/// Branches over consecutive runs of at most `MAX_FANOUT` of `nodes`, one
/// level above them.
#[verifier::spinoff_prover]
fn group(nodes: &Vec<Node>, h: usize) -> (r: Vec<Node>)
    requires
        nodes@.len() >= 1,
        wf_nodes(nodes@, h as nat),
        nodes_bytes(nodes@, h as nat).len() <= usize::MAX,
        h < usize::MAX,
    ensures
        1 <= r@.len() <= nodes@.len(),
        nodes@.len() > 1 ==> r@.len() < nodes@.len(),
        wf_nodes(r@, (h + 1) as nat),
        nodes_bytes(r@, (h + 1) as nat) == nodes_bytes(nodes@, h as nat),
        full_nodes(nodes@, h as nat) ==> forall|i: int|
            0 <= i < r@.len() ==> (#[trigger] r@[i]).root_ok((h + 1) as nat),
        full_nodes(nodes@, h as nat) && nodes@.len() > MAX_FANOUT ==> full_nodes(r@, (h + 1) as nat),
        nodes@.len() <= MAX_FANOUT ==> r@.len() == 1,
{
    let ghost s = nodes@;
    let ghost hh = h as nat;
    let n = nodes.len();
    let mut r: Vec<Node> = Vec::new();
    let mut k: usize = 0;
    proof {
        assert(s.subrange(0, 0) =~= Seq::<Node>::empty());
        assert(r@ =~= Seq::<Node>::empty());
    }
    while k < n
        invariant
            s == nodes@,
            n == s.len(),
            n >= 1,
            hh == h as nat,
            h < usize::MAX,
            wf_nodes(s, hh),
            nodes_bytes(s, hh).len() <= usize::MAX,
            k <= n,
            r@.len() <= k,
            k == 0 ==> r@.len() == 0,
            k > 0 ==> r@.len() >= 1,
            k > 0 && n >= 2 ==> r@.len() < k,
            wf_nodes(r@, hh + 1),
            nodes_bytes(r@, hh + 1) == nodes_bytes(s.subrange(0, k as int), hh),
            k > 0 && k < n ==> n - k >= MIN_FANOUT,
            n <= MAX_FANOUT && k > 0 ==> k == n && r@.len() == 1,
            full_nodes(s, hh) ==> forall|i: int|
                0 <= i < r@.len() ==> (#[trigger] r@[i]).root_ok(hh + 1),
            full_nodes(s, hh) && n > MAX_FANOUT ==> full_nodes(r@, hh + 1),
        decreases n - k,
    {
        let e = if n - k > 2 * MAX_FANOUT {
            k + MAX_FANOUT
        } else if n - k > MAX_FANOUT {
            k + (n - k) / 2
        } else {
            n
        };
        let part = copy_nodes(nodes, k, e);
        proof {
            if full_nodes(s, hh) {
                lemma_full_nodes_subrange(s, hh, k as int, e as int);
            }
            lemma_wf_nodes_subrange(s, hh, k as int, e as int);
            assert(s.subrange(0, e as int) =~= s.subrange(0, k as int) + s.subrange(k as int, e as int));
            lemma_nodes_bytes_concat(s.subrange(0, k as int), s.subrange(k as int, e as int), hh);
            assert(s =~= s.subrange(0, e as int) + s.subrange(e as int, n as int));
            lemma_nodes_bytes_concat(s.subrange(0, e as int), s.subrange(e as int, n as int), hh);
        }
        let ghost ps = part@;
        let x = new_branch(part, h);
        proof {
            lemma_branch_not_empty(x, ps, hh);
            lemma_nodes_bytes_push(r@, x, hh + 1);
        }
        let ghost before = r@;
        r.push(x);
        proof {
            assert(r@ == before.push(x));
            assert(forall|i: int| 0 <= i < before.len() ==> r@[i] == before[i]);
            assert(wf_nodes(r@, hh + 1)) by {
                assert forall|q: int| 0 <= q < r@.len() implies {
                    &&& (#[trigger] r@[q]).wf_at(hh + 1)
                    &&& r@[q].bytes_at(hh + 1).len() > 0
                } by {
                    if q < before.len() {
                        assert(r@[q] == before[q]);
                    }
                }
            }
        }
        k = e;
    }
    proof {
        assert(s.subrange(0, n as int) =~= s);
    }
    r
}

/// A balanced tree over a non-empty list of leaves, with its height, which
/// is less than the length of its text.
#[verifier::spinoff_prover]
pub(crate) fn build(leaves: Vec<Node>) -> (r: (Node, usize))
    requires
        leaves@.len() >= 1,
        wf_nodes(leaves@, 0),
        full_nodes(leaves@, 0),
        nodes_bytes(leaves@, 0).len() <= usize::MAX,
    ensures
        r.0.wf_at(r.1 as nat),
        r.0.root_ok(r.1 as nat),
        r.0.bytes_at(r.1 as nat) == nodes_bytes(leaves@, 0),
        r.1 < nodes_bytes(leaves@, 0).len(),
{
    let ghost total = nodes_bytes(leaves@, 0);
    let ghost n0 = leaves@.len();
    proof {
        lemma_valid_nodes(leaves@, 0);
        match leaves@[0] {
            Node::Leaf(_) => {},
            Node::Branch(_) => {},
        }
    }
    let mut level = leaves;
    let mut h: usize = 0;
    while level.len() > 1
        invariant
            level@.len() >= 1,
            wf_nodes(level@, h as nat),
            nodes_bytes(level@, h as nat) == total,
            total.len() <= usize::MAX,
            n0 <= total.len(),
            h + level@.len() <= n0,
            level@.len() > 1 ==> full_nodes(level@, h as nat),
            level@.len() == 1 ==> level@[0].root_ok(h as nat),
        decreases level@.len(),
    {
        level = group(&level, h);
        h = h + 1;
    }
    proof {
        assert(level@ =~= seq![level@[0]]);
        lemma_nodes_bytes_one(level@[0], h as nat);
    }
    (level[0].share(), h)
}

} // verus!
