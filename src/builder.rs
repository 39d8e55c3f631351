//! Building a rope from many pieces of text without rebalancing after each.
use crate::leaf::Leaf;
use crate::assemble::build;
use crate::text::floor_boundary;
use crate::node::{full_nodes, lemma_nodes_bytes_push, lemma_valid_nodes, nodes_bytes, wf_nodes, Node};
use crate::rope::Rope;
use crate::{Error, MAX_LEAF_BYTES, MIN_LEAF_BYTES};
use std::rc::Rc;
use vstd::prelude::*;
use vstd::string::*;
use vstd::utf8::*;

verus! {

broadcast use vstd::utf8::group_utf8_lib;

/// Collects text into full leaves, and makes a balanced rope of them at the
/// end.
pub struct Builder {
    leaves: Vec<Node>,
    pending: String,
}

impl View for Builder {
    type V = Seq<u8>;

    /// The UTF-8 bytes pushed so far.
    closed spec fn view(&self) -> Seq<u8> {
        nodes_bytes(self.leaves@, 0) + encode_utf8(self.pending@)
    }
}

impl Builder {
    pub closed spec fn wf(&self) -> bool {
        &&& wf_nodes(self.leaves@, 0)
        &&& full_nodes(self.leaves@, 0)
        &&& encode_utf8(self.pending@).len() <= MAX_LEAF_BYTES
        &&& self@.len() <= usize::MAX
    }

    /// A builder that holds no text.
    pub fn new() -> (r: Builder)
        ensures
            r.wf(),
            r@ == Seq::<u8>::empty(),
    {
        let r = Builder { leaves: Vec::new(), pending: String::new() };
        proof {
            assert(nodes_bytes(r.leaves@, 0) =~= Seq::<u8>::empty());
            assert(encode_utf8(r.pending@) =~= Seq::<u8>::empty());
            assert(r@ =~= Seq::<u8>::empty());
        }
        r
    }

    /// Turns the pending text, which is not empty, into a leaf.
    fn flush(&mut self)
        requires
            old(self).wf(),
            encode_utf8(old(self).pending@).len() >= MIN_LEAF_BYTES,
        ensures
            final(self).wf(),
            final(self)@ == old(self)@,
            final(self).pending@.len() == 0,
    {
        let leaf = Leaf::from_str(self.pending.as_str());
        let x = Node::Leaf(Rc::new(leaf));
        let ghost before = self.leaves@;
        self.leaves.push(x);
        self.pending = String::new();
        proof {
            lemma_nodes_bytes_push(before, x, 0);
            assert(encode_utf8(self.pending@) =~= Seq::<u8>::empty());
            assert(self@ =~= old(self)@);
            assert(full_nodes(self.leaves@, 0)) by {
                assert forall|q: int| 0 <= q < self.leaves@.len() implies (#[trigger] self.leaves@[q]).full_at(0) by {
                    if q < before.len() {
                        assert(self.leaves@[q] == before[q]);
                    }
                }
            }
            assert(wf_nodes(self.leaves@, 0)) by {
                assert forall|q: int| 0 <= q < self.leaves@.len() implies {
                    &&& (#[trigger] self.leaves@[q]).wf_at(0)
                    &&& self.leaves@[q].bytes_at(0).len() > 0
                } by {
                    if q < before.len() {
                        assert(self.leaves@[q] == before[q]);
                    }
                }
            }
        }
    }

    /// Appends `text` to what was pushed before.
    #[verifier::spinoff_prover]
    pub fn push(&mut self, text: &str)
        requires
            old(self).wf(),
            old(self)@.len() + text.spec_bytes().len() <= usize::MAX,
        ensures
            final(self).wf(),
            final(self)@ == old(self)@ + text.spec_bytes(),
    {
        let mut rest: &str = text;
        proof {
            assert(text.spec_bytes() =~= text.spec_bytes().subrange(0, text.spec_bytes().len() as int));
        }
        loop
            invariant_except_break
                self@ + rest.spec_bytes() == old(self)@ + text.spec_bytes(),
            invariant
                self.wf(),
                old(self)@.len() + text.spec_bytes().len() <= usize::MAX,
            ensures
                self.wf(),
                self@ == old(self)@ + text.spec_bytes(),
            decreases rest.spec_bytes().len(), encode_utf8(self.pending@).len(),
        {
            let used = self.pending.as_str().len();
            let room = MAX_LEAF_BYTES - used;
            if rest.len() <= room {
                let ghost p = self.pending@;
                self.pending.append(rest);
                proof {
                    crate::leaf::lemma_encode_concat(p, rest@);
                    assert(self@ =~= old(self)@ + text.spec_bytes());
                }
                break;
            }
            let k = floor_boundary(rest, room);
            if k == 0 {
                self.flush();
            } else {
                let (a, b) = rest.split_at(k);
                let ghost p = self.pending@;
                let ghost before = self@;
                self.pending.append(a);
                proof {
                    crate::leaf::lemma_encode_concat(p, a@);
                    assert(rest.spec_bytes() =~= a.spec_bytes() + b.spec_bytes());
                    assert(self@ =~= before + a.spec_bytes());
                    assert(self@ + b.spec_bytes() =~= before + rest.spec_bytes());
                }
                self.flush();
                rest = b;
            }
        }
    }

    /// Appends the text that the UTF-8 `bytes` encode. Bytes that are not
    /// valid UTF-8 are refused, and then nothing is appended.
    pub fn push_bytes(&mut self, bytes: &[u8]) -> (r: Result<(), Error>)
        requires
            old(self).wf(),
            old(self)@.len() + bytes@.len() <= usize::MAX,
        ensures
            final(self).wf(),
            r is Ok <==> valid_utf8(bytes@),
            r is Ok ==> final(self)@ == old(self)@ + bytes@,
            r is Err ==> r->Err_0 == Error::InvalidEncoding && final(self)@ == old(self)@,
    {
        match decode_text(bytes) {
            Some(text) => {
                self.push(text);
                Ok(())
            },
            None => Err(Error::InvalidEncoding),
        }
    }

    /// The rope of all the text pushed.
    pub fn finish(self) -> (r: Rope)
        requires
            self.wf(),
        ensures
            r.wf(),
            r@ == self@,
    {
        let b = self;
        let ghost full = nodes_bytes(b.leaves@, 0);
        let ghost tail = encode_utf8(b.pending@);
        let mut r = if b.leaves.len() == 0 {
            proof {
                assert(nodes_bytes(b.leaves@, 0) =~= Seq::<u8>::empty());
            }
            Rope::empty()
        } else {
            proof {
                lemma_valid_nodes(b.leaves@, 0);
            }
            let (root, h) = build(b.leaves);
            Rope::from_parts(root, h)
        };
        if b.pending.as_str().len() > 0 {
            let leaf = Leaf::from_str(b.pending.as_str());
            r.append(Rope::from_leaf(leaf));
        } else {
            proof {
                assert(r@ + tail =~= r@);
            }
        }
        r
    }
}

/// Relies on `std::str::from_utf8`: it accepts exactly the valid UTF-8
/// inputs, and the text it returns is made of the same bytes.
#[verifier::external_body]
fn decode_text(bytes: &[u8]) -> (r: Option<&str>)
    ensures
        r is Some <==> valid_utf8(bytes@),
        r matches Some(s) ==> s.spec_bytes() == bytes@,
{
    std::str::from_utf8(bytes).ok()
}

impl Rope {
    /// A rope that holds `text`.
    pub fn from(text: &str) -> (r: Rope)
        ensures
            r.wf(),
            r@ == text.spec_bytes(),
    {
        let mut b = Builder::new();
        let _n = text.as_bytes().len();
        proof {
            assert(Seq::<u8>::empty() + text.spec_bytes() =~= text.spec_bytes());
        }
        b.push(text);
        b.finish()
    }
}

} // verus!
