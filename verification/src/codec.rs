//! The persisted encoding of nodes: one tag word, then the payload, children
//! as their hashes; and the decoder back to a shallow node.

use vstd::prelude::*;

use crate::errors::TrieError;
use crate::felt::Felt;
use crate::node::{Node, enc_leaf, enc_binary, enc_edge, felt_words};

verus! {

/// The words that are a well-formed encoding of some canonical node: a leaf
/// with a value other than zero, a binary node, or an edge whose declared
/// path length is between 1 and 251 and whose path words are bits.
pub open spec fn valid_enc(b: Seq<u64>) -> bool {
    ||| (b.len() == 5 && b[0] == 0 && !(Felt { l0: b[1], l1: b[2], l2: b[3], l3: b[4] }).spec_is_zero())
    ||| (b.len() == 9 && b[0] == 1)
    ||| (b.len() >= 7 && b[0] == 2 && 1 <= b[1] <= 251 && b.len() == 6 + b[1] && (forall|t: int|
        2 <= t < 2 + b[1] ==> ((#[trigger] b[t]) == 0 || b[t] == 1)))
}

/// Appends the four limbs of a value.
fn push_felt(out: &mut Vec<u64>, f: Felt)
    ensures
        final(out)@ == old(out)@ + felt_words(f),
{
    out.push(f.l0);
    out.push(f.l1);
    out.push(f.l2);
    out.push(f.l3);
    proof {
        assert(out@ =~= old(out)@ + felt_words(f));
    }
}

/// Reads four limbs starting at `at`.
fn read_felt(b: &Vec<u64>, at: usize) -> (f: Felt)
    requires
        at + 4 <= b@.len(),
    ensures
        f == (Felt { l0: b@[at as int], l1: b@[at + 1], l2: b@[at + 2], l3: b@[at + 3] }),
{
    let n = b.len();
    proof {
        assert(at + 4 <= n);
    }
    Felt { l0: b[at], l1: b[at + 1], l2: b[at + 2], l3: b[at + 3] }
}

/// Encodes a leaf.
pub fn encode_leaf_node(v: Felt) -> (r: Vec<u64>)
    ensures
        r@ == enc_leaf(v),
{
    let mut out: Vec<u64> = Vec::new();
    out.push(0);
    push_felt(&mut out, v);
    proof {
        assert(out@ =~= enc_leaf(v));
    }
    out
}

/// Encodes a binary node from its two child hashes.
pub fn encode_binary_node(lh: Felt, rh: Felt) -> (r: Vec<u64>)
    ensures
        r@ == enc_binary(lh, rh),
{
    let mut out: Vec<u64> = Vec::new();
    out.push(1);
    push_felt(&mut out, lh);
    push_felt(&mut out, rh);
    proof {
        assert(out@ =~= enc_binary(lh, rh));
    }
    out
}

/// Encodes an edge from its path and its child hash.
pub fn encode_edge_node(path: &Vec<bool>, ch: Felt) -> (r: Vec<u64>)
    requires
        1 <= path@.len() <= 251,
    ensures
        r@ == enc_edge(path@, ch),
{
    let mut out: Vec<u64> = Vec::new();
    out.push(2);
    out.push(path.len() as u64);
    let mut t: usize = 0;
    while t < path.len()
        invariant
            t <= path@.len(),
            path@.len() <= 251,
            out@ == seq![2u64, path@.len() as u64] + Seq::new(t as nat, |u: int| if path@[u] {
                1u64
            } else {
                0u64
            }),
        decreases path@.len() - t,
    {
        out.push(if path[t] { 1 } else { 0 });
        proof {
            assert(out@ =~= seq![2u64, path@.len() as u64] + Seq::new((t + 1) as nat, |u: int|
                if path@[u] {
                    1u64
                } else {
                    0u64
                }));
        }
        t += 1;
    }
    push_felt(&mut out, ch);
    proof {
        assert(out@ =~= enc_edge(path@, ch));
    }
    out
}

/// Every canonical node's encoding is well formed.
pub proof fn lemma_enc_valid(n: Node, h: nat)
    requires
        n.wf(h),
        h <= 251,
    ensures
        valid_enc(n.enc()),
    decreases n,
{
    match n {
        Node::Leaf { value } => {
            assert(n.enc() == enc_leaf(value));
            assert(n.enc().len() == 5);
            assert(n.enc()[0] == 0 && n.enc()[1] == value.l0 && n.enc()[2] == value.l1
                && n.enc()[3] == value.l2 && n.enc()[4] == value.l3);
        },
        Node::Binary { left, right } => {
            assert(n.enc().len() == 9);
            assert(n.enc()[0] == 1);
        },
        Node::Edge { path, child } => {
            let b = n.enc();
            assert(b.len() == 6 + path@.len());
            assert(b[0] == 2 && b[1] == path@.len());
            assert forall|t: int| 2 <= t < 2 + b[1] implies ((#[trigger] b[t]) == 0 || b[t]
                == 1) by {
                assert(b[t] == (if path@[t - 2] { 1u64 } else { 0u64 }));
            }
        },
        Node::Unresolved { .. } => {
            assert(false);
        },
    }
}

/// Decodes one persisted node into its shallow form: children stand as
/// unresolved hashes. Every word sequence that `valid_enc` admits decodes;
/// everything else is `StorageCorruption`.
pub fn decode_node(b: &Vec<u64>) -> (r: Result<Node, TrieError>)
    ensures
        r matches Ok(d) ==> d.shallow_wf() && d.enc() == b@,
        valid_enc(b@) ==> r is Ok,
        r is Err ==> r == Err::<Node, TrieError>(TrieError::StorageCorruption),
{
    if b.len() == 0 {
        return Err(TrieError::StorageCorruption);
    }
    let tag = b[0];
    if tag == 0 {
        if b.len() != 5 {
            return Err(TrieError::StorageCorruption);
        }
        let v = read_felt(b, 1);
        if v.is_zero() {
            return Err(TrieError::StorageCorruption);
        }
        let d = Node::Leaf { value: v };
        proof {
            assert(d.enc() =~= b@);
        }
        Ok(d)
    } else if tag == 1 {
        if b.len() != 9 {
            return Err(TrieError::StorageCorruption);
        }
        let lh = read_felt(b, 1);
        let rh = read_felt(b, 5);
        let d = Node::Binary {
            left: Box::new(Node::Unresolved { hash: lh }),
            right: Box::new(Node::Unresolved { hash: rh }),
        };
        proof {
            assert(d.enc() =~= b@);
        }
        Ok(d)
    } else if tag == 2 {
        if b.len() < 7 {
            return Err(TrieError::StorageCorruption);
        }
        let len = b[1];
        if len < 1 || len > 251 {
            return Err(TrieError::StorageCorruption);
        }
        let len_u = len as usize;
        if b.len() != 6 + len_u {
            return Err(TrieError::StorageCorruption);
        }
        let mut path: Vec<bool> = Vec::new();
        let mut t: usize = 0;
        while t < len_u
            invariant
                t <= len_u,
                len_u == len,
                1 <= len <= 251,
                b@.len() == 6 + len,
                b@[0] == 2,
                len == b@[1],
                path@.len() == t,
                forall|u: int| 0 <= u < t ==> (#[trigger] b@[2 + u]) == (if path@[u] { 1u64 } else { 0u64 }),
            decreases len_u - t,
        {
            let w = b[2 + t];
            proof {
                assert(w == b@[2 + t as int]);
            }
            if w == 0 {
                path.push(false);
            } else if w == 1 {
                path.push(true);
            } else {
                proof {
                    if valid_enc(b@) {
                        assert(b@[0] == 2);
                        assert(2 + (t as int) < 2 + b@[1]);
                        assert(b@[2 + (t as int)] == 0 || b@[2 + (t as int)] == 1);
                        assert(false);
                    }
                }
                return Err(TrieError::StorageCorruption);
            }
            t += 1;
        }
        let ch = read_felt(b, 2 + len_u);
        let d = Node::Edge { path, child: Box::new(Node::Unresolved { hash: ch }) };
        proof {
            let be = enc_edge(path@, ch);
            assert(d.enc() == be);
            assert(be.len() == b@.len());
            assert forall|u: int| 0 <= u < b@.len() implies be[u] == b@[u] by {
                if u == 0 {
                    assert(be[0] == 2);
                } else if u == 1 {
                    assert(be[1] == path@.len() as u64);
                } else if 2 <= u < 2 + len {
                    assert(be[u] == Seq::new(path@.len(), |x: int| if path@[x] {
                        1u64
                    } else {
                        0u64
                    })[u - 2]);
                    assert(b@[2 + (u - 2)] == (if path@[u - 2] { 1u64 } else { 0u64 }));
                } else {
                    assert(be[u] == felt_words(ch)[u - (2 + len)]);
                }
            }
            assert(d.enc() =~= b@);
        }
        Ok(d)
    } else {
        Err(TrieError::StorageCorruption)
    }
}

} // verus!
