//! Merkle inclusion proofs: a compact witness for one key, verifiable from
//! the root commitment alone, without the trie.

use vstd::prelude::*;

use crate::errors::TrieError;
use crate::felt::{Felt, s_hash, s_edge_hash, hash_felts, hash_edge};
use crate::node::{Node, lemma_nh_nonzero};
use crate::trie::{Key, MerkleTree, common_prefix};

verus! {

/// One step of a proof: the public form of a node on the descent, carrying
/// the hashes of everything not on the path.
pub enum ProofNode {
    Binary { left: Felt, right: Felt },
    Edge { path: Vec<bool>, child: Felt },
}

/// The mathematical view of one proof step.
pub enum ProofStep {
    Binary { left: Felt, right: Felt },
    Edge { path: Seq<bool>, child: Felt },
}

pub open spec fn step_of(p: ProofNode) -> ProofStep {
    match p {
        ProofNode::Binary { left, right } => ProofStep::Binary { left, right },
        ProofNode::Edge { path, child } => ProofStep::Edge { path: path@, child },
    }
}

/// The descent for a key suffix: each node on the path from this subtree's
/// root down, in order, stopping above the leaf or at the edge whose path
/// leaves the key.
pub open spec fn descent(n: Node, k: Seq<bool>) -> Seq<ProofStep>
    decreases n,
{
    match n {
        Node::Leaf { .. } => Seq::empty(),
        Node::Binary { left, right } => seq![ProofStep::Binary {
            left: left.nh(),
            right: right.nh(),
        }] + (if k.len() > 0 {
            if k[0] {
                descent(*right, k.skip(1))
            } else {
                descent(*left, k.skip(1))
            }
        } else {
            Seq::empty()
        }),
        Node::Edge { path, child } => seq![ProofStep::Edge {
            path: path@,
            child: child.nh(),
        }] + (if path@.len() <= k.len() && k.take(path@.len() as int) == path@ {
            descent(*child, k.skip(path@.len() as int))
        } else {
            Seq::empty()
        }),
        Node::Unresolved { .. } => Seq::empty(),
    }
}

/// Walks the proof from position `t` with `expected` as the hash that the
/// current node must have, consuming key bits from `i`; accepts when the
/// proof ends at full depth with the claimed value as the final hash, or at
/// an edge whose path leaves the key, which proves absence.
pub open spec fn spec_verify_from(p: Seq<ProofNode>, k: Seq<bool>, i: int, expected: Felt,
    value: Felt) -> bool
    decreases p.len(),
{
    if p.len() == 0 {
        i == k.len() && expected == value
    } else {
        match p[0] {
            ProofNode::Binary { left, right } => {
                &&& expected == s_hash(left, right)
                &&& i < k.len()
                &&& spec_verify_from(p.skip(1), k, i + 1, if k[i] {
                    right
                } else {
                    left
                }, value)
            },
            ProofNode::Edge { path, child } => {
                &&& expected == s_edge_hash(child, path@)
                &&& i + path@.len() <= k.len()
                &&& if k.subrange(i, i + path@.len()) == path@ {
                    spec_verify_from(p.skip(1), k, i + path@.len(), child, value)
                } else {
                    p.len() == 1 && value == Felt::spec_zero()
                }
            },
        }
    }
}

/// A proof verifies against a key, a claimed value (zero claims absence) and
/// a root commitment. The zero root is the empty trie: only the empty proof
/// of absence verifies there.
pub open spec fn spec_verify(p: Seq<ProofNode>, k: Seq<bool>, value: Felt, root: Felt) -> bool {
    if root == Felt::spec_zero() {
        p.len() == 0 && value == Felt::spec_zero()
    } else {
        spec_verify_from(p, k, 0, root, value)
    }
}

impl MerkleTree {
    /// The root commitment this trie would report: zero when empty.
    pub open spec fn spec_root_hash(self) -> Felt {
        match self.spec_root() {
            None => Felt::spec_zero(),
            Some(n) => n.nh(),
        }
    }

    /// The descent this trie makes for a key.
    pub open spec fn spec_descent(self, k: Seq<bool>) -> Seq<ProofStep> {
        match self.spec_root() {
            None => Seq::empty(),
            Some(n) => descent(n, k),
        }
    }

    /// Emits the inclusion proof for `key`: exactly the nodes on the descent,
    /// root first, ending above the leaf or at the edge that leaves the key.
    /// The proof verifies against this trie's root and the value `get`
    /// returns — proof soundness.
    pub fn get_proof(&self, key: &Key) -> (r: Vec<ProofNode>)
        requires
            self.wf(),
            key.wf(),
        ensures
            spec_verify(r@, key@, self.lookup(key@), self.spec_root_hash()),
            r@.len() == self.spec_descent(key@).len(),
            forall|u: int| 0 <= u < r@.len() ==> step_of(#[trigger] r@[u])
                == self.spec_descent(key@)[u],
    {
        let mut out: Vec<ProofNode> = Vec::new();
        match &self.root {
            None => out,
            Some(n) => {
                proof {
                    assert(key@.skip(0) =~= key@);
                    lemma_nh_nonzero(*n, 251);
                }
                proof_rec(n, key, 0, &mut out);
                proof {
                    assert(out@.skip(0) =~= out@);
                    assert forall|u: int| 0 <= u < out@.len() implies step_of(
                        #[trigger] out@[u]) == descent(*n, key@.skip(0))[u] by {
                        assert(step_of(out@[0 + u]) == descent(*n, key@.skip(0))[u]);
                    }
                }
                out
            },
        }
    }
}

/// Appends the proof nodes for the descent through a subtree of height
/// `251 - i`.
fn proof_rec(n: &Node, key: &Key, i: usize, out: &mut Vec<ProofNode>)
    requires
        key.wf(),
        i <= 251,
        n.wf((251 - i) as nat),
    ensures
        final(out)@.len() >= old(out)@.len(),
        forall|u: int| 0 <= u < old(out)@.len() ==> final(out)@[u] == old(out)@[u],
        spec_verify_from(final(out)@.skip(old(out)@.len() as int), key@, i as int, n.nh(),
            n.lookup(key@.skip(i as int))),
        final(out)@.len() == old(out)@.len() + descent(*n, key@.skip(i as int)).len(),
        forall|u: int| 0 <= u < descent(*n, key@.skip(i as int)).len() ==> step_of(
            #[trigger] final(out)@[old(out)@.len() + u]) == descent(*n, key@.skip(
            i as int))[u],
    decreases *n,
{
    let ghost base = out@.len() as int;
    let ghost dsc = descent(*n, key@.skip(i as int));
    match n {
        Node::Leaf { .. } => {
            proof {
                assert(out@.skip(base).len() == 0);
            }
        },
        Node::Binary { left, right } => {
            let lh = left.compute_hash(Ghost((250 - i) as nat));
            let rh = right.compute_hash(Ghost((250 - i) as nat));
            out.push(ProofNode::Binary { left: lh, right: rh });
            proof {
                assert(key@.skip(i as int).skip(1) =~= key@.skip(i + 1));
            }
            let ghost sub = if key@[i as int] {
                descent(**right, key@.skip(i + 1))
            } else {
                descent(**left, key@.skip(i + 1))
            };
            if key.bit(i) {
                proof_rec(right, key, i + 1, out);
            } else {
                proof_rec(left, key, i + 1, out);
            }
            proof {
                assert(out@.skip(base)[0] == out@[base]);
                assert(out@.skip(base).skip(1) =~= out@.skip(base + 1));
                assert(dsc =~= seq![ProofStep::Binary {
                    left: left.nh(),
                    right: right.nh(),
                }] + sub);
                assert forall|u: int| 0 <= u < dsc.len() implies step_of(#[trigger] out@[base
                    + u]) == dsc[u] by {
                    if u == 0 {
                        assert(out@[base] == ProofNode::Binary { left: lh, right: rh });
                    } else {
                        assert(dsc[u] == sub[u - 1]);
                        assert(step_of(out@[(base + 1) + (u - 1)]) == sub[u - 1]);
                        assert(base + u == (base + 1) + (u - 1));
                    }
                }
            }
        },
        Node::Edge { path, child } => {
            let ch = child.compute_hash(Ghost((251 - i - path.len()) as nat));
            let mut p: Vec<bool> = Vec::new();
            let mut t: usize = 0;
            while t < path.len()
                invariant
                    t <= path@.len(),
                    p@ == path@.take(t as int),
                decreases path@.len() - t,
            {
                p.push(path[t]);
                proof {
                    assert(path@.take(t as int) + seq![path@[t as int]] =~= path@.take(t + 1));
                }
                t += 1;
            }
            proof {
                assert(p@ =~= path@);
            }
            let j = common_prefix(path, key, i);
            out.push(ProofNode::Edge { path: p, child: ch });
            proof {
                assert(step_of(ProofNode::Edge { path: p, child: ch }) == ProofStep::Edge {
                    path: path@,
                    child: child.nh(),
                });
            }
            if j == path.len() {
                proof {
                    assert(key@.skip(i as int).take(path@.len() as int) =~= path@);
                    assert(key@.skip(i as int).subrange(0, path@.len() as int) =~= path@);
                    assert(key@.skip(i as int).skip(path@.len() as int) =~= key@.skip(
                        i + path@.len()));
                    assert(key@.subrange(i as int, i + path@.len()) =~= path@);
                }
                let ghost sub = descent(**child, key@.skip(i + path@.len()));
                proof_rec(child, key, i + j, out);
                proof {
                    assert(out@.skip(base)[0] == out@[base]);
                    assert(out@.skip(base).skip(1) =~= out@.skip(base + 1));
                    assert(dsc =~= seq![ProofStep::Edge {
                        path: path@,
                        child: child.nh(),
                    }] + sub);
                    assert forall|u: int| 0 <= u < dsc.len() implies step_of(
                        #[trigger] out@[base + u]) == dsc[u] by {
                        if u == 0 {
                            assert(out@[base] == ProofNode::Edge { path: p, child: ch });
                        } else {
                            assert(dsc[u] == sub[u - 1]);
                            assert(step_of(out@[(base + 1) + (u - 1)]) == sub[u - 1]);
                            assert(base + u == (base + 1) + (u - 1));
                        }
                    }
                }
            } else {
                proof {
                    assert(key@.subrange(i as int, i + path@.len())[j as int] == key@[i + j]);
                    assert(key@.subrange(i as int, i + path@.len()) != path@);
                    assert(key@.skip(i as int).take(path@.len() as int)[j as int] == key@[i
                        + j]);
                    assert(key@.skip(i as int).take(path@.len() as int) != path@);
                    assert(out@.skip(base)[0] == out@[base]);
                    assert(out@.skip(base).len() == 1);
                    assert(dsc =~= seq![ProofStep::Edge {
                        path: path@,
                        child: child.nh(),
                    }]);
                    assert(out@[base] == ProofNode::Edge { path: p, child: ch });
                }
            }
        },
        Node::Unresolved { .. } => {
            proof {
                assert(false);
            }
        },
    }
}

/// Recomputes the root from a proof; true exactly when the proof binds
/// `value` (zero for absence) to `key` under `root`.
pub fn verify_proof(pf: &Vec<ProofNode>, key: &Key, value: Felt, root: Felt) -> (r: bool)
    requires
        key.wf(),
    ensures
        r == spec_verify(pf@, key@, value, root),
{
    if root.is_zero() {
        return pf.len() == 0 && value.is_zero();
    }
    proof {
        assert(pf@.skip(0) =~= pf@);
    }
    verify_from(pf, 0, key, 0, root, value)
}

/// `verify_proof` as a `Result`: a proof that does not verify is
/// `InvalidProof`.
pub fn check_proof(pf: &Vec<ProofNode>, key: &Key, value: Felt, root: Felt) -> (r: Result<
    (), TrieError>)
    requires
        key.wf(),
    ensures
        r is Ok <==> spec_verify(pf@, key@, value, root),
        r is Err ==> r == Err::<(), TrieError>(TrieError::InvalidProof),
{
    if verify_proof(pf, key, value, root) {
        Ok(())
    } else {
        Err(TrieError::InvalidProof)
    }
}

/// Walks the proof from entry `t` expecting `expected` as the hash of the
/// node there.
fn verify_from(pf: &Vec<ProofNode>, t: usize, key: &Key, i: usize, expected: Felt,
    value: Felt) -> (r: bool)
    requires
        key.wf(),
        t <= pf@.len(),
        i <= 251,
    ensures
        r == spec_verify_from(pf@.skip(t as int), key@, i as int, expected, value),
    decreases pf@.len() - t,
{
    if t == pf.len() {
        proof {
            assert(pf@.skip(t as int).len() == 0);
        }
        return i == 251 && expected == value;
    }
    proof {
        assert(pf@.skip(t as int)[0] == pf@[t as int]);
        assert(pf@.skip(t as int).skip(1) =~= pf@.skip(t as int + 1));
    }
    match &pf[t] {
        ProofNode::Binary { left, right } => {
            if i >= 251 {
                return false;
            }
            let h = hash_felts(*left, *right);
            if !(expected == h) {
                return false;
            }
            let next = if key.bit(i) {
                *right
            } else {
                *left
            };
            verify_from(pf, t + 1, key, i + 1, next, value)
        },
        ProofNode::Edge { path, child } => {
            if path.len() > 251 - i {
                return false;
            }
            if path.len() > 251 {
                return false;
            }
            let h = hash_edge(*child, path);
            if !(expected == h) {
                return false;
            }
            let j = common_prefix(path, key, i);
            if j == path.len() {
                proof {
                    assert(key@.subrange(i as int, i + path@.len()) =~= path@);
                }
                verify_from(pf, t + 1, key, i + path.len(), *child, value)
            } else {
                proof {
                    assert(key@.subrange(i as int, i + path@.len())[j as int] == key@[i + j]);
                    assert(key@.subrange(i as int, i + path@.len()) != path@);
                }
                return pf.len() - t == 1 && value.is_zero();
            }
        },
    }
}

} // verus!
