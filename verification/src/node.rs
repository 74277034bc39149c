//! The node model of the trie: four variants with path compression, their
//! well-formedness, their key-to-value meaning, their structural hash and
//! their one-word-per-unit persisted encoding.

use vstd::prelude::*;

use crate::felt::{Felt, s_hash, s_edge_hash, hash_felts, hash_edge, lemma_hash_limb_bounds};

verus! {

/// An in-memory trie node. `Unresolved` holds only the hash of a persisted
/// subtree that has not been read back yet; the loader replaces it by the
/// decoded variant before the trie works on it.
pub enum Node {
    Binary { left: Box<Node>, right: Box<Node> },
    Edge { path: Vec<bool>, child: Box<Node> },
    Leaf { value: Felt },
    Unresolved { hash: Felt },
}

impl Node {
    /// Canonical form of a fully resolved subtree of height `h` (the number
    /// of key bits it consumes): leaves carry a value other than zero and sit
    /// at height zero; an edge path has length between 1 and `h` and never
    /// leads to another edge; no node is `Unresolved`.
    pub open spec fn wf(self, h: nat) -> bool
        decreases self,
    {
        match self {
            Node::Leaf { value } => h == 0 && !value.spec_is_zero(),
            Node::Binary { left, right } => {
                h >= 1 && left.wf((h - 1) as nat) && right.wf((h - 1) as nat)
            },
            Node::Edge { path, child } => {
                &&& 1 <= path@.len() <= h
                &&& child.wf((h - path@.len()) as nat)
                &&& !(*child is Edge)
            },
            Node::Unresolved { .. } => false,
        }
    }

    /// The value the subtree holds at the key suffix `k`; the zero value
    /// stands for an absent key.
    pub open spec fn lookup(self, k: Seq<bool>) -> Felt
        decreases self,
    {
        match self {
            Node::Leaf { value } => {
                if k.len() == 0 {
                    value
                } else {
                    Felt::spec_zero()
                }
            },
            Node::Binary { left, right } => {
                if k.len() == 0 {
                    Felt::spec_zero()
                } else if k[0] {
                    right.lookup(k.skip(1))
                } else {
                    left.lookup(k.skip(1))
                }
            },
            Node::Edge { path, child } => {
                if path@.len() <= k.len() && k.take(path@.len() as int) == path@ {
                    child.lookup(k.skip(path@.len() as int))
                } else {
                    Felt::spec_zero()
                }
            },
            Node::Unresolved { .. } => Felt::spec_zero(),
        }
    }

    /// The structural hash of the subtree: a leaf hashes to its value, a
    /// binary node to `H(left, right)`, an edge to `H(child, path) + length`,
    /// and an unresolved node carries its hash verbatim.
    pub open spec fn nh(self) -> Felt
        decreases self,
    {
        match self {
            Node::Leaf { value } => value,
            Node::Binary { left, right } => s_hash(left.nh(), right.nh()),
            Node::Edge { path, child } => s_edge_hash(child.nh(), path@),
            Node::Unresolved { hash } => hash,
        }
    }

    /// The persisted encoding of this node: a tag word, then the payload;
    /// children appear as their hashes.
    pub open spec fn enc(self) -> Seq<u64> {
        match self {
            Node::Leaf { value } => enc_leaf(value),
            Node::Binary { left, right } => enc_binary(left.nh(), right.nh()),
            Node::Edge { path, child } => enc_edge(path@, child.nh()),
            Node::Unresolved { hash } => Seq::empty(),
        }
    }

    /// What `decode` may produce: a leaf with a value other than zero, or a
    /// binary/edge node whose children are unresolved hashes.
    pub open spec fn shallow_wf(self) -> bool {
        match self {
            Node::Leaf { value } => !value.spec_is_zero(),
            Node::Binary { left, right } => (*left is Unresolved) && (*right is Unresolved),
            Node::Edge { path, child } => 1 <= path@.len() <= 251 && (*child is Unresolved),
            Node::Unresolved { .. } => false,
        }
    }
}

pub open spec fn felt_words(f: Felt) -> Seq<u64> {
    seq![f.l0, f.l1, f.l2, f.l3]
}

pub open spec fn enc_leaf(v: Felt) -> Seq<u64> {
    seq![0u64] + felt_words(v)
}

pub open spec fn enc_binary(lh: Felt, rh: Felt) -> Seq<u64> {
    seq![1u64] + felt_words(lh) + felt_words(rh)
}

pub open spec fn enc_edge(path: Seq<bool>, ch: Felt) -> Seq<u64> {
    seq![2u64, path.len() as u64] + Seq::new(path.len(), |i: int| if path[i] { 1u64 } else { 0u64 })
        + felt_words(ch)
}

impl Node {
    /// Computes the structural hash of a fully resolved subtree.
    pub fn compute_hash(&self, Ghost(h): Ghost<nat>) -> (r: Felt)
        requires
            self.wf(h),
            h <= 251,
        ensures
            r == self.nh(),
        decreases self,
    {
        match self {
            Node::Leaf { value } => *value,
            Node::Binary { left, right } => {
                let lh = left.compute_hash(Ghost((h - 1) as nat));
                let rh = right.compute_hash(Ghost((h - 1) as nat));
                hash_felts(lh, rh)
            },
            Node::Edge { path, child } => {
                let ch = child.compute_hash(Ghost((h - path@.len()) as nat));
                hash_edge(ch, path)
            },
            Node::Unresolved { hash } => *hash,
        }
    }
}

/// No canonical subtree hashes to the zero value: leaves carry a value other
/// than zero, and every internal hash has its second limb forced odd. The
/// zero commitment therefore denotes exactly the empty trie.
pub proof fn lemma_nh_nonzero(n: Node, h: nat)
    requires
        n.wf(h),
    ensures
        n.nh() != Felt::spec_zero(),
    decreases n,
{
    match n {
        Node::Leaf { .. } => {},
        Node::Binary { left, right } => {
            lemma_hash_limb_bounds(left.nh(), right.nh());
        },
        Node::Edge { path, child } => {
            lemma_hash_limb_bounds(child.nh(), crate::felt::s_path_felt(path@));
        },
        Node::Unresolved { .. } => {},
    }
}

} // verus!
