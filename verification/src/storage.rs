//! Committing a trie to the node store and loading it back: bottom-up
//! hashing with serialization of every subtree, and recursive resolution of
//! persisted nodes from the root hash down.

use vstd::prelude::*;

use crate::codec::{decode_node, encode_binary_node, encode_edge_node, encode_leaf_node,
    lemma_enc_valid};
use crate::errors::TrieError;
use crate::felt::{Felt, hash_edge, hash_felts};
use crate::node::Node;
use crate::store::NodeStore;
use crate::trie::MerkleTree;

verus! {

/// The store holds this subtree: the encoding of every node of it sits under
/// that node's hash.
pub open spec fn models(m: Map<Felt, Seq<u64>>, n: Node) -> bool
    decreases n,
{
    &&& m.contains_key(n.nh())
    &&& m[n.nh()] == n.enc()
    &&& match n {
        Node::Binary { left, right } => models(m, *left) && models(m, *right),
        Node::Edge { path, child } => models(m, *child),
        Node::Leaf { .. } => true,
        Node::Unresolved { .. } => false,
    }
}

/// All nodes of a subtree, itself included.
pub open spec fn subtrees(n: Node) -> Set<Node>
    decreases n,
{
    match n {
        Node::Binary { left, right } => subtrees(*left).union(subtrees(*right)).insert(n),
        Node::Edge { path, child } => subtrees(*child).insert(n),
        _ => Set::empty().insert(n),
    }
}

/// Some entry of `s` pairs this hash with these words.
pub open spec fn pair_in(s: Seq<(Felt, Vec<u64>)>, h: Felt, b: Seq<u64>) -> bool {
    exists|t: int| 0 <= t < s.len() && (#[trigger] s[t]).0 == h && s[t].1@ == b
}

/// A pair stays present when the sequence grows at the end.
proof fn lemma_pair_in_extend(s1: Seq<(Felt, Vec<u64>)>, s2: Seq<(Felt, Vec<u64>)>, h: Felt,
    b: Seq<u64>)
    requires
        pair_in(s1, h, b),
        s2.len() >= s1.len(),
        forall|u: int| 0 <= u < s1.len() ==> s2[u] == s1[u],
    ensures
        pair_in(s2, h, b),
{
    let t = choose|t: int| 0 <= t < s1.len() && (#[trigger] s1[t]).0 == h && s1[t].1@ == b;
    assert(s2[t] == s1[t]);
    assert((s2[t]).0 == h && s2[t].1@ == b);
}

/// A store that holds every subtree's encoding under its hash models the
/// tree.
proof fn lemma_models_from_pairs(m: Map<Felt, Seq<u64>>, n: Node, h: nat)
    requires
        n.wf(h),
        forall|s: Node| #[trigger] subtrees(n).contains(s) ==> m.contains_key(s.nh())
            && m[s.nh()] == s.enc(),
    ensures
        models(m, n),
    decreases n,
{
    assert(subtrees(n).contains(n));
    match n {
        Node::Binary { left, right } => {
            assert forall|s: Node| subtrees(*left).contains(s) implies subtrees(n).contains(s)
                by {}
            assert forall|s: Node| subtrees(*right).contains(s) implies subtrees(n).contains(
                s) by {}
            lemma_models_from_pairs(m, *left, (h - 1) as nat);
            lemma_models_from_pairs(m, *right, (h - 1) as nat);
        },
        Node::Edge { path, child } => {
            assert forall|s: Node| subtrees(*child).contains(s) implies subtrees(n).contains(
                s) by {}
            lemma_models_from_pairs(m, *child, (h - path@.len()) as nat);
        },
        _ => {},
    }
}


/// A store state a trie can be committed into: every subtree whose hash the
/// store already knows is stored with exactly that subtree's encoding, and no
/// two subtrees of the trie collide on one hash with different encodings.
/// Under this condition a commit is guaranteed to succeed.
pub open spec fn commit_compatible(m: Map<Felt, Seq<u64>>, n: Node) -> bool {
    &&& (forall|s: Node| #[trigger] subtrees(n).contains(s) ==> !m.contains_key(s.nh())
        || m[s.nh()] == s.enc())
    &&& (forall|s1: Node, s2: Node|
        #![trigger subtrees(n).contains(s1), subtrees(n).contains(s2)]
        subtrees(n).contains(s1) && subtrees(n).contains(s2) && s1.nh() == s2.nh()
            ==> s1.enc() == s2.enc())
}


/// A store already holds every subtree of a tree it models under that
/// subtree's own hash.
proof fn lemma_models_subtrees(m: Map<Felt, Seq<u64>>, n: Node)
    requires
        models(m, n),
    ensures
        forall|s: Node| #[trigger] subtrees(n).contains(s) ==> m.contains_key(s.nh())
            && m[s.nh()] == s.enc(),
    decreases n,
{
    match n {
        Node::Binary { left, right } => {
            lemma_models_subtrees(m, *left);
            lemma_models_subtrees(m, *right);
            assert forall|s: Node| #[trigger] subtrees(n).contains(s) implies m.contains_key(
                s.nh()) && m[s.nh()] == s.enc() by {
                if s == n {
                } else if subtrees(*left).contains(s) {
                } else {
                    assert(subtrees(*right).contains(s));
                }
            }
        },
        Node::Edge { path, child } => {
            lemma_models_subtrees(m, *child);
            assert forall|s: Node| #[trigger] subtrees(n).contains(s) implies m.contains_key(
                s.nh()) && m[s.nh()] == s.enc() by {
                if s == n {
                } else {
                    assert(subtrees(*child).contains(s));
                }
            }
        },
        _ => {},
    }
}

/// A store that models a tree can commit it again: everything the store
/// knows of the tree is stored as the tree encodes it, and the tree's own
/// hashes cannot conflict with each other. With `commit`'s contract, a
/// reloaded and unmodified trie always recommits successfully to its own
/// root, and the store's mapping is unchanged by doing so.
pub proof fn lemma_models_compatible(m: Map<Felt, Seq<u64>>, n: Node)
    requires
        models(m, n),
    ensures
        commit_compatible(m, n),
{
    lemma_models_subtrees(m, n);
}

/// Hashes every node of the subtree bottom-up and appends each node's
/// `(hash, encoding)` pair to `out`; returns the subtree's hash.
fn commit_rec(n: &Node, out: &mut Vec<(Felt, Vec<u64>)>, Ghost(h): Ghost<nat>) -> (hash: Felt)
    requires
        n.wf(h),
        h <= 251,
    ensures
        hash == n.nh(),
        final(out)@.len() >= old(out)@.len(),
        forall|u: int| 0 <= u < old(out)@.len() ==> final(out)@[u] == old(out)@[u],
        forall|s: Node| #[trigger] subtrees(*n).contains(s) ==> pair_in(final(out)@, s.nh(),
            s.enc()),
        forall|u: int| old(out)@.len() <= u < final(out)@.len() ==> exists|s: Node|
            subtrees(*n).contains(s) && (#[trigger] final(out)@[u]).0 == s.nh()
            && final(out)@[u].1@ == s.enc(),
    decreases *n,
{
    match n {
        Node::Leaf { value } => {
            let bytes = encode_leaf_node(*value);
            out.push((*value, bytes));
            proof {
                assert(out@[out@.len() - 1].0 == n.nh() && out@[out@.len() - 1].1@ == n.enc());
                assert forall|s: Node| subtrees(*n).contains(s) implies pair_in(out@, s.nh(),
                    s.enc()) by {
                    assert(s == *n);
                }
                assert(subtrees(*n).contains(*n));
            }
            *value
        },
        Node::Binary { left, right } => {
            let ghost out0 = out@;
            let lh = commit_rec(left, out, Ghost((h - 1) as nat));
            let ghost out1 = out@;
            let rh = commit_rec(right, out, Ghost((h - 1) as nat));
            let ghost out2 = out@;
            let hash = hash_felts(lh, rh);
            let bytes = encode_binary_node(lh, rh);
            out.push((hash, bytes));
            proof {
                assert(out@[out@.len() - 1].0 == n.nh() && out@[out@.len() - 1].1@ == n.enc());
                assert forall|s: Node| subtrees(*n).contains(s) implies pair_in(out@, s.nh(),
                    s.enc()) by {
                    if s == *n {
                        assert((out@[out@.len() - 1]).0 == s.nh());
                    } else if subtrees(**left).contains(s) {
                        lemma_pair_in_extend(out1, out2, s.nh(), s.enc());
                        lemma_pair_in_extend(out2, out@, s.nh(), s.enc());
                    } else {
                        assert(subtrees(**right).contains(s));
                        lemma_pair_in_extend(out2, out@, s.nh(), s.enc());
                    }
                }
                assert(subtrees(*n).contains(*n));
                assert forall|u: int| out0.len() <= u < out@.len() implies exists|s: Node|
                    subtrees(*n).contains(s) && (#[trigger] out@[u]).0 == s.nh()
                    && out@[u].1@ == s.enc() by {
                    if u < out1.len() {
                        let s = choose|s: Node| subtrees(**left).contains(s)
                            && (#[trigger] out1[u]).0 == s.nh() && out1[u].1@ == s.enc();
                        assert(out@[u] == out1[u]);
                        assert(subtrees(*n).contains(s) && out@[u].0 == s.nh() && out@[u].1@
                            == s.enc());
                    } else if u < out2.len() {
                        let s = choose|s: Node| subtrees(**right).contains(s)
                            && (#[trigger] out2[u]).0 == s.nh() && out2[u].1@ == s.enc();
                        assert(out@[u] == out2[u]);
                        assert(subtrees(*n).contains(s) && out@[u].0 == s.nh() && out@[u].1@
                            == s.enc());
                    } else {
                        assert(out@[u].0 == n.nh() && out@[u].1@ == n.enc());
                        assert(subtrees(*n).contains(*n) && out@[u].0 == (*n).nh()
                            && out@[u].1@ == (*n).enc());
                    }
                }
            }
            hash
        },
        Node::Edge { path, child } => {
            let ch = commit_rec(child, out, Ghost((h - path@.len()) as nat));
            let ghost out2 = out@;
            let hash = hash_edge(ch, path);
            let bytes = encode_edge_node(path, ch);
            out.push((hash, bytes));
            proof {
                assert(out@[out@.len() - 1].0 == n.nh() && out@[out@.len() - 1].1@ == n.enc());
                assert forall|s: Node| subtrees(*n).contains(s) implies pair_in(out@, s.nh(),
                    s.enc()) by {
                    if s == *n {
                        assert((out@[out@.len() - 1]).0 == s.nh());
                    } else {
                        assert(subtrees(**child).contains(s));
                        lemma_pair_in_extend(out2, out@, s.nh(), s.enc());
                    }
                }
                assert(subtrees(*n).contains(*n));
                assert forall|u: int| old(out)@.len() <= u < out@.len() implies exists|s: Node|
                    subtrees(*n).contains(s) && (#[trigger] out@[u]).0 == s.nh()
                    && out@[u].1@ == s.enc() by {
                    if u < out2.len() {
                        let s = choose|s: Node| subtrees(**child).contains(s)
                            && (#[trigger] out2[u]).0 == s.nh() && out2[u].1@ == s.enc();
                        assert(out@[u] == out2[u]);
                        assert(subtrees(*n).contains(s) && out@[u].0 == s.nh() && out@[u].1@
                            == s.enc());
                    } else {
                        assert(out@[u].0 == n.nh() && out@[u].1@ == n.enc());
                        assert(subtrees(*n).contains(*n) && out@[u].0 == (*n).nh()
                            && out@[u].1@ == (*n).enc());
                    }
                }
            }
            hash
        },
        Node::Unresolved { .. } => {
            proof {
                assert(false);
            }
            Felt::zero()
        },
    }
}

impl MerkleTree {
    /// Commits the trie: hashes every dirty subtree bottom-up, writes each
    /// node's encoding into the store under its hash, and returns the new
    /// root commitment. The trie is consumed. Entries the store already held
    /// keep their bytes; a hash that would collide on different bytes aborts
    /// the commit as corruption.
    pub fn commit(self, store: &mut NodeStore) -> (r: Result<Felt, TrieError>)
        requires
            self.wf(),
            old(store).wf(),
        ensures
            final(store).wf(),
            r matches Ok(root) ==> (self.spec_root() is None ==> root == Felt::spec_zero()
                && final(store)@ == old(store)@),
            r matches Ok(root) ==> (self.spec_root() matches Some(n) ==> root == n.nh()
                && models(final(store)@, n)),
            r is Ok ==> forall|x: Felt| #[trigger] old(store)@.contains_key(x)
                ==> final(store)@.contains_key(x) && final(store)@[x] == old(store)@[x],
            r is Err ==> r == Err::<Felt, TrieError>(TrieError::StorageCorruption),
            self.spec_root() is None ==> r is Ok,
            self.spec_root() matches Some(n) ==> (commit_compatible(old(store)@, n)
                ==> r is Ok),
            r is Ok ==> (self.spec_root() matches Some(n) ==> forall|x: Felt|
                #[trigger] final(store)@.contains_key(x) ==> ((old(store)@.contains_key(x)
                && final(store)@[x] == old(store)@[x]) || (exists|s: Node|
                subtrees(n).contains(s) && x == s.nh() && final(store)@[x] == s.enc()))),
    {
        match self.root {
            None => Ok(Felt::zero()),
            Some(n) => {
                let ghost compat = commit_compatible(old(store)@, n);
                let mut out: Vec<(Felt, Vec<u64>)> = Vec::new();
                let hash = commit_rec(&n, &mut out, Ghost(251nat));
                let ghost out0 = out@;
                while out.len() > 0
                    invariant
                        store.wf(),
                        out@.len() <= out0.len(),
                        out@ == out0.take(out@.len() as int),
                        self.spec_root() == Some(n),
                        compat == commit_compatible(old(store)@, n),
                        forall|u: int| 0 <= u < out0.len() ==> exists|s: Node|
                            subtrees(n).contains(s) && (#[trigger] out0[u]).0 == s.nh()
                            && out0[u].1@ == s.enc(),
                        forall|u: int| out@.len() <= u < out0.len()
                            ==> store@.contains_key((#[trigger] out0[u]).0)
                            && store@[out0[u].0] == out0[u].1@,
                        forall|x: Felt| old(store)@.contains_key(x)
                            ==> #[trigger] store@.contains_key(x) && store@[x]
                            == old(store)@[x],
                        forall|x: Felt| #[trigger] store@.contains_key(x) ==> ((old(
                        store)@.contains_key(x) && store@[x] == old(store)@[x]) || (exists|
                        s: Node| subtrees(n).contains(s) && x == s.nh() && store@[x]
                            == s.enc())),
                    decreases out@.len(),
                {
                    let e = match out.pop() {
                        Some(e) => e,
                        None => {
                            proof {
                                assert(false);
                            }
                            return Err(TrieError::StorageCorruption);
                        },
                    };
                    proof {
                        assert(out0.take(out@.len() as int + 1).drop_last() =~= out0.take(
                            out@.len() as int));
                        assert(out0.take(out@.len() as int + 1).last() == out0[out@.len() as int]);
                    }
                    let ghost cur = out@.len() as int;
                    let ghost se = choose|s: Node| subtrees(n).contains(s)
                        && (#[trigger] out0[cur]).0 == s.nh() && out0[cur].1@ == s.enc();
                    proof {
                        assert(e == out0[cur]);
                        assert(e.0 == se.nh() && e.1@ == se.enc());
                    }
                    let ghost pre = store@;
                    match store.insert(e.0, e.1) {
                        Ok(()) => {
                            proof {
                                assert forall|x: Felt| #[trigger] store@.contains_key(x)
                                    implies ((old(store)@.contains_key(x) && store@[x]
                                    == old(store)@[x]) || (exists|s: Node|
                                    subtrees(n).contains(s) && x == s.nh() && store@[x]
                                    == s.enc())) by {
                                    if x == e.0 {
                                        assert(subtrees(n).contains(se) && x == se.nh()
                                            && store@[x] == se.enc());
                                    } else {
                                        assert(pre.contains_key(x) && store@[x] == pre[x]);
                                    }
                                }
                            }
                        },
                        Err(err) => {
                            proof {
                                if compat {
                                    assert(pre.contains_key(e.0) && pre[e.0] != e.1@);
                                    if old(store)@.contains_key(e.0) && pre[e.0] == old(
                                        store)@[e.0] {
                                        assert(old(store)@[se.nh()] == se.enc());
                                        assert(false);
                                    } else {
                                        let s2 = choose|s: Node| subtrees(n).contains(s)
                                            && e.0 == s.nh() && pre[e.0] == s.enc();
                                        assert(s2.enc() == se.enc());
                                        assert(false);
                                    }
                                }
                            }
                            return Err(err);
                        },
                    }
                }
                proof {
                    assert(out0.take(0) =~= out@);
                    assert forall|s: Node| subtrees(n).contains(s) implies
                        store@.contains_key(s.nh()) && store@[s.nh()] == s.enc() by {
                        let t = choose|t: int| 0 <= t < out0.len() && (#[trigger] out0[t]).0
                            == s.nh() && out0[t].1@ == s.enc();
                        assert(store@.contains_key(out0[t].0));
                    }
                    lemma_models_from_pairs(store@, n, 251);
                }
                Ok(hash)
            },
        }
    }

    /// Loads a trie from the store, given the root commitment a commit
    /// returned; the zero root denotes the empty trie. Every persisted node
    /// on the way down is decoded and checked against its hash; anything
    /// inconsistent surfaces as `StorageCorruption`.
    pub fn load(store: &NodeStore, root: Felt) -> (r: Result<MerkleTree, TrieError>)
        ensures
            r matches Ok(t) ==> t.wf(),
            root == Felt::spec_zero() ==> r == Ok::<MerkleTree, TrieError>(MerkleTree {
                root: None::<Node>,
            }),
            r matches Ok(t) ==> (root != Felt::spec_zero() ==> (t.spec_root() matches Some(
                n) && models(store@, n) && n.nh() == root && n.wf(251))),
            (exists|n: Node| n.wf(251) && models(store@, n) && n.nh() == root) ==> r is Ok,
            r is Err ==> r == Err::<MerkleTree, TrieError>(TrieError::StorageCorruption),
    {
        if root.is_zero() {
            Ok(MerkleTree { root: None })
        } else {
            match load_full(store, root, 251) {
                Ok(n) => Ok(MerkleTree { root: Some(n) }),
                Err(e) => Err(e),
            }
        }
    }
}


/// A modeled canonical tree is a leaf, a binary node or an edge, and its
/// stored words start with the matching tag.
proof fn lemma_witness_tag(m: Map<Felt, Seq<u64>>, n: Node, h: nat)
    requires
        models(m, n),
        n.wf(h),
        h <= 251,
    ensures
        m.contains_key(n.nh()),
        m[n.nh()] == n.enc(),
        n is Leaf ==> n.enc()[0] == 0 && h == 0,
        n is Binary ==> n.enc()[0] == 1 && h >= 1,
        n is Edge ==> n.enc()[0] == 2,
        !(n is Unresolved),
{
    match n {
        Node::Leaf { value } => {
            assert(n.enc()[0] == 0);
        },
        Node::Binary { .. } => {
            assert(n.enc()[0] == 1);
        },
        Node::Edge { .. } => {
            assert(n.enc()[0] == 2);
        },
        Node::Unresolved { .. } => {},
    }
}

/// Resolves the whole subtree persisted under `h` at the given height.
#[verifier::rlimit(60)]
fn load_full(store: &NodeStore, h: Felt, height: usize) -> (r: Result<Node, TrieError>)
    requires
        height <= 251,
    ensures
        r matches Ok(n) ==> n.wf(height as nat) && models(store@, n) && n.nh() == h,
        (exists|n: Node| n.wf(height as nat) && models(store@, n) && n.nh() == h) ==> r is Ok,
        r is Err ==> r == Err::<Node, TrieError>(TrieError::StorageCorruption),
    decreases height,
{
    let ghost has_wit = exists|n: Node| n.wf(height as nat) && models(store@, n) && n.nh()
        == h;
    let ghost wit = if has_wit {
        choose|n: Node| n.wf(height as nat) && models(store@, n) && n.nh() == h
    } else {
        Node::Leaf { value: h }
    };
    proof {
        if has_wit {
            lemma_witness_tag(store@, wit, height as nat);
        }
    }
    let bytes = match store.get(&h) {
        Some(b) => b,
        None => {
            proof {
                if has_wit {
                    assert(store@.contains_key(h));
                    assert(false);
                }
            }
            return Err(TrieError::StorageCorruption);
        },
    };
    let d = match decode_node(bytes) {
        Ok(d) => d,
        Err(e) => {
            proof {
                if has_wit {
                    lemma_enc_valid(wit, height as nat);
                    assert(false);
                }
            }
            return Err(e);
        },
    };
    match d {
        Node::Leaf { value } => {
            proof {
                if has_wit {
                    assert(wit.enc() == bytes@);
                    assert(d.enc()[0] == 0);
                }
            }
            if height != 0 {
                proof {
                    if has_wit {
                        assert(false);
                    }
                }
                return Err(TrieError::StorageCorruption);
            }
            if !(value == h) {
                proof {
                    if has_wit {
                        match wit {
                            Node::Leaf { value: wv } => {
                                assert(wit.enc()[1] == wv.l0 && wit.enc()[2] == wv.l1
                                    && wit.enc()[3] == wv.l2 && wit.enc()[4] == wv.l3);
                                assert(d.enc()[1] == value.l0 && d.enc()[2] == value.l1
                                    && d.enc()[3] == value.l2 && d.enc()[4] == value.l3);
                                assert(wv == value);
                            },
                            _ => {},
                        }
                        assert(false);
                    }
                }
                return Err(TrieError::StorageCorruption);
            }
            let n = Node::Leaf { value };
            proof {
                assert(n.enc() == bytes@);
            }
            Ok(n)
        },
        Node::Binary { left, right } => {
            proof {
                if has_wit {
                    assert(wit.enc() == bytes@);
                    assert(d.enc()[0] == 1);
                    match wit {
                        Node::Edge { path, .. } => {
                            assert(wit.enc()[0] == 2);
                        },
                        _ => {},
                    }
                    assert(wit is Binary);
                }
            }
            if height == 0 {
                proof {
                    if has_wit {
                        assert(false);
                    }
                }
                return Err(TrieError::StorageCorruption);
            }
            let lh = match *left {
                Node::Unresolved { hash } => hash,
                _ => {
                    proof {
                        assert(false);
                    }
                    return Err(TrieError::StorageCorruption);
                },
            };
            let rh = match *right {
                Node::Unresolved { hash } => hash,
                _ => {
                    proof {
                        assert(false);
                    }
                    return Err(TrieError::StorageCorruption);
                },
            };
            let computed = hash_felts(lh, rh);
            proof {
                if has_wit {
                    match wit {
                        Node::Binary { left: wl, right: wr } => {
                            assert(wit.enc()[1] == wl.nh().l0 && wit.enc()[2] == wl.nh().l1
                                && wit.enc()[3] == wl.nh().l2 && wit.enc()[4] == wl.nh().l3);
                            assert(wit.enc()[5] == wr.nh().l0 && wit.enc()[6] == wr.nh().l1
                                && wit.enc()[7] == wr.nh().l2 && wit.enc()[8] == wr.nh().l3);
                            assert(d.enc()[1] == lh.l0 && d.enc()[2] == lh.l1 && d.enc()[3]
                                == lh.l2 && d.enc()[4] == lh.l3);
                            assert(d.enc()[5] == rh.l0 && d.enc()[6] == rh.l1 && d.enc()[7]
                                == rh.l2 && d.enc()[8] == rh.l3);
                            assert(wl.nh() == lh && wr.nh() == rh);
                            assert(wit.nh() == computed);
                            assert(wl.wf((height - 1) as nat) && models(store@, *wl));
                            assert(wr.wf((height - 1) as nat) && models(store@, *wr));
                        },
                        _ => {},
                    }
                }
            }
            if !(computed == h) {
                proof {
                    if has_wit {
                        assert(false);
                    }
                }
                return Err(TrieError::StorageCorruption);
            }
            let lc = match load_full(store, lh, height - 1) {
                Ok(c) => c,
                Err(e) => {
                    proof {
                        if has_wit {
                            match wit {
                                Node::Binary { left: wl, right: wr } => {
                                    assert(wl.wf((height - 1) as nat) && models(store@, *wl)
                                        && wl.nh() == lh);
                                },
                                _ => {},
                            }
                            assert(false);
                        }
                    }
                    return Err(e);
                },
            };
            let rc = match load_full(store, rh, height - 1) {
                Ok(c) => c,
                Err(e) => {
                    proof {
                        if has_wit {
                            match wit {
                                Node::Binary { left: wl, right: wr } => {
                                    assert(wr.wf((height - 1) as nat) && models(store@, *wr)
                                        && wr.nh() == rh);
                                },
                                _ => {},
                            }
                            assert(false);
                        }
                    }
                    return Err(e);
                },
            };
            let n = Node::Binary { left: Box::new(lc), right: Box::new(rc) };
            proof {
                assert(n.nh() == computed);
                assert(n.enc() == bytes@);
            }
            Ok(n)
        },
        Node::Edge { path, child } => {
            let ch = match *child {
                Node::Unresolved { hash } => hash,
                _ => {
                    proof {
                        assert(false);
                    }
                    return Err(TrieError::StorageCorruption);
                },
            };
            proof {
                if has_wit {
                    assert(wit.enc() == bytes@);
                    assert(d.enc()[0] == 2);
                    match wit {
                        Node::Binary { .. } => {
                            assert(wit.enc()[0] == 1);
                        },
                        _ => {},
                    }
                    assert(wit is Edge);
                    match wit {
                        Node::Edge { path: wp, child: wc } => {
                            assert(wit.enc()[1] == wp@.len() as u64);
                            assert(d.enc()[1] == path@.len() as u64);
                            assert(wp@.len() <= 251 && path@.len() <= 251);
                            assert(wp@.len() == path@.len());
                            let plen = path@.len() as int;
                            assert forall|t: int| 0 <= t < plen implies wp@[t] == path@[t]
                                by {
                                assert(wit.enc()[2 + t] == (if wp@[t] { 1u64 } else { 0u64 }));
                                assert(d.enc()[2 + t] == (if path@[t] { 1u64 } else { 0u64 }));
                            }
                            assert(wp@ =~= path@);
                            assert(wit.enc()[2 + plen] == wc.nh().l0 && wit.enc()[3 + plen]
                                == wc.nh().l1 && wit.enc()[4 + plen] == wc.nh().l2
                                && wit.enc()[5 + plen] == wc.nh().l3);
                            assert(d.enc()[2 + plen] == ch.l0 && d.enc()[3 + plen] == ch.l1
                                && d.enc()[4 + plen] == ch.l2 && d.enc()[5 + plen] == ch.l3);
                            assert(wc.nh() == ch);
                            assert(wp@.len() <= height);
                            assert(wc.wf((height - path@.len()) as nat) && models(store@,
                                *wc) && !(*wc is Edge));
                        },
                        _ => {},
                    }
                }
            }
            if path.len() > height {
                proof {
                    if has_wit {
                        assert(false);
                    }
                }
                return Err(TrieError::StorageCorruption);
            }
            let computed = hash_edge(ch, &path);
            proof {
                if has_wit {
                    match wit {
                        Node::Edge { path: wp, child: wc } => {
                            assert(wit.nh() == crate::felt::s_edge_hash(ch, path@));
                        },
                        _ => {},
                    }
                }
            }
            if !(computed == h) {
                proof {
                    if has_wit {
                        assert(false);
                    }
                }
                return Err(TrieError::StorageCorruption);
            }
            let c = match load_full(store, ch, height - path.len()) {
                Ok(c) => c,
                Err(e) => {
                    proof {
                        if has_wit {
                            match wit {
                                Node::Edge { path: wp, child: wc } => {
                                    assert(wc.wf((height - path@.len()) as nat) && models(
                                        store@, *wc) && wc.nh() == ch);
                                },
                                _ => {},
                            }
                            assert(false);
                        }
                    }
                    return Err(e);
                },
            };
            let is_edge = match &c {
                Node::Edge { .. } => true,
                _ => false,
            };
            if is_edge {
                proof {
                    if has_wit {
                        match wit {
                            Node::Edge { path: wp, child: wc } => {
                                assert(models(store@, c) && c.nh() == ch);
                                assert(store@[ch] == c.enc() && store@[ch] == wc.enc());
                                assert(c.enc()[0] == 2);
                                match *wc {
                                    Node::Leaf { .. } => {
                                        assert(wc.enc()[0] == 0);
                                    },
                                    Node::Binary { .. } => {
                                        assert(wc.enc()[0] == 1);
                                    },
                                    _ => {},
                                }
                            },
                            _ => {},
                        }
                        assert(false);
                    }
                }
                return Err(TrieError::StorageCorruption);
            }
            let n = Node::Edge { path, child: Box::new(c) };
            proof {
                assert(n.nh() == computed);
                assert(n.enc() == bytes@);
            }
            Ok(n)
        },
        Node::Unresolved { .. } => {
            proof {
                assert(false);
            }
            Err(TrieError::StorageCorruption)
        },
    }
}

/// Round-trip: one root commitment denotes one content. Two trees the store
/// models under the same root hash agree on every key, so a trie written by
/// `commit` and read back by `load` from the returned root answers every
/// `get` as the committed trie did.
pub proof fn lemma_root_determines_contents(m: Map<Felt, Seq<u64>>, n1: Node, n2: Node,
    h1: nat, h2: nat)
    requires
        models(m, n1),
        models(m, n2),
        n1.nh() == n2.nh(),
        n1.wf(h1),
        n2.wf(h2),
        h1 <= 251,
        h2 <= 251,
    ensures
        forall|k: Seq<bool>| #[trigger] n1.lookup(k) == n2.lookup(k),
    decreases n1,
{
    let b = m[n1.nh()];
    assert(n1.enc() == b && n2.enc() == b);
    match n1 {
        Node::Leaf { value: v1 } => {
            assert(b[0] == 0 && b.len() == 5);
            match n2 {
                Node::Leaf { value: v2 } => {
                    assert(v1.l0 == b[1] && v1.l1 == b[2] && v1.l2 == b[3] && v1.l3 == b[4]);
                    assert(v2.l0 == b[1] && v2.l1 == b[2] && v2.l2 == b[3] && v2.l3 == b[4]);
                    assert(v1 == v2);
                },
                Node::Binary { .. } => {
                    assert(n2.enc()[0] == 1);
                    assert(false);
                },
                Node::Edge { .. } => {
                    assert(n2.enc()[0] == 2);
                    assert(false);
                },
                Node::Unresolved { .. } => {
                    assert(false);
                },
            }
        },
        Node::Binary { left: l1, right: r1 } => {
            assert(b[0] == 1 && b.len() == 9);
            match n2 {
                Node::Leaf { .. } => {
                    assert(n2.enc()[0] == 0);
                    assert(false);
                },
                Node::Binary { left: l2, right: r2 } => {
                    assert(l1.nh().l0 == b[1] && l1.nh().l1 == b[2] && l1.nh().l2 == b[3]
                        && l1.nh().l3 == b[4]);
                    assert(l2.nh().l0 == b[1] && l2.nh().l1 == b[2] && l2.nh().l2 == b[3]
                        && l2.nh().l3 == b[4]);
                    assert(r1.nh().l0 == b[5] && r1.nh().l1 == b[6] && r1.nh().l2 == b[7]
                        && r1.nh().l3 == b[8]);
                    assert(r2.nh().l0 == b[5] && r2.nh().l1 == b[6] && r2.nh().l2 == b[7]
                        && r2.nh().l3 == b[8]);
                    assert(l1.nh() == l2.nh() && r1.nh() == r2.nh());
                    lemma_root_determines_contents(m, *l1, *l2, (h1 - 1) as nat,
                        (h2 - 1) as nat);
                    lemma_root_determines_contents(m, *r1, *r2, (h1 - 1) as nat,
                        (h2 - 1) as nat);
                    assert forall|k: Seq<bool>| #[trigger] n1.lookup(k) == n2.lookup(k) by {
                        if k.len() > 0 {
                            assert(l1.lookup(k.skip(1)) == l2.lookup(k.skip(1)));
                            assert(r1.lookup(k.skip(1)) == r2.lookup(k.skip(1)));
                        }
                    }
                },
                Node::Edge { .. } => {
                    assert(n2.enc()[0] == 2);
                    assert(false);
                },
                Node::Unresolved { .. } => {
                    assert(false);
                },
            }
        },
        Node::Edge { path: p1, child: c1 } => {
            assert(b[0] == 2);
            assert(b[1] == p1@.len() && b.len() == 6 + p1@.len());
            match n2 {
                Node::Leaf { .. } => {
                    assert(n2.enc()[0] == 0);
                    assert(false);
                },
                Node::Binary { .. } => {
                    assert(n2.enc()[0] == 1);
                    assert(false);
                },
                Node::Edge { path: p2, child: c2 } => {
                    assert(b[1] == p2@.len());
                    let plen = p1@.len() as int;
                    assert forall|t: int| 0 <= t < plen implies p1@[t] == p2@[t] by {
                        assert(n1.enc()[2 + t] == (if p1@[t] { 1u64 } else { 0u64 }));
                        assert(n2.enc()[2 + t] == (if p2@[t] { 1u64 } else { 0u64 }));
                    }
                    assert(p1@ =~= p2@);
                    assert(c1.nh().l0 == b[2 + plen] && c1.nh().l1 == b[3 + plen]
                        && c1.nh().l2 == b[4 + plen] && c1.nh().l3 == b[5 + plen]);
                    assert(c2.nh().l0 == b[2 + plen] && c2.nh().l1 == b[3 + plen]
                        && c2.nh().l2 == b[4 + plen] && c2.nh().l3 == b[5 + plen]);
                    assert(c1.nh() == c2.nh());
                    lemma_root_determines_contents(m, *c1, *c2,
                        (h1 - p1@.len()) as nat, (h2 - p2@.len()) as nat);
                    assert forall|k: Seq<bool>| #[trigger] n1.lookup(k) == n2.lookup(k) by {
                        if plen <= k.len() && k.take(plen) == p1@ {
                            assert(c1.lookup(k.skip(plen)) == c2.lookup(k.skip(plen)));
                        }
                    }
                },
                Node::Unresolved { .. } => {
                    assert(false);
                },
            }
        },
        Node::Unresolved { .. } => {
            assert(false);
        },
    }
}

} // verus!
