//! The two storage tries: one commits to a single contract's storage, one to
//! the global contract-state index. Their semantics are identical; they
//! differ only in which table their caller keeps the node store in.
//!
//! Construction never touches the store: a trie loads as a pending root
//! hash, persisted nodes resolve on first access, and corruption surfaces
//! from the accessing operation as `StorageCorruption`. Resolution
//! materializes the whole subtree under the pending root in one pass, and
//! commitment rehashes the materialized tree rather than tracking dirty
//! nodes; the store's idempotent, content-addressed writes keep recommits of
//! clean nodes from changing any row.

use vstd::prelude::*;

use crate::errors::TrieError;
use crate::felt::Felt;
use crate::merkle_proof::{ProofNode, spec_verify, step_of};
use crate::node::{Node, lemma_nh_nonzero};
use crate::storage::{commit_compatible, lemma_root_determines_contents, models};
use crate::store::NodeStore;
use crate::trie::{DfsEntry, Key, MerkleTree, has_node_at, node_desc_at};

verus! {

/// A trie that maps a contract's storage addresses to their values. Its
/// nodes persist in the caller's per-contract table.
pub struct ContractsStorageTree {
    pub root: Felt,
    pub tree: Option<MerkleTree>,
}

impl ContractsStorageTree {
    /// Once resolved, the in-memory tree is canonical.
    pub open spec fn wf(self) -> bool {
        match self.tree {
            Some(t) => t.wf(),
            None => true,
        }
    }

    /// The root this trie was loaded from; operations answer from it until
    /// the first mutation materializes the tree.
    pub open spec fn spec_pending_root(self) -> Felt {
        self.root
    }

    /// The materialized tree, if any access resolved it yet.
    pub open spec fn spec_cached(self) -> Option<MerkleTree> {
        self.tree
    }

    /// Constructs the trie at `root` without reading the store; the zero
    /// root denotes the empty trie. Loading never fails: a corrupt or
    /// missing node surfaces from the operation that first needs it.
    pub fn load(root: Felt) -> (r: ContractsStorageTree)
        ensures
            r.wf(),
            r.spec_cached() is None,
            r.spec_pending_root() == root,
    {
        ContractsStorageTree { root, tree: None }
    }

    /// Reads one address, resolving persisted nodes on demand; `None` when
    /// it holds nothing.
    pub fn get(&self, store: &NodeStore, address: &Key) -> (r: Result<Option<Felt>, TrieError>)
        requires
            self.wf(),
            address.wf(),
        ensures
            self.spec_cached() matches Some(t) ==> r == Ok::<Option<Felt>, TrieError>(
                if t.lookup(address@) == Felt::spec_zero() {
                    None
                } else {
                    Some(t.lookup(address@))
                },
            ),
            self.spec_cached() is None && self.spec_pending_root() == Felt::spec_zero()
                ==> r == Ok::<Option<Felt>, TrieError>(None::<Felt>),
            self.spec_cached() is None ==> forall|n: Node| n.wf(251) && models(store@, n)
                && n.nh() == self.spec_pending_root() ==> r == Ok::<Option<Felt>, TrieError>(
                if (#[trigger] n.lookup(address@)) == Felt::spec_zero() {
                    None
                } else {
                    Some(n.lookup(address@))
                },
            ),
            self.spec_cached() is None && (exists|n: Node| n.wf(251) && models(store@, n)
                && n.nh() == self.spec_pending_root()) ==> r is Ok,
            r is Err ==> r == Err::<Option<Felt>, TrieError>(TrieError::StorageCorruption),
    {
        match &self.tree {
            Some(t) => {
                let v = t.get(address);
                if v.is_zero() {
                    Ok(None)
                } else {
                    Ok(Some(v))
                }
            },
            None => {
                match MerkleTree::load(store, self.root) {
                    Ok(t) => {
                        let v = t.get(address);
                        proof {
                            assert forall|n: Node| n.wf(251) && models(store@, n) && n.nh()
                                == self.root implies (#[trigger] n.lookup(address@)) == v by {
                                match t.spec_root() {
                                    Some(m0) => {
                                        lemma_root_determines_contents(store@, m0, n, 251,
                                            251);
                                        assert(m0.lookup(address@) == n.lookup(address@));
                                        assert(v == m0.lookup(address@));
                                    },
                                    None => {
                                        lemma_nh_nonzero(n, 251);
                                        assert(false);
                                    },
                                }
                            }
                        }
                        if v.is_zero() {
                            Ok(None)
                        } else {
                            Ok(Some(v))
                        }
                    },
                    Err(e) => Err(e),
                }
            },
        }
    }

    /// Writes one address, materializing the tree on first use; the zero
    /// value deletes the entry.
    pub fn set(&mut self, store: &NodeStore, address: &Key, value: Felt) -> (r: Result<(),
        TrieError>)
        requires
            old(self).wf(),
            address.wf(),
        ensures
            final(self).wf(),
            final(self).spec_pending_root() == old(self).spec_pending_root(),
            r is Err ==> r == Err::<(), TrieError>(TrieError::StorageCorruption)
                && *final(self) == *old(self),
            r is Ok ==> final(self).spec_cached() is Some,
            r is Ok ==> (old(self).spec_cached() matches Some(t) ==> forall|k: Seq<bool>|
                k.len() == 251 ==> final(self).spec_cached()->Some_0.lookup(k) == (if k
                    == address@ {
                    value
                } else {
                    t.lookup(k)
                })),
            r is Ok && old(self).spec_cached() is None && old(self).spec_pending_root()
                == Felt::spec_zero() ==> forall|k: Seq<bool>| k.len() == 251 ==> final(
                self).spec_cached()->Some_0.lookup(k) == (if k == address@ {
                value
            } else {
                Felt::spec_zero()
            }),
            r is Ok && old(self).spec_cached() is None ==> forall|n: Node|
                #![trigger n.lookup(address@)]
                n.wf(251) && models(store@, n) && n.nh() == old(self).spec_pending_root()
                    ==> forall|k: Seq<bool>| k.len() == 251 ==> final(
                    self).spec_cached()->Some_0.lookup(k) == (if k == address@ {
                    value
                } else {
                    n.lookup(k)
                }),
            (old(self).spec_cached() is Some || old(self).spec_pending_root()
                == Felt::spec_zero() || (exists|n: Node| n.wf(251) && models(store@, n)
                && n.nh() == old(self).spec_pending_root())) ==> r is Ok,
    {
        if self.tree.is_none() {
            match MerkleTree::load(store, self.root) {
                Ok(t) => {
                    self.tree = Some(t);
                },
                Err(e) => {
                    return Err(e);
                },
            }
        }
        let ghost resolved = self.tree->Some_0;
        match self.tree.take() {
            Some(mut t) => {
                t.set(address, value);
                self.tree = Some(t);
                proof {
                    if old(self).spec_cached() is None {
                        assert forall|n: Node| n.wf(251) && models(store@, n) && n.nh()
                            == old(self).spec_pending_root() implies (forall|k: Seq<bool>|
                            k.len() == 251 ==> final(self).spec_cached()->Some_0.lookup(k)
                                == (if k == address@ {
                                value
                            } else {
                                #[trigger] n.lookup(k)
                            })) by {
                            match resolved.spec_root() {
                                Some(m0) => {
                                    lemma_root_determines_contents(store@, m0, n, 251, 251);
                                    assert forall|k: Seq<bool>| k.len() == 251 implies final(
                                        self).spec_cached()->Some_0.lookup(k) == (if k
                                        == address@ {
                                        value
                                    } else {
                                        #[trigger] n.lookup(k)
                                    }) by {
                                        assert(m0.lookup(k) == n.lookup(k));
                                        assert(resolved.lookup(k) == m0.lookup(k));
                                    }
                                },
                                None => {
                                    lemma_nh_nonzero(n, 251);
                                    assert(false);
                                },
                            }
                        }
                    }
                }
                Ok(())
            },
            None => {
                proof {
                    assert(false);
                }
                Err(TrieError::StorageCorruption)
            },
        }
    }

    /// Generates the inclusion proof for `key` against this trie's root:
    /// exactly the nodes of the descent, and it verifies with the value
    /// `get` reports.
    pub fn get_proof(&self, store: &NodeStore, key: &Key) -> (r: Result<Vec<ProofNode>,
        TrieError>)
        requires
            self.wf(),
            key.wf(),
        ensures
            self.spec_cached() matches Some(t) ==> r is Ok && spec_verify(r->Ok_0@, key@,
                t.lookup(key@), t.spec_root_hash()) && r->Ok_0@.len() == t.spec_descent(
                key@).len() && (forall|u: int| 0 <= u < r->Ok_0@.len() ==> step_of(
                #[trigger] r->Ok_0@[u]) == t.spec_descent(key@)[u]),
            self.spec_cached() is None && self.spec_pending_root() == Felt::spec_zero()
                ==> r is Ok && r->Ok_0@.len() == 0,
            self.spec_cached() is None && r is Ok ==> forall|n: Node| n.wf(251) && models(
                store@, n) && n.nh() == self.spec_pending_root() ==> spec_verify(r->Ok_0@,
                key@, #[trigger] n.lookup(key@), self.spec_pending_root()),
            self.spec_cached() is None && (exists|n: Node| n.wf(251) && models(store@, n)
                && n.nh() == self.spec_pending_root()) ==> r is Ok,
            r is Err ==> r == Err::<Vec<ProofNode>, TrieError>(TrieError::StorageCorruption),
    {
        match &self.tree {
            Some(t) => Ok(t.get_proof(key)),
            None => {
                match MerkleTree::load(store, self.root) {
                    Ok(t) => {
                        let p = t.get_proof(key);
                        proof {
                            assert forall|n: Node| n.wf(251) && models(store@, n) && n.nh()
                                == self.root implies spec_verify(p@, key@,
                                #[trigger] n.lookup(key@), self.root) by {
                                match t.spec_root() {
                                    Some(m0) => {
                                        lemma_root_determines_contents(store@, m0, n, 251,
                                            251);
                                        assert(m0.lookup(key@) == n.lookup(key@));
                                        assert(t.lookup(key@) == m0.lookup(key@));
                                        assert(t.spec_root_hash() == self.root);
                                    },
                                    None => {
                                        lemma_nh_nonzero(n, 251);
                                        assert(false);
                                    },
                                }
                            }
                        }
                        Ok(p)
                    },
                    Err(e) => Err(e),
                }
            },
        }
    }

    /// Applies and persists any changes into the store. Returns the new
    /// tree root; the trie is consumed. A trie that was never written
    /// commits to its loaded root and leaves the store untouched.
    pub fn commit_and_persist_changes(self, store: &mut NodeStore) -> (r: Result<Felt,
        TrieError>)
        requires
            self.wf(),
            old(store).wf(),
        ensures
            final(store).wf(),
            self.spec_cached() is None ==> r == Ok::<Felt, TrieError>(
                self.spec_pending_root()) && final(store)@ == old(store)@,
            self.spec_cached() matches Some(t) ==> {
                &&& (r matches Ok(root) ==> (t.spec_root() is None ==> root
                    == Felt::spec_zero()))
                &&& (r matches Ok(root) ==> (t.spec_root() matches Some(n) ==> root == n.nh()
                    && models(final(store)@, n)))
                &&& (r is Ok ==> forall|x: Felt| #[trigger] old(store)@.contains_key(x)
                    ==> final(store)@.contains_key(x) && final(store)@[x] == old(store)@[x])
                &&& (t.spec_root() is None ==> r is Ok)
                &&& (t.spec_root() matches Some(n) ==> (commit_compatible(old(store)@, n)
                    ==> r is Ok))
                &&& (r is Ok ==> (t.spec_root() matches Some(n) ==> forall|x: Felt|
                    #[trigger] final(store)@.contains_key(x) ==> ((old(
                    store)@.contains_key(x) && final(store)@[x] == old(store)@[x]) || (
                    exists|s: Node| crate::storage::subtrees(n).contains(s) && x == s.nh()
                        && final(store)@[x] == s.enc()))))
            },
            r is Err ==> r == Err::<Felt, TrieError>(TrieError::StorageCorruption),
    {
        match self.tree {
            None => Ok(self.root),
            Some(t) => t.commit(store),
        }
    }

    /// Walks the trie depth first, resolving persisted nodes, and returns
    /// every node with its bit path, parents before children, left before
    /// right.
    pub fn dfs(&self, store: &NodeStore) -> (r: Result<Vec<DfsEntry>, TrieError>)
        requires
            self.wf(),
        ensures
            self.spec_cached() matches Some(t) ==> r is Ok && r->Ok_0@.len()
                == t.dfs_view().len() && (forall|u: int| 0 <= u < r->Ok_0@.len() ==> (
            #[trigger] r->Ok_0@[u]).path@ == t.dfs_view()[u].0 && r->Ok_0@[u].hash
                == t.dfs_view()[u].1),
            self.spec_cached() is None && r is Ok ==> exists|t: MerkleTree| (#[trigger]
            t.wf()) && (self.spec_pending_root() == Felt::spec_zero() ==> t.spec_root()
                is None) && (self.spec_pending_root() != Felt::spec_zero()
                ==> (t.spec_root() matches Some(n) && models(store@, n) && n.nh()
                == self.spec_pending_root())) && r->Ok_0@.len() == t.dfs_view().len() && (
            forall|u: int| 0 <= u < r->Ok_0@.len() ==> (#[trigger] r->Ok_0@[u]).path@
                == t.dfs_view()[u].0 && r->Ok_0@[u].hash == t.dfs_view()[u].1),
            self.spec_cached() is None && (self.spec_pending_root() == Felt::spec_zero()
                || (exists|n: Node| n.wf(251) && models(store@, n) && n.nh()
                == self.spec_pending_root())) ==> r is Ok,
            r is Err ==> r == Err::<Vec<DfsEntry>, TrieError>(TrieError::StorageCorruption),
    {
        match &self.tree {
            Some(t) => Ok(t.dfs()),
            None => {
                match MerkleTree::load(store, self.root) {
                    Ok(t) => {
                        let entries = t.dfs();
                        proof {
                            assert(t.wf());
                        }
                        Ok(entries)
                    },
                    Err(e) => Err(e),
                }
            },
        }
    }

    /// One step of a caller-driven walk: the node at the end of `prefix`,
    /// children as unresolved hashes. A visitor descends, skips subtrees or
    /// stops by choosing which prefixes to ask for next.
    pub fn node_at(&self, store: &NodeStore, prefix: &Vec<bool>) -> (r: Result<Option<Node>,
        TrieError>)
        requires
            self.wf(),
            prefix@.len() <= 251,
        ensures
            self.spec_cached() matches Some(t) ==> r is Ok && (t.spec_root() is None
                ==> r->Ok_0 is None) && (t.spec_root() matches Some(n) ==> ((r->Ok_0 is Some
                <==> has_node_at(n, prefix@)) && (r->Ok_0 matches Some(d) ==> node_desc_at(
                n, prefix@, d)))),
            self.spec_cached() is None && self.spec_pending_root() == Felt::spec_zero()
                ==> r is Ok && r->Ok_0 is None,
            self.spec_cached() is None && r is Ok ==> exists|t: MerkleTree| (#[trigger]
            t.wf()) && (self.spec_pending_root() == Felt::spec_zero() ==> t.spec_root()
                is None) && (self.spec_pending_root() != Felt::spec_zero()
                ==> (t.spec_root() matches Some(n) && models(store@, n) && n.nh()
                == self.spec_pending_root())) && (t.spec_root() is None ==> r->Ok_0
                is None) && (t.spec_root() matches Some(n2) ==> ((r->Ok_0 is Some
                <==> has_node_at(n2, prefix@)) && (r->Ok_0 matches Some(d)
                ==> node_desc_at(n2, prefix@, d)))),
            self.spec_cached() is None && (self.spec_pending_root() == Felt::spec_zero()
                || (exists|n: Node| n.wf(251) && models(store@, n) && n.nh()
                == self.spec_pending_root())) ==> r is Ok,
            r is Err ==> r == Err::<Option<Node>, TrieError>(TrieError::StorageCorruption),
    {
        match &self.tree {
            Some(t) => Ok(t.node_at(prefix)),
            None => {
                match MerkleTree::load(store, self.root) {
                    Ok(t) => {
                        let d = t.node_at(prefix);
                        proof {
                            assert(t.wf());
                        }
                        Ok(d)
                    },
                    Err(e) => Err(e),
                }
            },
        }
    }
}

/// A trie that maps each contract's address to its state hash: the global
/// commitment. Its nodes persist in the caller's global table.
pub struct StorageCommitmentTree {
    pub root: Felt,
    pub tree: Option<MerkleTree>,
}

impl StorageCommitmentTree {
    /// Once resolved, the in-memory tree is canonical.
    pub open spec fn wf(self) -> bool {
        match self.tree {
            Some(t) => t.wf(),
            None => true,
        }
    }

    /// The root this trie was loaded from; operations answer from it until
    /// the first mutation materializes the tree.
    pub open spec fn spec_pending_root(self) -> Felt {
        self.root
    }

    /// The materialized tree, if any access resolved it yet.
    pub open spec fn spec_cached(self) -> Option<MerkleTree> {
        self.tree
    }

    /// Constructs the trie at `root` without reading the store; the zero
    /// root denotes the empty trie. Loading never fails: a corrupt or
    /// missing node surfaces from the operation that first needs it.
    pub fn load(root: Felt) -> (r: StorageCommitmentTree)
        ensures
            r.wf(),
            r.spec_cached() is None,
            r.spec_pending_root() == root,
    {
        StorageCommitmentTree { root, tree: None }
    }

    /// Reads one contract's state hash, resolving persisted nodes on
    /// demand; `None` when none is recorded.
    pub fn get(&self, store: &NodeStore, address: &Key) -> (r: Result<Option<Felt>, TrieError>)
        requires
            self.wf(),
            address.wf(),
        ensures
            self.spec_cached() matches Some(t) ==> r == Ok::<Option<Felt>, TrieError>(
                if t.lookup(address@) == Felt::spec_zero() {
                    None
                } else {
                    Some(t.lookup(address@))
                },
            ),
            self.spec_cached() is None && self.spec_pending_root() == Felt::spec_zero()
                ==> r == Ok::<Option<Felt>, TrieError>(None::<Felt>),
            self.spec_cached() is None ==> forall|n: Node| n.wf(251) && models(store@, n)
                && n.nh() == self.spec_pending_root() ==> r == Ok::<Option<Felt>, TrieError>(
                if (#[trigger] n.lookup(address@)) == Felt::spec_zero() {
                    None
                } else {
                    Some(n.lookup(address@))
                },
            ),
            self.spec_cached() is None && (exists|n: Node| n.wf(251) && models(store@, n)
                && n.nh() == self.spec_pending_root()) ==> r is Ok,
            r is Err ==> r == Err::<Option<Felt>, TrieError>(TrieError::StorageCorruption),
    {
        match &self.tree {
            Some(t) => {
                let v = t.get(address);
                if v.is_zero() {
                    Ok(None)
                } else {
                    Ok(Some(v))
                }
            },
            None => {
                match MerkleTree::load(store, self.root) {
                    Ok(t) => {
                        let v = t.get(address);
                        proof {
                            assert forall|n: Node| n.wf(251) && models(store@, n) && n.nh()
                                == self.root implies (#[trigger] n.lookup(address@)) == v by {
                                match t.spec_root() {
                                    Some(m0) => {
                                        lemma_root_determines_contents(store@, m0, n, 251,
                                            251);
                                        assert(m0.lookup(address@) == n.lookup(address@));
                                        assert(v == m0.lookup(address@));
                                    },
                                    None => {
                                        lemma_nh_nonzero(n, 251);
                                        assert(false);
                                    },
                                }
                            }
                        }
                        if v.is_zero() {
                            Ok(None)
                        } else {
                            Ok(Some(v))
                        }
                    },
                    Err(e) => Err(e),
                }
            },
        }
    }

    /// Records one contract's state hash, materializing the tree on first
    /// use; the zero value deletes the entry.
    pub fn set(&mut self, store: &NodeStore, address: &Key, value: Felt) -> (r: Result<(),
        TrieError>)
        requires
            old(self).wf(),
            address.wf(),
        ensures
            final(self).wf(),
            final(self).spec_pending_root() == old(self).spec_pending_root(),
            r is Err ==> r == Err::<(), TrieError>(TrieError::StorageCorruption)
                && *final(self) == *old(self),
            r is Ok ==> final(self).spec_cached() is Some,
            r is Ok ==> (old(self).spec_cached() matches Some(t) ==> forall|k: Seq<bool>|
                k.len() == 251 ==> final(self).spec_cached()->Some_0.lookup(k) == (if k
                    == address@ {
                    value
                } else {
                    t.lookup(k)
                })),
            r is Ok && old(self).spec_cached() is None && old(self).spec_pending_root()
                == Felt::spec_zero() ==> forall|k: Seq<bool>| k.len() == 251 ==> final(
                self).spec_cached()->Some_0.lookup(k) == (if k == address@ {
                value
            } else {
                Felt::spec_zero()
            }),
            r is Ok && old(self).spec_cached() is None ==> forall|n: Node|
                #![trigger n.lookup(address@)]
                n.wf(251) && models(store@, n) && n.nh() == old(self).spec_pending_root()
                    ==> forall|k: Seq<bool>| k.len() == 251 ==> final(
                    self).spec_cached()->Some_0.lookup(k) == (if k == address@ {
                    value
                } else {
                    n.lookup(k)
                }),
            (old(self).spec_cached() is Some || old(self).spec_pending_root()
                == Felt::spec_zero() || (exists|n: Node| n.wf(251) && models(store@, n)
                && n.nh() == old(self).spec_pending_root())) ==> r is Ok,
    {
        if self.tree.is_none() {
            match MerkleTree::load(store, self.root) {
                Ok(t) => {
                    self.tree = Some(t);
                },
                Err(e) => {
                    return Err(e);
                },
            }
        }
        let ghost resolved = self.tree->Some_0;
        match self.tree.take() {
            Some(mut t) => {
                t.set(address, value);
                self.tree = Some(t);
                proof {
                    if old(self).spec_cached() is None {
                        assert forall|n: Node| n.wf(251) && models(store@, n) && n.nh()
                            == old(self).spec_pending_root() implies (forall|k: Seq<bool>|
                            k.len() == 251 ==> final(self).spec_cached()->Some_0.lookup(k)
                                == (if k == address@ {
                                value
                            } else {
                                #[trigger] n.lookup(k)
                            })) by {
                            match resolved.spec_root() {
                                Some(m0) => {
                                    lemma_root_determines_contents(store@, m0, n, 251, 251);
                                    assert forall|k: Seq<bool>| k.len() == 251 implies final(
                                        self).spec_cached()->Some_0.lookup(k) == (if k
                                        == address@ {
                                        value
                                    } else {
                                        #[trigger] n.lookup(k)
                                    }) by {
                                        assert(m0.lookup(k) == n.lookup(k));
                                        assert(resolved.lookup(k) == m0.lookup(k));
                                    }
                                },
                                None => {
                                    lemma_nh_nonzero(n, 251);
                                    assert(false);
                                },
                            }
                        }
                    }
                }
                Ok(())
            },
            None => {
                proof {
                    assert(false);
                }
                Err(TrieError::StorageCorruption)
            },
        }
    }

    /// Generates the inclusion proof for `key` against this trie's root:
    /// exactly the nodes of the descent, and it verifies with the value
    /// `get` reports.
    pub fn get_proof(&self, store: &NodeStore, key: &Key) -> (r: Result<Vec<ProofNode>,
        TrieError>)
        requires
            self.wf(),
            key.wf(),
        ensures
            self.spec_cached() matches Some(t) ==> r is Ok && spec_verify(r->Ok_0@, key@,
                t.lookup(key@), t.spec_root_hash()) && r->Ok_0@.len() == t.spec_descent(
                key@).len() && (forall|u: int| 0 <= u < r->Ok_0@.len() ==> step_of(
                #[trigger] r->Ok_0@[u]) == t.spec_descent(key@)[u]),
            self.spec_cached() is None && self.spec_pending_root() == Felt::spec_zero()
                ==> r is Ok && r->Ok_0@.len() == 0,
            self.spec_cached() is None && r is Ok ==> forall|n: Node| n.wf(251) && models(
                store@, n) && n.nh() == self.spec_pending_root() ==> spec_verify(r->Ok_0@,
                key@, #[trigger] n.lookup(key@), self.spec_pending_root()),
            self.spec_cached() is None && (exists|n: Node| n.wf(251) && models(store@, n)
                && n.nh() == self.spec_pending_root()) ==> r is Ok,
            r is Err ==> r == Err::<Vec<ProofNode>, TrieError>(TrieError::StorageCorruption),
    {
        match &self.tree {
            Some(t) => Ok(t.get_proof(key)),
            None => {
                match MerkleTree::load(store, self.root) {
                    Ok(t) => {
                        let p = t.get_proof(key);
                        proof {
                            assert forall|n: Node| n.wf(251) && models(store@, n) && n.nh()
                                == self.root implies spec_verify(p@, key@,
                                #[trigger] n.lookup(key@), self.root) by {
                                match t.spec_root() {
                                    Some(m0) => {
                                        lemma_root_determines_contents(store@, m0, n, 251,
                                            251);
                                        assert(m0.lookup(key@) == n.lookup(key@));
                                        assert(t.lookup(key@) == m0.lookup(key@));
                                        assert(t.spec_root_hash() == self.root);
                                    },
                                    None => {
                                        lemma_nh_nonzero(n, 251);
                                        assert(false);
                                    },
                                }
                            }
                        }
                        Ok(p)
                    },
                    Err(e) => Err(e),
                }
            },
        }
    }

    /// Applies and persists any changes into the store. Returns the new
    /// global root; the trie is consumed. A trie that was never written
    /// commits to its loaded root and leaves the store untouched.
    pub fn commit_and_persist_changes(self, store: &mut NodeStore) -> (r: Result<Felt,
        TrieError>)
        requires
            self.wf(),
            old(store).wf(),
        ensures
            final(store).wf(),
            self.spec_cached() is None ==> r == Ok::<Felt, TrieError>(
                self.spec_pending_root()) && final(store)@ == old(store)@,
            self.spec_cached() matches Some(t) ==> {
                &&& (r matches Ok(root) ==> (t.spec_root() is None ==> root
                    == Felt::spec_zero()))
                &&& (r matches Ok(root) ==> (t.spec_root() matches Some(n) ==> root == n.nh()
                    && models(final(store)@, n)))
                &&& (r is Ok ==> forall|x: Felt| #[trigger] old(store)@.contains_key(x)
                    ==> final(store)@.contains_key(x) && final(store)@[x] == old(store)@[x])
                &&& (t.spec_root() is None ==> r is Ok)
                &&& (t.spec_root() matches Some(n) ==> (commit_compatible(old(store)@, n)
                    ==> r is Ok))
                &&& (r is Ok ==> (t.spec_root() matches Some(n) ==> forall|x: Felt|
                    #[trigger] final(store)@.contains_key(x) ==> ((old(
                    store)@.contains_key(x) && final(store)@[x] == old(store)@[x]) || (
                    exists|s: Node| crate::storage::subtrees(n).contains(s) && x == s.nh()
                        && final(store)@[x] == s.enc()))))
            },
            r is Err ==> r == Err::<Felt, TrieError>(TrieError::StorageCorruption),
    {
        match self.tree {
            None => Ok(self.root),
            Some(t) => t.commit(store),
        }
    }

    /// Walks the trie depth first, resolving persisted nodes, and returns
    /// every node with its bit path, parents before children, left before
    /// right.
    pub fn dfs(&self, store: &NodeStore) -> (r: Result<Vec<DfsEntry>, TrieError>)
        requires
            self.wf(),
        ensures
            self.spec_cached() matches Some(t) ==> r is Ok && r->Ok_0@.len()
                == t.dfs_view().len() && (forall|u: int| 0 <= u < r->Ok_0@.len() ==> (
            #[trigger] r->Ok_0@[u]).path@ == t.dfs_view()[u].0 && r->Ok_0@[u].hash
                == t.dfs_view()[u].1),
            self.spec_cached() is None && r is Ok ==> exists|t: MerkleTree| (#[trigger]
            t.wf()) && (self.spec_pending_root() == Felt::spec_zero() ==> t.spec_root()
                is None) && (self.spec_pending_root() != Felt::spec_zero()
                ==> (t.spec_root() matches Some(n) && models(store@, n) && n.nh()
                == self.spec_pending_root())) && r->Ok_0@.len() == t.dfs_view().len() && (
            forall|u: int| 0 <= u < r->Ok_0@.len() ==> (#[trigger] r->Ok_0@[u]).path@
                == t.dfs_view()[u].0 && r->Ok_0@[u].hash == t.dfs_view()[u].1),
            self.spec_cached() is None && (self.spec_pending_root() == Felt::spec_zero()
                || (exists|n: Node| n.wf(251) && models(store@, n) && n.nh()
                == self.spec_pending_root())) ==> r is Ok,
            r is Err ==> r == Err::<Vec<DfsEntry>, TrieError>(TrieError::StorageCorruption),
    {
        match &self.tree {
            Some(t) => Ok(t.dfs()),
            None => {
                match MerkleTree::load(store, self.root) {
                    Ok(t) => {
                        let entries = t.dfs();
                        proof {
                            assert(t.wf());
                        }
                        Ok(entries)
                    },
                    Err(e) => Err(e),
                }
            },
        }
    }

    /// One step of a caller-driven walk: the node at the end of `prefix`,
    /// children as unresolved hashes. A visitor descends, skips subtrees or
    /// stops by choosing which prefixes to ask for next.
    pub fn node_at(&self, store: &NodeStore, prefix: &Vec<bool>) -> (r: Result<Option<Node>,
        TrieError>)
        requires
            self.wf(),
            prefix@.len() <= 251,
        ensures
            self.spec_cached() matches Some(t) ==> r is Ok && (t.spec_root() is None
                ==> r->Ok_0 is None) && (t.spec_root() matches Some(n) ==> ((r->Ok_0 is Some
                <==> has_node_at(n, prefix@)) && (r->Ok_0 matches Some(d) ==> node_desc_at(
                n, prefix@, d)))),
            self.spec_cached() is None && self.spec_pending_root() == Felt::spec_zero()
                ==> r is Ok && r->Ok_0 is None,
            self.spec_cached() is None && r is Ok ==> exists|t: MerkleTree| (#[trigger]
            t.wf()) && (self.spec_pending_root() == Felt::spec_zero() ==> t.spec_root()
                is None) && (self.spec_pending_root() != Felt::spec_zero()
                ==> (t.spec_root() matches Some(n) && models(store@, n) && n.nh()
                == self.spec_pending_root())) && (t.spec_root() is None ==> r->Ok_0
                is None) && (t.spec_root() matches Some(n2) ==> ((r->Ok_0 is Some
                <==> has_node_at(n2, prefix@)) && (r->Ok_0 matches Some(d)
                ==> node_desc_at(n2, prefix@, d)))),
            self.spec_cached() is None && (self.spec_pending_root() == Felt::spec_zero()
                || (exists|n: Node| n.wf(251) && models(store@, n) && n.nh()
                == self.spec_pending_root())) ==> r is Ok,
            r is Err ==> r == Err::<Option<Node>, TrieError>(TrieError::StorageCorruption),
    {
        match &self.tree {
            Some(t) => Ok(t.node_at(prefix)),
            None => {
                match MerkleTree::load(store, self.root) {
                    Ok(t) => {
                        let d = t.node_at(prefix);
                        proof {
                            assert(t.wf());
                        }
                        Ok(d)
                    },
                    Err(e) => Err(e),
                }
            },
        }
    }
}

} // verus!
