//! The trie core: keys, lookup and mutation over the node model.

use vstd::prelude::*;

use crate::errors::TrieError;
use crate::felt::Felt;
use crate::node::Node;

verus! {

/// The fixed key height of the trie, in bits.
pub const KEY_BITS: usize = 251;

/// A trie key: exactly 251 bits, most-significant bit first.
pub struct Key {
    bits: Vec<bool>,
}

impl View for Key {
    type V = Seq<bool>;

    closed spec fn view(&self) -> Seq<bool> {
        self.bits@
    }
}

impl Key {
    pub open spec fn wf(self) -> bool {
        self@.len() == 251
    }

    /// Wraps a bit sequence as a key; a length other than 251 is the
    /// caller's bug and is rejected as `InvalidKey`.
    pub fn new(bits: Vec<bool>) -> (r: Result<Key, TrieError>)
        ensures
            r is Ok <==> bits@.len() == 251,
            r matches Ok(k) ==> k@ == bits@ && k.wf(),
            r is Err ==> r == Err::<Key, TrieError>(TrieError::InvalidKey),
    {
        if bits.len() == 251 {
            Ok(Key { bits })
        } else {
            Err(TrieError::InvalidKey)
        }
    }

    pub fn bit(&self, i: usize) -> (b: bool)
        requires
            self.wf(),
            i < 251,
        ensures
            b == self@[i as int],
    {
        self.bits[i]
    }
}

/// The value an optional subtree holds at a key suffix.
pub open spec fn opt_lookup(o: Option<Node>, k: Seq<bool>) -> Felt {
    match o {
        None => Felt::spec_zero(),
        Some(n) => n.lookup(k),
    }
}

/// The length of the longest common prefix of an edge path and the key
/// suffix that starts at bit `i`.
pub(crate) fn common_prefix(path: &Vec<bool>, key: &Key, i: usize) -> (j: usize)
    requires
        key.wf(),
        i <= 251,
        path@.len() <= 251 - i,
    ensures
        j <= path@.len(),
        forall|t: int| 0 <= t < j ==> path@[t] == key@[i + t],
        j < path@.len() ==> path@[j as int] != key@[i + j],
{
    let mut j: usize = 0;
    while j < path.len()
        invariant
            key.wf(),
            i <= 251,
            path@.len() <= 251 - i,
            j <= path@.len(),
            forall|t: int| 0 <= t < j ==> path@[t] == key@[i + t],
        decreases path@.len() - j,
    {
        if path[j] != key.bit(i + j) {
            return j;
        }
        j += 1;
    }
    j
}

/// A binary Merkle-Patricia trie over 251-bit keys, held fully in memory.
pub struct MerkleTree {
    pub root: Option<Node>,
}

impl MerkleTree {
    /// The root is a canonical tree of height 251, or absent when empty.
    pub open spec fn wf(self) -> bool {
        match self.root {
            None => true,
            Some(n) => n.wf(251),
        }
    }

    /// The key-to-value contents of the trie; zero stands for absent.
    pub open spec fn lookup(self, k: Seq<bool>) -> Felt {
        opt_lookup(self.root, k)
    }

    pub open spec fn spec_root(self) -> Option<Node> {
        self.root
    }

    /// The empty trie: every key absent.
    pub fn empty() -> (r: MerkleTree)
        ensures
            r.wf(),
            r.spec_root() is None,
            forall|k: Seq<bool>| r.lookup(k) == Felt::spec_zero(),
    {
        MerkleTree { root: None }
    }

    /// Writes `value` at `key`; the zero value deletes the key. Afterwards
    /// the trie holds `value` at `key` and is unchanged elsewhere; deleting
    /// a key that was absent leaves the trie exactly as it was.
    pub fn set(&mut self, key: &Key, value: Felt)
        requires
            old(self).wf(),
            key.wf(),
        ensures
            final(self).wf(),
            forall|k2: Seq<bool>| k2.len() == 251 ==> final(self).lookup(k2) == (if k2 == key@ {
                value
            } else {
                old(self).lookup(k2)
            }),
            (value == Felt::spec_zero() && old(self).lookup(key@) == Felt::spec_zero())
                ==> *final(self) == *old(self),
    {
        proof {
            assert(key@.skip(0) =~= key@);
        }
        let root = self.root.take();
        match root {
            None => {
                if value.is_zero() {
                    self.root = None;
                } else {
                    let n = tail_node(key, 0, value);
                    self.root = Some(n);
                }
            },
            Some(n) => {
                let r = set_rec(n, key, 0, value);
                self.root = r;
            },
        }
    }

    /// Looks a key up; returns the zero value when the key is absent.
    pub fn get(&self, key: &Key) -> (r: Felt)
        requires
            self.wf(),
            key.wf(),
        ensures
            r == self.lookup(key@),
    {
        match &self.root {
            None => Felt::zero(),
            Some(n) => {
                proof {
                    assert(key@.skip(0) =~= key@);
                }
                get_rec(n, key, 0)
            },
        }
    }
}

/// Descends from a node of height `251 - i` and returns the value at the
/// rest of the key.
fn get_rec(n: &Node, key: &Key, i: usize) -> (r: Felt)
    requires
        key.wf(),
        i <= 251,
        n.wf((251 - i) as nat),
    ensures
        r == n.lookup(key@.skip(i as int)),
    decreases *n,
{
    match n {
        Node::Leaf { value } => *value,
        Node::Binary { left, right } => {
            proof {
                assert(key@.skip(i as int).skip(1) =~= key@.skip(i + 1));
            }
            if key.bit(i) {
                get_rec(right, key, i + 1)
            } else {
                get_rec(left, key, i + 1)
            }
        },
        Node::Edge { path, child } => {
            let j = common_prefix(path, key, i);
            if j == path.len() {
                proof {
                    assert(key@.skip(i as int).take(path@.len() as int) =~= path@);
                    assert(key@.skip(i as int).skip(path@.len() as int)
                        =~= key@.skip(i + path@.len()));
                }
                get_rec(child, key, i + j)
            } else {
                proof {
                    assert(key@.skip(i as int).take(path@.len() as int)[j as int]
                        == key@[i + j]);
                }
                Felt::zero()
            }
        },
        Node::Unresolved { .. } => {
            proof {
                assert(false);
            }
            Felt::zero()
        },
    }
}

/// Splitting a prefix off a sequence comparison: a concatenation is a prefix
/// of `k2` exactly when its parts match in order; skipping in two steps is
/// skipping once.
proof fn lemma_prefix_split(k2: Seq<bool>, p: Seq<bool>, q: Seq<bool>)
    requires
        p.len() + q.len() <= k2.len(),
    ensures
        (k2.take((p.len() + q.len()) as int) == p + q) <==> (k2.take(p.len() as int) == p
            && k2.skip(p.len() as int).take(q.len() as int) == q),
        k2.skip(p.len() as int).skip(q.len() as int) == k2.skip((p.len() + q.len()) as int),
{
    let pl = p.len() as int;
    let ql = q.len() as int;
    if k2.take(pl + ql) == p + q {
        assert forall|t: int| 0 <= t < pl implies k2.take(pl)[t] == p[t] by {
            assert(k2.take(pl + ql)[t] == (p + q)[t]);
        }
        assert(k2.take(pl) =~= p);
        assert forall|t: int| 0 <= t < ql implies k2.skip(pl).take(ql)[t] == q[t] by {
            assert(k2.take(pl + ql)[pl + t] == (p + q)[pl + t]);
        }
        assert(k2.skip(pl).take(ql) =~= q);
    }
    if k2.take(pl) == p && k2.skip(pl).take(ql) == q {
        assert forall|t: int| 0 <= t < pl + ql implies k2.take(pl + ql)[t] == (p + q)[t] by {
            if t < pl {
                assert(k2.take(pl)[t] == p[t]);
            } else {
                assert(k2.skip(pl).take(ql)[t - pl] == q[t - pl]);
            }
        }
        assert(k2.take(pl + ql) =~= p + q);
    }
    assert(k2.skip(pl).skip(ql) =~= k2.skip(pl + ql));
}

/// Extends a subtree upward by one bit: the result is an edge (or a longer
/// edge) whose lookups answer under `bit` what the subtree answered.
fn prepend_bit(sib: Node, bit: bool, Ghost(hc): Ghost<nat>) -> (r: Node)
    requires
        sib.wf(hc),
        hc + 1 <= 251,
    ensures
        r.wf((hc + 1) as nat),
        forall|k2: Seq<bool>| k2.len() == hc + 1 ==> r.lookup(k2) == (if k2[0] == bit {
            sib.lookup(k2.skip(1))
        } else {
            Felt::spec_zero()
        }),
{
    let ghost sib0 = sib;
    match sib {
        Node::Edge { path, child } => {
            let mut p: Vec<bool> = Vec::new();
            p.push(bit);
            let mut t: usize = 0;
            while t < path.len()
                invariant
                    t <= path@.len(),
                    p@ == seq![bit] + path@.take(t as int),
                decreases path@.len() - t,
            {
                p.push(path[t]);
                proof {
                    assert(seq![bit] + path@.take(t as int) + seq![path@[t as int]]
                        =~= seq![bit] + path@.take(t + 1));
                }
                t += 1;
            }
            proof {
                assert(p@ =~= seq![bit] + path@);
                assert(sib0 == Node::Edge { path, child });
                assert(sib0.wf(hc));
                assert(path@.len() <= hc);
            }
            let r = Node::Edge { path: p, child };
            proof {
                assert forall|k2: Seq<bool>| k2.len() == hc + 1 implies r.lookup(k2) == (
                if k2[0] == bit {
                    sib0.lookup(k2.skip(1))
                } else {
                    Felt::spec_zero()
                }) by {
                    lemma_prefix_split(k2, seq![bit], path@);
                    if k2.take(1) == seq![bit] {
                        assert(k2.take(1)[0] == seq![bit][0]);
                        assert(k2[0] == bit);
                    }
                    if k2[0] == bit {
                        assert(k2.take(1) =~= seq![bit]);
                    }
                }
            }
            r
        },
        other => {
            let mut vb: Vec<bool> = Vec::new();
            vb.push(bit);
            proof {
                assert(vb@ =~= seq![bit]);
            }
            let r = Node::Edge { path: vb, child: Box::new(other) };
            proof {
                assert forall|k2: Seq<bool>| k2.len() == hc + 1 implies r.lookup(k2) == (
                if k2[0] == bit {
                    sib0.lookup(k2.skip(1))
                } else {
                    Felt::spec_zero()
                }) by {
                    if k2.take(1) == seq![bit] {
                        assert(k2.take(1)[0] == seq![bit][0]);
                        assert(k2[0] == bit);
                    }
                    if k2[0] == bit {
                        assert(k2.take(1) =~= seq![bit]);
                    }
                }
            }
            r
        },
    }
}

/// The subtree that holds `value` at the rest of `key` from bit `t` on, and
/// nothing anywhere else: a lone leaf, or an edge straight down to one.
fn tail_node(key: &Key, t: usize, value: Felt) -> (r: Node)
    requires
        key.wf(),
        t <= 251,
        !value.spec_is_zero(),
    ensures
        r.wf((251 - t) as nat),
        forall|k2: Seq<bool>| k2.len() == 251 - t ==> r.lookup(k2) == (if k2 == key@.skip(
            t as int,
        ) {
            value
        } else {
            Felt::spec_zero()
        }),
{
    if t == 251 {
        let r = Node::Leaf { value };
        proof {
            assert forall|k2: Seq<bool>| #[trigger] k2.len() == 0 implies k2 == key@.skip(251) by {
                assert(k2 =~= key@.skip(251));
            }
        }
        r
    } else {
        let mut p: Vec<bool> = Vec::new();
        let mut u: usize = t;
        while u < 251
            invariant
                t <= u <= 251,
                key.wf(),
                p@ == key@.subrange(t as int, u as int),
            decreases 251 - u,
        {
            p.push(key.bit(u));
            proof {
                assert(key@.subrange(t as int, u as int) + seq![key@[u as int]]
                    =~= key@.subrange(t as int, u + 1));
            }
            u += 1;
        }
        proof {
            assert(p@ =~= key@.skip(t as int));
            assert(p@.len() == 251 - t);
        }
        let r = Node::Edge { path: p, child: Box::new(Node::Leaf { value }) };
        proof {
            assert((Node::Leaf { value }).wf(0));
            assert(1 <= p@.len() <= 251 - t);
            assert(r.wf((251 - t) as nat));
        }
        proof {
            assert forall|k2: Seq<bool>| k2.len() == 251 - t implies r.lookup(k2) == (
            if k2 == key@.skip(t as int) {
                value
            } else {
                Felt::spec_zero()
            }) by {
                assert(p@.len() as int <= k2.len());
                if k2.take((251 - t) as int) == key@.skip(t as int) {
                    assert forall|u: int| 0 <= u < k2.len() implies k2[u] == key@.skip(
                        t as int)[u] by {
                        assert(k2.take((251 - t) as int)[u] == key@.skip(t as int)[u]);
                    }
                    assert(k2 =~= key@.skip(t as int));
                    assert(k2.take(p@.len() as int) == p@);
                    assert(k2.skip(p@.len() as int).len() == 0);
                    assert((Node::Leaf { value }).lookup(k2.skip(p@.len() as int)) == value);
                    assert(r.lookup(k2) == value);
                }
                if k2 == key@.skip(t as int) {
                    assert(k2.take((251 - t) as int) =~= key@.skip(t as int));
                }
            }
        }
        r
    }
}

/// Writes `value` at the rest of `key` inside an owned subtree of height
/// `251 - i`, returning the re-canonicalized subtree, or `None` when the
/// subtree became empty. Every other key keeps its value, and deleting an
/// absent key returns the subtree unchanged.
fn set_rec(n: Node, key: &Key, i: usize, value: Felt) -> (r: Option<Node>)
    requires
        key.wf(),
        i <= 251,
        n.wf((251 - i) as nat),
    ensures
        r matches Some(m) ==> m.wf((251 - i) as nat),
        forall|k2: Seq<bool>| k2.len() == 251 - i ==> opt_lookup(r, k2) == (if k2 == key@.skip(
            i as int,
        ) {
            value
        } else {
            n.lookup(k2)
        }),
        (value == Felt::spec_zero() && n.lookup(key@.skip(i as int)) == Felt::spec_zero())
            ==> r == Some(n),
    decreases n, 1int,
{
    let ghost n0 = n;
    let ghost sfx = key@.skip(i as int);
    match n {
        Node::Leaf { value: _old } => {
            proof {
                assert forall|k2: Seq<bool>| #[trigger] k2.len() == 0 implies k2 == sfx by {
                    assert(k2 =~= sfx);
                }
            }
            if value.is_zero() {
                None
            } else {
                Some(Node::Leaf { value })
            }
        },
        Node::Binary { left, right } => {
            let ghost left0 = *left;
            let ghost right0 = *right;
            proof {
                assert(n0 == Node::Binary { left, right });
                assert(sfx.skip(1) =~= key@.skip(i + 1));
            }
            let b = key.bit(i);
            if b {
                let rec = set_rec(*right, key, i + 1, value);
                match rec {
                    Some(c) => {
                        let r = Some(Node::Binary { left, right: Box::new(c) });
                        proof {
                            assert forall|k2: Seq<bool>| k2.len() == 251 - i implies opt_lookup(
                                r, k2) == (if k2 == sfx {
                                value
                            } else {
                                n0.lookup(k2)
                            }) by {
                                assert(opt_lookup(rec, k2.skip(1)) == (if k2.skip(1)
                                    == key@.skip(i + 1) {
                                    value
                                } else {
                                    right0.lookup(k2.skip(1))
                                }));
                                if k2[0] {
                                    if k2.skip(1) == sfx.skip(1) {
                                        assert forall|t: int| 0 <= t < k2.len() implies k2[t]
                                            == sfx[t] by {
                                            if t >= 1 {
                                                assert(k2.skip(1)[t - 1] == sfx.skip(1)[t - 1]);
                                            }
                                        }
                                        assert(k2 =~= sfx);
                                    }
                                    if k2 == sfx {
                                        assert(k2.skip(1) == sfx.skip(1));
                                    }
                                } else {
                                    assert(k2 != sfx);
                                }
                            }
                        }
                        r
                    },
                    None => {
                        let r = Some(prepend_bit(*left, false, Ghost((250 - i) as nat)));
                        proof {
                            assert forall|k2: Seq<bool>| k2.len() == 251 - i implies opt_lookup(
                                r, k2) == (if k2 == sfx {
                                value
                            } else {
                                n0.lookup(k2)
                            }) by {
                                assert(opt_lookup(rec, k2.skip(1)) == (if k2.skip(1)
                                    == key@.skip(i + 1) {
                                    value
                                } else {
                                    right0.lookup(k2.skip(1))
                                }));
                                if k2[0] {
                                    if k2 == sfx {
                                        assert(k2.skip(1) == sfx.skip(1));
                                    } else {
                                        if k2.skip(1) == sfx.skip(1) {
                                            assert forall|t: int| 0 <= t < k2.len() implies k2[t]
                                                == sfx[t] by {
                                                if t >= 1 {
                                                    assert(k2.skip(1)[t - 1] == sfx.skip(1)[t
                                                        - 1]);
                                                }
                                            }
                                            assert(k2 =~= sfx);
                                        }
                                    }
                                } else {
                                    assert(k2 != sfx);
                                }
                            }
                        }
                        r
                    },
                }
            } else {
                let rec = set_rec(*left, key, i + 1, value);
                match rec {
                    Some(c) => {
                        let r = Some(Node::Binary { left: Box::new(c), right });
                        proof {
                            assert forall|k2: Seq<bool>| k2.len() == 251 - i implies opt_lookup(
                                r, k2) == (if k2 == sfx {
                                value
                            } else {
                                n0.lookup(k2)
                            }) by {
                                assert(opt_lookup(rec, k2.skip(1)) == (if k2.skip(1)
                                    == key@.skip(i + 1) {
                                    value
                                } else {
                                    left0.lookup(k2.skip(1))
                                }));
                                if !k2[0] {
                                    if k2.skip(1) == sfx.skip(1) {
                                        assert forall|t: int| 0 <= t < k2.len() implies k2[t]
                                            == sfx[t] by {
                                            if t >= 1 {
                                                assert(k2.skip(1)[t - 1] == sfx.skip(1)[t - 1]);
                                            }
                                        }
                                        assert(k2 =~= sfx);
                                    }
                                    if k2 == sfx {
                                        assert(k2.skip(1) == sfx.skip(1));
                                    }
                                } else {
                                    assert(k2 != sfx);
                                }
                            }
                        }
                        r
                    },
                    None => {
                        let r = Some(prepend_bit(*right, true, Ghost((250 - i) as nat)));
                        proof {
                            assert forall|k2: Seq<bool>| k2.len() == 251 - i implies opt_lookup(
                                r, k2) == (if k2 == sfx {
                                value
                            } else {
                                n0.lookup(k2)
                            }) by {
                                assert(opt_lookup(rec, k2.skip(1)) == (if k2.skip(1)
                                    == key@.skip(i + 1) {
                                    value
                                } else {
                                    left0.lookup(k2.skip(1))
                                }));
                                if !k2[0] {
                                    if k2 == sfx {
                                        assert(k2.skip(1) == sfx.skip(1));
                                    } else {
                                        if k2.skip(1) == sfx.skip(1) {
                                            assert forall|t: int| 0 <= t < k2.len() implies k2[t]
                                                == sfx[t] by {
                                                if t >= 1 {
                                                    assert(k2.skip(1)[t - 1] == sfx.skip(1)[t
                                                        - 1]);
                                                }
                                            }
                                            assert(k2 =~= sfx);
                                        }
                                    }
                                } else {
                                    assert(k2 != sfx);
                                }
                            }
                        }
                        r
                    },
                }
            }
        },
        Node::Edge { path, child } => set_rec_edge(path, child, key, i, value),
        Node::Unresolved { hash } => {
            proof {
                assert(false);
            }
            Some(Node::Unresolved { hash })
        },
    }
}

/// The edge case of `set_rec`: descend through a matching path, or split the
/// edge where the key diverges from it.
fn set_rec_edge(path: Vec<bool>, child: Box<Node>, key: &Key, i: usize, value: Felt) -> (r:
    Option<Node>)
    requires
        key.wf(),
        i <= 251,
        (Node::Edge { path, child }).wf((251 - i) as nat),
    ensures
        r matches Some(m) ==> m.wf((251 - i) as nat),
        forall|k2: Seq<bool>| k2.len() == 251 - i ==> opt_lookup(r, k2) == (if k2 == key@.skip(
            i as int,
        ) {
            value
        } else {
            (Node::Edge { path, child }).lookup(k2)
        }),
        (value == Felt::spec_zero() && (Node::Edge { path, child }).lookup(key@.skip(i as int))
            == Felt::spec_zero()) ==> r == Some(Node::Edge { path, child }),
    decreases child, 2int,
{
    let ghost n0 = Node::Edge { path, child };
    let ghost child0 = *child;
    let ghost path0 = path@;
    let ghost sfx = key@.skip(i as int);
    let plen = path.len();
    let j = common_prefix(&path, key, i);
    if j == plen {
        // the key runs along the whole path: descend into the child
        proof {
            assert(sfx.take(plen as int) =~= path@);
            assert(sfx.skip(plen as int) =~= key@.skip(i + plen));
        }
        let rec = set_rec(*child, key, i + plen, value);
        match rec {
            Some(c) => {
                let ghost c0 = c;
                match c {
                    Node::Edge { path: p2, child: c2 } => {
                        // the child collapsed to an edge: merge the paths
                        proof {
                            if value == Felt::spec_zero() && n0.lookup(sfx)
                                == Felt::spec_zero() {
                                assert(rec == Some(child0));
                                assert(false);
                            }
                        }
                        let mut p = path;
                        let mut t: usize = 0;
                        while t < p2.len()
                            invariant
                                t <= p2@.len(),
                                p@ == path0 + p2@.take(t as int),
                            decreases p2@.len() - t,
                        {
                            p.push(p2[t]);
                            proof {
                                assert(path0 + p2@.take(t as int) + seq![p2@[t as int]]
                                    =~= path0 + p2@.take(t + 1));
                            }
                            t += 1;
                        }
                        proof {
                            assert(p@ =~= path0 + p2@);
                        }
                        let rr = Some(Node::Edge { path: p, child: c2 });
                        proof {
                            assert forall|k2: Seq<bool>| k2.len() == 251 - i implies opt_lookup(
                                rr, k2) == (if k2 == sfx {
                                value
                            } else {
                                n0.lookup(k2)
                            }) by {
                                lemma_prefix_split(k2, path0, p2@);
                                assert(opt_lookup(rec, k2.skip(plen as int)) == (
                                if k2.skip(plen as int) == key@.skip(i + plen) {
                                    value
                                } else {
                                    child0.lookup(k2.skip(plen as int))
                                }));
                                if k2.take(plen as int) == path0 {
                                    assert(c0.lookup(k2.skip(plen as int)) == (
                                    if k2.skip(plen as int) == key@.skip(i + plen) {
                                        value
                                    } else {
                                        child0.lookup(k2.skip(plen as int))
                                    }));
                                    if k2.skip(plen as int) == key@.skip(i + plen) {
                                        assert forall|t: int| 0 <= t < k2.len() implies k2[t]
                                            == sfx[t] by {
                                            if t < plen {
                                                assert(k2.take(plen as int)[t] == path0[t]);
                                                assert(sfx.take(plen as int)[t] == path0[t]);
                                            } else {
                                                assert(k2.skip(plen as int)[t - plen]
                                                    == key@.skip(i + plen)[t - plen]);
                                                assert(sfx[t] == key@[i + t]);
                                            }
                                        }
                                        assert(k2 =~= sfx);
                                    }
                                    if k2 == sfx {
                                        assert(k2.skip(plen as int) == key@.skip(i + plen));
                                    }
                                } else {
                                    assert(k2 != sfx);
                                }
                            }
                        }
                        rr
                    },
                    c_other => {
                        let rr = Some(Node::Edge { path, child: Box::new(c_other) });
                        proof {
                            assert forall|k2: Seq<bool>| k2.len() == 251 - i implies opt_lookup(
                                rr, k2) == (if k2 == sfx {
                                value
                            } else {
                                n0.lookup(k2)
                            }) by {
                                assert(opt_lookup(rec, k2.skip(plen as int)) == (
                                if k2.skip(plen as int) == key@.skip(i + plen) {
                                    value
                                } else {
                                    child0.lookup(k2.skip(plen as int))
                                }));
                                if k2.take(plen as int) == path0 {
                                    if k2.skip(plen as int) == key@.skip(i + plen) {
                                        assert forall|t: int| 0 <= t < k2.len() implies k2[t]
                                            == sfx[t] by {
                                            if t < plen {
                                                assert(k2.take(plen as int)[t] == path0[t]);
                                                assert(sfx.take(plen as int)[t] == path0[t]);
                                            } else {
                                                assert(k2.skip(plen as int)[t - plen]
                                                    == key@.skip(i + plen)[t - plen]);
                                                assert(sfx[t] == key@[i + t]);
                                            }
                                        }
                                        assert(k2 =~= sfx);
                                    }
                                    if k2 == sfx {
                                        assert(k2.skip(plen as int) == key@.skip(i + plen));
                                    }
                                } else {
                                    assert(k2 != sfx);
                                }
                            }
                        }
                        rr
                    },
                }
            },
            None => {
                proof {
                    if value == Felt::spec_zero() && n0.lookup(sfx) == Felt::spec_zero() {
                        assert(rec == Some(child0));
                        assert(false);
                    }
                    assert forall|k2: Seq<bool>| k2.len() == 251 - i implies opt_lookup(
                        None::<Node>, k2) == (if k2 == sfx {
                        value
                    } else {
                        n0.lookup(k2)
                    }) by {
                        assert(opt_lookup(rec, k2.skip(plen as int)) == (
                        if k2.skip(plen as int) == key@.skip(i + plen) {
                            value
                        } else {
                            child0.lookup(k2.skip(plen as int))
                        }));
                        if k2.take(plen as int) == path0 {
                            assert(opt_lookup(None::<Node>, k2.skip(plen as int)) == (
                            if k2.skip(plen as int) == key@.skip(i + plen) {
                                value
                            } else {
                                child0.lookup(k2.skip(plen as int))
                            }));
                            if k2.skip(plen as int) == key@.skip(i + plen) {
                                assert forall|t: int| 0 <= t < k2.len() implies k2[t] == sfx[t]
                                    by {
                                    if t < plen {
                                        assert(k2.take(plen as int)[t] == path0[t]);
                                        assert(sfx.take(plen as int)[t] == path0[t]);
                                    } else {
                                        assert(k2.skip(plen as int)[t - plen] == key@.skip(
                                            i + plen)[t - plen]);
                                        assert(sfx[t] == key@[i + t]);
                                    }
                                }
                                assert(k2 =~= sfx);
                            }
                            if k2 == sfx {
                                assert(k2.skip(plen as int) == key@.skip(i + plen));
                            }
                        } else {
                            assert(k2 != sfx);
                        }
                    }
                }
                None
            },
        }
    } else {
        // the key leaves the path at bit j
        proof {
            assert(sfx.take(plen as int)[j as int] == key@[i + j]);
            assert(n0.lookup(sfx) == Felt::spec_zero());
        }
        if value.is_zero() {
            // deleting an absent key: nothing changes
            Some(Node::Edge { path, child })
        } else {
            split_edge(path, child, key, i, value, j)
        }
    }
}

/// Splits an edge whose path diverges from the key at bit `j`: the common
/// prefix becomes an edge above a new binary node whose two sides are the
/// remainder of the old edge and a fresh subtree holding `value`.
fn split_edge(path: Vec<bool>, child: Box<Node>, key: &Key, i: usize, value: Felt, j: usize) -> (r:
    Option<Node>)
    requires
        key.wf(),
        i <= 251,
        (Node::Edge { path, child }).wf((251 - i) as nat),
        !value.spec_is_zero(),
        j < path@.len(),
        forall|t: int| 0 <= t < j ==> path@[t] == key@[i + t],
        path@[j as int] != key@[i + j],
    ensures
        r matches Some(m) ==> m.wf((251 - i) as nat),
        forall|k2: Seq<bool>| k2.len() == 251 - i ==> opt_lookup(r, k2) == (if k2 == key@.skip(
            i as int,
        ) {
            value
        } else {
            (Node::Edge { path, child }).lookup(k2)
        }),
{
    let ghost n0 = Node::Edge { path, child };
    let ghost child0 = *child;
    let ghost path0 = path@;
    let ghost sfx = key@.skip(i as int);
    let plen = path.len();
    let bit_ex = path[j];
    let ghost pj = path0.take(j as int);
    let ghost q = path0.skip(j + 1);

    // the remainder of the old edge below the divergence point
    let mut rest: Vec<bool> = Vec::new();
    let mut t: usize = j + 1;
    while t < plen
        invariant
            j + 1 <= t <= plen,
            plen == path@.len(),
            rest@ == path@.subrange(j + 1, t as int),
        decreases plen - t,
    {
        rest.push(path[t]);
        proof {
            assert(path@.subrange(j + 1, t as int) + seq![path@[t as int]]
                =~= path@.subrange(j + 1, t + 1));
        }
        t += 1;
    }
    proof {
        assert(rest@ =~= q);
        assert(path0 =~= pj + (seq![path0[j as int]] + q));
    }
    let rest_empty = rest.len() == 0;
    let ex: Node = if rest_empty {
        *child
    } else {
        Node::Edge { path: rest, child }
    };
    let ghost hb: nat = (250 - i - j) as nat;
    // what the old edge answers under its own bit at the divergence point
    proof {
        assert(ex.wf(hb));
        assert forall|k3: Seq<bool>| k3.len() == hb implies ex.lookup(k3) == (if k3.take(
            q.len() as int) == q {
            child0.lookup(k3.skip(q.len() as int))
        } else {
            Felt::spec_zero()
        }) by {
            if q.len() == 0 {
                assert(k3.take(0) =~= q);
                assert(k3.skip(0) =~= k3);
            }
        }
    }
    let ns = tail_node(key, i + j + 1, value);
    let bin = if bit_ex {
        Node::Binary { left: Box::new(ns), right: Box::new(ex) }
    } else {
        Node::Binary { left: Box::new(ex), right: Box::new(ns) }
    };
    proof {
        assert(bin.wf((hb + 1) as nat));
        assert(sfx.take(j as int) =~= pj);
        assert forall|k4: Seq<bool>| k4.len() == hb + 1 implies bin.lookup(k4) == (
        if k4[0] == bit_ex {
            ex.lookup(k4.skip(1))
        } else {
            ns.lookup(k4.skip(1))
        }) by {}
    }
    let r_node: Node;
    if j == 0 {
        r_node = bin;
        proof {
            assert forall|k2: Seq<bool>| k2.len() == 251 - i implies r_node.lookup(k2) == (
            if k2 == sfx {
                value
            } else {
                n0.lookup(k2)
            }) by {
                assert(k2.skip(0) =~= k2);
                assert(k2.take(0) =~= pj);
                assert(k2.skip(0).skip(1) =~= k2.skip(1));
                lemma_split_lookup_case(k2, path0, pj, q, key@, i as int, j as int, sfx,
                    child0, ns, ex, value, bit_ex);
            }
        }
    } else {
        let mut pfx: Vec<bool> = Vec::new();
        let mut u: usize = 0;
        while u < j
            invariant
                u <= j,
                j < path@.len(),
                pfx@ == path@.take(u as int),
            decreases j - u,
        {
            pfx.push(path[u]);
            proof {
                assert(path@.take(u as int) + seq![path@[u as int]] =~= path@.take(u + 1));
            }
            u += 1;
        }
        proof {
            assert(pfx@ =~= pj);
        }
        r_node = Node::Edge { path: pfx, child: Box::new(bin) };
        proof {
            assert forall|k2: Seq<bool>| k2.len() == 251 - i implies r_node.lookup(k2) == (
            if k2 == sfx {
                value
            } else {
                n0.lookup(k2)
            }) by {
                if k2.take(j as int) == pj {
                    assert(k2.skip(j as int)[0] == k2[j as int]);
                    assert(k2.skip(j as int).skip(1) =~= k2.skip(j + 1));
                    lemma_split_lookup_case(k2, path0, pj, q, key@, i as int, j as int, sfx,
                        child0, ns, ex, value, bit_ex);
                } else {
                    // neither the old edge nor the key reaches below this point
                    assert(k2 != sfx);
                    if k2.take(plen as int) == path0 {
                        assert(k2.take(j as int) =~= pj);
                    }
                }
            }
        }
    }
    Some(r_node)
}

/// The lookup split at a divergence point: under the old edge's own bit the
/// remainder answers what the old edge answered; under the key's bit the
/// fresh subtree answers the written value and the old edge answered nothing.
proof fn lemma_split_lookup_case(
    k2: Seq<bool>,
    path0: Seq<bool>,
    pj: Seq<bool>,
    q: Seq<bool>,
    keyv: Seq<bool>,
    i: int,
    j: int,
    sfx: Seq<bool>,
    child0: Node,
    ns: Node,
    ex: Node,
    value: Felt,
    bit_ex: bool,
)
    requires
        keyv.len() == 251,
        0 <= i <= 251,
        0 <= j < path0.len(),
        path0.len() <= 251 - i,
        k2.len() == 251 - i,
        pj == path0.take(j),
        q == path0.skip(j + 1),
        sfx == keyv.skip(i),
        bit_ex == path0[j],
        path0[j] != keyv[i + j],
        forall|t: int| 0 <= t < j ==> path0[t] == keyv[i + t],
        k2.take(j) == pj,
        forall|k3: Seq<bool>| k3.len() == 250 - i - j ==> ex.lookup(k3) == (if k3.take(
            q.len() as int) == q {
            child0.lookup(k3.skip(q.len() as int))
        } else {
            Felt::spec_zero()
        }),
        forall|k3: Seq<bool>| k3.len() == 250 - i - j ==> ns.lookup(k3) == (if k3 == keyv.skip(
            i + j + 1) {
            value
        } else {
            Felt::spec_zero()
        }),
    ensures
        k2[j] == bit_ex ==> k2 != sfx && ex.lookup(k2.skip(j + 1)) == (if k2.take(
            path0.len() as int) == path0 {
            child0.lookup(k2.skip(path0.len() as int))
        } else {
            Felt::spec_zero()
        }),
        k2[j] != bit_ex ==> k2.take(path0.len() as int) != path0 && ns.lookup(k2.skip(j + 1))
            == (if k2 == sfx {
            value
        } else {
            Felt::spec_zero()
        }),
{
    let plen = path0.len() as int;
    let b1 = seq![bit_ex];
    assert(pj + (b1 + q) =~= path0);
    lemma_prefix_split(k2, pj, b1 + q);
    lemma_prefix_split(k2.skip(j), b1, q);
    assert(k2.skip(j).skip(1) =~= k2.skip(j + 1));
    assert(k2.skip(j + 1).skip(q.len() as int) =~= k2.skip(plen));
    assert(k2.skip(j)[0] == k2[j]);
    assert(sfx[j] == keyv[i + j]);
    if k2[j] == bit_ex {
        // the old side: the key cannot equal `sfx` here
        assert(k2 != sfx);
        assert(k2.skip(j).take(1) =~= b1);
        if k2.take(plen) == path0 {
            assert(k2.skip(j).take(plen - j) == b1 + q);
            assert(k2.skip(j + 1).take(q.len() as int) == q);
        } else {
            if k2.skip(j + 1).take(q.len() as int) == q {
                assert(k2.skip(j).take(plen - j) == b1 + q);
                assert(k2.take(plen) == path0);
            }
        }
    } else {
        // the new side: the old edge held nothing along this bit
        if k2.take(plen) == path0 {
            assert(k2.skip(j).take(plen - j) == b1 + q);
            assert(k2.skip(j).take(1) =~= b1.take(1));
            assert(k2[j] == bit_ex);
        }
        assert(sfx.skip(j + 1) =~= keyv.skip(i + j + 1));
        if k2 == sfx {
            assert(k2.skip(j + 1) == keyv.skip(i + j + 1));
        } else {
            if k2.skip(j + 1) == keyv.skip(i + j + 1) {
                assert forall|t: int| 0 <= t < k2.len() implies k2[t] == sfx[t] by {
                    if t < j {
                        assert(k2[t] == pj[t]);
                        assert(sfx[t] == keyv[i + t]);
                    } else if t == j {
                        assert(k2[j] != path0[j]);
                    } else {
                        assert(k2[t] == k2.skip(j + 1)[t - j - 1]);
                        assert(sfx[t] == keyv[i + t]);
                    }
                }
                assert(k2 =~= sfx);
            }
        }
    }
}

/// One visited node of a depth-first walk: its bit path from the root and
/// its structural hash.
pub struct DfsEntry {
    pub path: Vec<bool>,
    pub hash: Felt,
}

/// The depth-first listing of a subtree: the node itself first, then its
/// children left before right, each with its bit path from the root.
pub open spec fn dfs_view_node(n: Node, prefix: Seq<bool>) -> Seq<(Seq<bool>, Felt)>
    decreases n,
{
    match n {
        Node::Leaf { .. } => seq![(prefix, n.nh())],
        Node::Binary { left, right } => seq![(prefix, n.nh())] + dfs_view_node(*left,
            prefix.push(false)) + dfs_view_node(*right, prefix.push(true)),
        Node::Edge { path, child } => seq![(prefix, n.nh())] + dfs_view_node(*child,
            prefix + path@),
        Node::Unresolved { .. } => Seq::empty(),
    }
}

/// Copies a bit vector.
fn clone_bits(v: &Vec<bool>) -> (r: Vec<bool>)
    ensures
        r@ == v@,
{
    let mut r: Vec<bool> = Vec::new();
    let mut t: usize = 0;
    while t < v.len()
        invariant
            t <= v@.len(),
            r@ == v@.take(t as int),
        decreases v@.len() - t,
    {
        r.push(v[t]);
        proof {
            assert(v@.take(t as int) + seq![v@[t as int]] =~= v@.take(t + 1));
        }
        t += 1;
    }
    proof {
        assert(r@ =~= v@);
    }
    r
}

impl MerkleTree {
    /// The depth-first listing of the whole trie, parents before children
    /// and left before right.
    pub open spec fn dfs_view(self) -> Seq<(Seq<bool>, Felt)> {
        match self.spec_root() {
            None => Seq::empty(),
            Some(n) => dfs_view_node(n, Seq::empty()),
        }
    }

    /// Walks the trie depth first and returns every node with its bit path,
    /// parents before children, left before right.
    pub fn dfs(&self) -> (r: Vec<DfsEntry>)
        requires
            self.wf(),
        ensures
            r@.len() == self.dfs_view().len(),
            forall|u: int| 0 <= u < r@.len() ==> (#[trigger] r@[u]).path@
                == self.dfs_view()[u].0 && r@[u].hash == self.dfs_view()[u].1,
    {
        let mut out: Vec<DfsEntry> = Vec::new();
        match &self.root {
            None => {},
            Some(n) => {
                let pfx: Vec<bool> = Vec::new();
                proof {
                    assert(pfx@ =~= Seq::<bool>::empty());
                }
                dfs_rec(n, pfx, &mut out, Ghost(251nat));
                proof {
                    let dv = dfs_view_node(*n, Seq::<bool>::empty());
                    assert forall|u: int| 0 <= u < out@.len() implies (#[trigger] out@[
                        u]).path@ == dv[u].0 && out@[u].hash == dv[u].1 by {
                        assert((out@[0 + u]).path@ == dv[u].0 && out@[0 + u].hash == dv[u].1);
                    }
                }
            },
        }
        out
    }
}

/// Appends the depth-first listing of a subtree to `out`.
fn dfs_rec(n: &Node, prefix: Vec<bool>, out: &mut Vec<DfsEntry>, Ghost(h): Ghost<nat>)
    requires
        n.wf(h),
        h <= 251,
    ensures
        final(out)@.len() == old(out)@.len() + dfs_view_node(*n, prefix@).len(),
        forall|u: int| 0 <= u < old(out)@.len() ==> final(out)@[u] == old(out)@[u],
        forall|u: int| 0 <= u < dfs_view_node(*n, prefix@).len() ==> (#[trigger] final(
            out)@[old(out)@.len() + u]).path@ == dfs_view_node(*n, prefix@)[u].0 && final(
            out)@[old(out)@.len() + u].hash == dfs_view_node(*n, prefix@)[u].1,
    decreases *n,
{
    let ghost base = out@.len() as int;
    let ghost dv = dfs_view_node(*n, prefix@);
    let hash = n.compute_hash(Ghost(h));
    match n {
        Node::Leaf { .. } => {
            out.push(DfsEntry { path: prefix, hash });
        },
        Node::Binary { left, right } => {
            let mut pl = clone_bits(&prefix);
            pl.push(false);
            let mut pr = clone_bits(&prefix);
            pr.push(true);
            let ghost a = dfs_view_node(**left, prefix@.push(false));
            let ghost b = dfs_view_node(**right, prefix@.push(true));
            out.push(DfsEntry { path: prefix, hash });
            let ghost out1 = out@;
            dfs_rec(left, pl, out, Ghost((h - 1) as nat));
            let ghost out2 = out@;
            dfs_rec(right, pr, out, Ghost((h - 1) as nat));
            proof {
                assert(dv.len() == 1 + a.len() + b.len());
                assert forall|u: int| 0 <= u < dv.len() implies (#[trigger] out@[base
                    + u]).path@ == dv[u].0 && out@[base + u].hash == dv[u].1 by {
                    if u == 0 {
                        assert(dv[0] == (prefix@, n.nh()));
                        assert(out@[base] == out2[base]);
                        assert(out2[base] == out1[base]);
                    } else if u < 1 + a.len() {
                        assert(dv[u] == a[u - 1]);
                        assert((out2[(base + 1) + (u - 1)]).path@ == a[u - 1].0
                            && out2[(base + 1) + (u - 1)].hash == a[u - 1].1);
                        assert(out@[(base + 1) + (u - 1)] == out2[(base + 1) + (u - 1)]);
                        assert(base + u == (base + 1) + (u - 1));
                    } else {
                        assert(dv[u] == b[u - 1 - a.len()]);
                        assert((out@[(base + 1 + a.len()) + (u - 1 - a.len())]).path@ == b[u
                            - 1 - a.len()].0 && out@[(base + 1 + a.len()) + (u - 1
                            - a.len())].hash == b[u - 1 - a.len()].1);
                        assert(base + u == (base + 1 + a.len()) + (u - 1 - a.len()));
                    }
                }
            }
        },
        Node::Edge { path, child } => {
            let mut pc = clone_bits(&prefix);
            let mut t: usize = 0;
            while t < path.len()
                invariant
                    t <= path@.len(),
                    pc@ == prefix@ + path@.take(t as int),
                decreases path@.len() - t,
            {
                pc.push(path[t]);
                proof {
                    assert(prefix@ + path@.take(t as int) + seq![path@[t as int]]
                        =~= prefix@ + path@.take(t + 1));
                }
                t += 1;
            }
            proof {
                assert(pc@ =~= prefix@ + path@);
                assert(prefix@ + path@.take(0) =~= prefix@);
            }
            let ghost a = dfs_view_node(**child, prefix@ + path@);
            out.push(DfsEntry { path: prefix, hash });
            let ghost out1 = out@;
            dfs_rec(child, pc, out, Ghost((h - path@.len()) as nat));
            proof {
                assert(dv.len() == 1 + a.len());
                assert forall|u: int| 0 <= u < dv.len() implies (#[trigger] out@[base
                    + u]).path@ == dv[u].0 && out@[base + u].hash == dv[u].1 by {
                    if u == 0 {
                        assert(dv[0] == (prefix@, n.nh()));
                        assert(out@[base] == out1[base]);
                    } else {
                        assert(dv[u] == a[u - 1]);
                        assert((out@[(base + 1) + (u - 1)]).path@ == a[u - 1].0 && out@[(base
                            + 1) + (u - 1)].hash == a[u - 1].1);
                        assert(base + u == (base + 1) + (u - 1));
                    }
                }
            }
        },
        Node::Unresolved { .. } => {
            proof {
                assert(false);
            }
        },
    }
}

/// One key a canonical subtree certainly holds: straight down the leftmost
/// populated branch.
pub open spec fn some_key(n: Node) -> Seq<bool>
    decreases n,
{
    match n {
        Node::Leaf { .. } => Seq::empty(),
        Node::Binary { left, right } => seq![false] + some_key(*left),
        Node::Edge { path, child } => path@ + some_key(*child),
        Node::Unresolved { .. } => Seq::empty(),
    }
}

/// Every canonical subtree holds a value somewhere: `some_key` names a full
/// length key whose lookup is not zero.
pub proof fn lemma_some_key(n: Node, h: nat)
    requires
        n.wf(h),
    ensures
        some_key(n).len() == h,
        n.lookup(some_key(n)) != Felt::spec_zero(),
    decreases n,
{
    match n {
        Node::Leaf { .. } => {},
        Node::Binary { left, right } => {
            lemma_some_key(*left, (h - 1) as nat);
            let k = seq![false] + some_key(*left);
            assert(k[0] == false);
            assert(k.skip(1) =~= some_key(*left));
        },
        Node::Edge { path, child } => {
            lemma_some_key(*child, (h - path@.len()) as nat);
            let k = path@ + some_key(*child);
            assert(k.take(path@.len() as int) =~= path@);
            assert(k.skip(path@.len() as int) =~= some_key(*child));
        },
        Node::Unresolved { .. } => {},
    }
}

/// Root determinism, the structural half: two canonical subtrees of one
/// height that agree on every key have the same structural hash. With `set`'s
/// contract this makes the committed root a function of the final
/// key-to-value contents alone, whatever order the updates arrived in, and
/// makes insert-then-delete commit the pre-state root.
pub proof fn lemma_contents_determine_hash(n1: Node, n2: Node, h: nat)
    requires
        n1.wf(h),
        n2.wf(h),
        forall|k: Seq<bool>| k.len() == h ==> #[trigger] n1.lookup(k) == n2.lookup(k),
    ensures
        n1.nh() == n2.nh(),
    decreases n1,
{
    match n1 {
        Node::Leaf { value: v1 } => {
            match n2 {
                Node::Leaf { value: v2 } => {
                    let k0 = Seq::<bool>::empty();
                    assert(n1.lookup(k0) == n2.lookup(k0));
                },
                _ => {},
            }
        },
        Node::Binary { left: l1, right: r1 } => {
            match n2 {
                Node::Binary { left: l2, right: r2 } => {
                    assert forall|k: Seq<bool>| k.len() == h - 1 implies #[trigger] l1.lookup(
                        k) == l2.lookup(k) by {
                        let kk = seq![false] + k;
                        assert(kk.len() == h);
                        assert(n1.lookup(kk) == n2.lookup(kk));
                        assert(kk[0] == false);
                        assert(kk.skip(1) =~= k);
                    }
                    assert forall|k: Seq<bool>| k.len() == h - 1 implies #[trigger] r1.lookup(
                        k) == r2.lookup(k) by {
                        let kk = seq![true] + k;
                        assert(kk.len() == h);
                        assert(n1.lookup(kk) == n2.lookup(kk));
                        assert(kk[0] == true);
                        assert(kk.skip(1) =~= k);
                    }
                    lemma_contents_determine_hash(*l1, *l2, (h - 1) as nat);
                    lemma_contents_determine_hash(*r1, *r2, (h - 1) as nat);
                },
                Node::Edge { path: p2, child: c2 } => {
                    // a binary node holds values under both first bits; an
                    // edge answers under one
                    lemma_some_key(*l1, (h - 1) as nat);
                    lemma_some_key(*r1, (h - 1) as nat);
                    let ka = seq![false] + some_key(*l1);
                    let kb = seq![true] + some_key(*r1);
                    assert(ka[0] == false && kb[0] == true);
                    assert(ka.skip(1) =~= some_key(*l1));
                    assert(kb.skip(1) =~= some_key(*r1));
                    assert(n1.lookup(ka) != Felt::spec_zero());
                    assert(n1.lookup(kb) != Felt::spec_zero());
                    assert(n2.lookup(ka) != Felt::spec_zero());
                    assert(n2.lookup(kb) != Felt::spec_zero());
                    assert(ka.take(p2@.len() as int) == p2@);
                    assert(kb.take(p2@.len() as int) == p2@);
                    assert(ka.take(p2@.len() as int)[0] == false);
                    assert(kb.take(p2@.len() as int)[0] == true);
                    assert(false);
                },
                _ => {},
            }
        },
        Node::Edge { path: p1, child: c1 } => {
            match n2 {
                Node::Binary { left: l2, right: r2 } => {
                    lemma_some_key(*l2, (h - 1) as nat);
                    lemma_some_key(*r2, (h - 1) as nat);
                    let ka = seq![false] + some_key(*l2);
                    let kb = seq![true] + some_key(*r2);
                    assert(ka[0] == false && kb[0] == true);
                    assert(ka.skip(1) =~= some_key(*l2));
                    assert(kb.skip(1) =~= some_key(*r2));
                    assert(n2.lookup(ka) != Felt::spec_zero());
                    assert(n2.lookup(kb) != Felt::spec_zero());
                    assert(n1.lookup(ka) != Felt::spec_zero());
                    assert(n1.lookup(kb) != Felt::spec_zero());
                    assert(ka.take(p1@.len() as int) == p1@);
                    assert(kb.take(p1@.len() as int) == p1@);
                    assert(ka.take(p1@.len() as int)[0] == false);
                    assert(kb.take(p1@.len() as int)[0] == true);
                    assert(false);
                },
                Node::Edge { path: p2, child: c2 } => {
                    let len1 = p1@.len() as int;
                    let len2 = p2@.len() as int;
                    lemma_some_key(*c1, (h - p1@.len()) as nat);
                    lemma_some_key(*c2, (h - p2@.len()) as nat);
                    let k1 = p1@ + some_key(*c1);
                    let k2 = p2@ + some_key(*c2);
                    assert(k1.take(len1) =~= p1@);
                    assert(k1.skip(len1) =~= some_key(*c1));
                    assert(k2.take(len2) =~= p2@);
                    assert(k2.skip(len2) =~= some_key(*c2));
                    assert(n1.lookup(k1) != Felt::spec_zero());
                    assert(n2.lookup(k2) != Felt::spec_zero());
                    assert(n2.lookup(k1) != Felt::spec_zero());
                    assert(n1.lookup(k2) != Felt::spec_zero());
                    assert(k1.take(len2) == p2@);
                    assert(k2.take(len1) == p1@);
                    if len1 < len2 {
                        // the longer path would pin a bit that the shorter
                        // edge's binary child varies
                        assert(c1.wf((h - p1@.len()) as nat));
                        match *c1 {
                            Node::Leaf { .. } => {
                                assert(h - p1@.len() == 0);
                                assert(false);
                            },
                            Node::Binary { left: la, right: ra } => {
                                assert(la.wf(((h - p1@.len()) as nat - 1) as nat));
                                assert(ra.wf(((h - p1@.len()) as nat - 1) as nat));
                                lemma_some_key(*la, ((h - p1@.len()) as nat - 1) as nat);
                                lemma_some_key(*ra, ((h - p1@.len()) as nat - 1) as nat);
                                let sa = seq![false] + some_key(*la);
                                let sb = seq![true] + some_key(*ra);
                                assert(sa[0] == false && sb[0] == true);
                                assert(sa.skip(1) =~= some_key(*la));
                                assert(sb.skip(1) =~= some_key(*ra));
                                let ka = p1@ + sa;
                                let kb = p1@ + sb;
                                assert(ka.take(len1) =~= p1@);
                                assert(ka.skip(len1) =~= sa);
                                assert(kb.take(len1) =~= p1@);
                                assert(kb.skip(len1) =~= sb);
                                assert(c1.lookup(sa) == la.lookup(sa.skip(1)));
                                assert(c1.lookup(sb) == ra.lookup(sb.skip(1)));
                                assert(n1.lookup(ka) != Felt::spec_zero());
                                assert(n1.lookup(kb) != Felt::spec_zero());
                                assert(n2.lookup(ka) != Felt::spec_zero());
                                assert(n2.lookup(kb) != Felt::spec_zero());
                                assert(ka.take(len2) == p2@);
                                assert(kb.take(len2) == p2@);
                                assert(ka.take(len2)[len1] == ka[len1]);
                                assert(kb.take(len2)[len1] == kb[len1]);
                                assert(ka[len1] == sa[0] && kb[len1] == sb[0]);
                                assert(false);
                            },
                            _ => {
                                assert(false);
                            },
                        }
                    }
                    if len2 < len1 {
                        assert(c2.wf((h - p2@.len()) as nat));
                        match *c2 {
                            Node::Leaf { .. } => {
                                assert(h - p2@.len() == 0);
                                assert(false);
                            },
                            Node::Binary { left: la, right: ra } => {
                                assert(la.wf(((h - p2@.len()) as nat - 1) as nat));
                                assert(ra.wf(((h - p2@.len()) as nat - 1) as nat));
                                lemma_some_key(*la, ((h - p2@.len()) as nat - 1) as nat);
                                lemma_some_key(*ra, ((h - p2@.len()) as nat - 1) as nat);
                                let sa = seq![false] + some_key(*la);
                                let sb = seq![true] + some_key(*ra);
                                assert(sa[0] == false && sb[0] == true);
                                assert(sa.skip(1) =~= some_key(*la));
                                assert(sb.skip(1) =~= some_key(*ra));
                                let ka = p2@ + sa;
                                let kb = p2@ + sb;
                                assert(ka.take(len2) =~= p2@);
                                assert(ka.skip(len2) =~= sa);
                                assert(kb.take(len2) =~= p2@);
                                assert(kb.skip(len2) =~= sb);
                                assert(c2.lookup(sa) == la.lookup(sa.skip(1)));
                                assert(c2.lookup(sb) == ra.lookup(sb.skip(1)));
                                assert(n2.lookup(ka) != Felt::spec_zero());
                                assert(n2.lookup(kb) != Felt::spec_zero());
                                assert(n1.lookup(ka) != Felt::spec_zero());
                                assert(n1.lookup(kb) != Felt::spec_zero());
                                assert(ka.take(len1) == p1@);
                                assert(kb.take(len1) == p1@);
                                assert(ka.take(len1)[len2] == ka[len2]);
                                assert(kb.take(len1)[len2] == kb[len2]);
                                assert(ka[len2] == sa[0] && kb[len2] == sb[0]);
                                assert(false);
                            },
                            _ => {
                                assert(false);
                            },
                        }
                    }
                    assert(len1 == len2);
                    assert forall|t: int| 0 <= t < len1 implies p1@[t] == p2@[t] by {
                        assert(k1.take(len2)[t] == k1[t]);
                        assert(k1[t] == p1@[t]);
                        assert(p2@[t] == k1.take(len2)[t]);
                    }
                    assert(p1@ =~= p2@);
                    assert forall|k: Seq<bool>| k.len() == h - p1@.len() implies
                        #[trigger] c1.lookup(k) == c2.lookup(k) by {
                        let kk = p1@ + k;
                        assert(kk.len() == h);
                        assert(n1.lookup(kk) == n2.lookup(kk));
                        assert(kk.take(len1) =~= p1@);
                        assert(kk.skip(len1) =~= k);
                    }
                    lemma_contents_determine_hash(*c1, *c2, (h - p1@.len()) as nat);
                },
                _ => {},
            }
        },
        Node::Unresolved { .. } => {},
    }
}

impl MerkleTree {
    /// Root determinism for whole tries: two canonical tries with the same
    /// key-to-value contents report the same root commitment.
    pub proof fn lemma_contents_determine_commitment(t1: MerkleTree, t2: MerkleTree)
        requires
            t1.wf(),
            t2.wf(),
            forall|k: Seq<bool>| k.len() == 251 ==> #[trigger] t1.lookup(k) == t2.lookup(k),
        ensures
            t1.spec_root_hash() == t2.spec_root_hash(),
    {
        match t1.spec_root() {
            None => {
                match t2.spec_root() {
                    None => {},
                    Some(n2) => {
                        lemma_some_key(n2, 251);
                        assert(t1.lookup(some_key(n2)) == t2.lookup(some_key(n2)));
                        assert(false);
                    },
                }
            },
            Some(n1) => {
                match t2.spec_root() {
                    None => {
                        lemma_some_key(n1, 251);
                        assert(t1.lookup(some_key(n1)) == t2.lookup(some_key(n1)));
                        assert(false);
                    },
                    Some(n2) => {
                        assert forall|k: Seq<bool>| k.len() == 251 implies #[trigger] n1.lookup(
                            k) == n2.lookup(k) by {
                            assert(t1.lookup(k) == t2.lookup(k));
                        }
                        lemma_contents_determine_hash(n1, n2, 251);
                    },
                }
            },
        }
    }
}

/// There is a node of the trie exactly at the end of bit path `p`.
pub open spec fn has_node_at(n: Node, p: Seq<bool>) -> bool
    decreases n,
{
    if p.len() == 0 {
        !(n is Unresolved)
    } else {
        match n {
            Node::Binary { left, right } => {
                if p[0] {
                    has_node_at(*right, p.skip(1))
                } else {
                    has_node_at(*left, p.skip(1))
                }
            },
            Node::Edge { path, child } => path@.len() <= p.len() && p.take(path@.len() as int)
                == path@ && has_node_at(*child, p.skip(path@.len() as int)),
            _ => false,
        }
    }
}

/// `d` is the shallow description of the node at path `p`: the node itself
/// with its children replaced by their hashes.
pub open spec fn node_desc_at(n: Node, p: Seq<bool>, d: Node) -> bool
    decreases n,
{
    if p.len() == 0 {
        match n {
            Node::Leaf { .. } => d == n,
            Node::Binary { left, right } => {
                match d {
                    Node::Binary { left: dl, right: dr } => *dl == (Node::Unresolved {
                        hash: left.nh(),
                    }) && *dr == (Node::Unresolved { hash: right.nh() }),
                    _ => false,
                }
            },
            Node::Edge { path, child } => {
                match d {
                    Node::Edge { path: dp, child: dc } => dp@ == path@ && *dc == (
                    Node::Unresolved { hash: child.nh() }),
                    _ => false,
                }
            },
            Node::Unresolved { .. } => false,
        }
    } else {
        match n {
            Node::Binary { left, right } => {
                if p[0] {
                    node_desc_at(*right, p.skip(1), d)
                } else {
                    node_desc_at(*left, p.skip(1), d)
                }
            },
            Node::Edge { path, child } => path@.len() <= p.len() && p.take(path@.len() as int)
                == path@ && node_desc_at(*child, p.skip(path@.len() as int), d),
            _ => false,
        }
    }
}

impl MerkleTree {
    /// A step of a caller-driven walk: the node at the end of `prefix`, with
    /// its children as unresolved hashes. A visitor starts at the empty
    /// prefix and descends only where it chooses — one more bit below a
    /// binary node, the edge's whole path below an edge — skipping subtrees
    /// or stopping at will.
    pub fn node_at(&self, prefix: &Vec<bool>) -> (r: Option<Node>)
        requires
            self.wf(),
            prefix@.len() <= 251,
        ensures
            self.spec_root() is None ==> r is None,
            self.spec_root() matches Some(n) ==> (r is Some <==> has_node_at(n, prefix@)),
            self.spec_root() matches Some(n) ==> (r matches Some(d) ==> node_desc_at(n,
                prefix@, d)),
    {
        match &self.root {
            None => None,
            Some(n) => {
                proof {
                    assert(prefix@.skip(0) =~= prefix@);
                }
                node_at_rec(n, prefix, 0, Ghost(251nat))
            },
        }
    }
}

/// Walks the remaining prefix bits down a subtree of height `251 - ?`.
#[verifier::loop_isolation(false)]
fn node_at_rec(n: &Node, prefix: &Vec<bool>, i: usize, Ghost(h): Ghost<nat>) -> (r: Option<
    Node>)
    requires
        i <= prefix@.len(),
        prefix@.len() <= 251,
        n.wf(h),
        h <= 251,
    ensures
        r is Some <==> has_node_at(*n, prefix@.skip(i as int)),
        r matches Some(d) ==> node_desc_at(*n, prefix@.skip(i as int), d),
    decreases *n,
{
    let at_end = i == prefix.len();
    match n {
        Node::Leaf { value } => {
            if at_end {
                Some(Node::Leaf { value: *value })
            } else {
                None
            }
        },
        Node::Binary { left, right } => {
            if at_end {
                let lh = left.compute_hash(Ghost((h - 1) as nat));
                let rh = right.compute_hash(Ghost((h - 1) as nat));
                Some(Node::Binary {
                    left: Box::new(Node::Unresolved { hash: lh }),
                    right: Box::new(Node::Unresolved { hash: rh }),
                })
            } else {
                proof {
                    assert(prefix@.skip(i as int)[0] == prefix@[i as int]);
                    assert(prefix@.skip(i as int).skip(1) =~= prefix@.skip(i + 1));
                }
                if prefix[i] {
                    node_at_rec(right, prefix, i + 1, Ghost((h - 1) as nat))
                } else {
                    node_at_rec(left, prefix, i + 1, Ghost((h - 1) as nat))
                }
            }
        },
        Node::Edge { path, child } => {
            if at_end {
                let ch = child.compute_hash(Ghost((h - path@.len()) as nat));
                let p = clone_bits(path);
                Some(Node::Edge { path: p, child: Box::new(Node::Unresolved { hash: ch }) })
            } else {
                if path.len() > prefix.len() - i {
                    proof {
                        assert(!has_node_at(*n, prefix@.skip(i as int)));
                    }
                    return None;
                }
                let mut t: usize = 0;
                while t < path.len()
                    invariant
                        t <= path@.len(),
                        i + path@.len() <= prefix@.len(),
                        forall|u: int| 0 <= u < t ==> path@[u] == prefix@[i + u],
                    decreases path@.len() - t,
                {
                    if path[t] != prefix[i + t] {
                        proof {
                            assert(prefix@.skip(i as int).take(path@.len() as int)[t as int]
                                == prefix@[i + t]);
                            assert(prefix@.skip(i as int).take(path@.len() as int) != path@);
                        }
                        return None;
                    }
                    t += 1;
                }
                proof {
                    assert(prefix@.skip(i as int).take(path@.len() as int) =~= path@);
                    assert(prefix@.skip(i as int).skip(path@.len() as int) =~= prefix@.skip(
                        i + path@.len()));
                }
                node_at_rec(child, prefix, i + path.len(), Ghost((h - path@.len()) as nat))
            }
        },
        Node::Unresolved { .. } => {
            proof {
                assert(false);
            }
            None
        },
    }
}

} // verus!
