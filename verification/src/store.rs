//! The content-addressed node store: an append-only mapping from node hash
//! to serialized node, idempotent on identical bytes.

use vstd::prelude::*;

use crate::errors::TrieError;
use crate::felt::Felt;

verus! {

/// The first entry of `s` whose hash is `h`, if any.
pub open spec fn seq_get(s: Seq<(Felt, Vec<u64>)>, h: Felt) -> Option<Seq<u64>>
    decreases s.len(),
{
    if s.len() == 0 {
        None
    } else if s[0].0 == h {
        Some(s[0].1@)
    } else {
        seq_get(s.skip(1), h)
    }
}

/// Appending an entry answers for its hash only where nothing answered yet.
pub proof fn lemma_seq_get_push(s: Seq<(Felt, Vec<u64>)>, e: (Felt, Vec<u64>), x: Felt)
    ensures
        seq_get(s.push(e), x) == (if seq_get(s, x) is Some {
            seq_get(s, x)
        } else if x == e.0 {
            Some(e.1@)
        } else {
            None::<Seq<u64>>
        }),
    decreases s.len(),
{
    if s.len() == 0 {
        assert(s.push(e)[0] == e);
        assert(s.push(e).skip(1) =~= Seq::<(Felt, Vec<u64>)>::empty());
        assert(seq_get(Seq::<(Felt, Vec<u64>)>::empty(), x) is None);
        assert(seq_get(s.push(e).skip(1), x) is None);
    } else {
        assert(s.push(e)[0] == s[0]);
        assert(s.push(e).skip(1) =~= s.skip(1).push(e));
        lemma_seq_get_push(s.skip(1), e, x);
    }
}

/// Nothing in `s` answers for `h`: no entry carries that hash at all.
proof fn lemma_seq_get_none(s: Seq<(Felt, Vec<u64>)>, h: Felt)
    requires
        seq_get(s, h) is None,
    ensures
        forall|u: int| 0 <= u < s.len() ==> (#[trigger] s[u]).0 != h,
    decreases s.len(),
{
    if s.len() > 0 {
        lemma_seq_get_none(s.skip(1), h);
        assert forall|u: int| 0 <= u < s.len() implies (#[trigger] s[u]).0 != h by {
            if u > 0 {
                assert(s.skip(1)[u - 1] == s[u]);
            }
        }
    }
}

/// With distinct hashes, the entry at `i` is exactly what the store answers
/// for its hash.
proof fn lemma_seq_get_exact(s: Seq<(Felt, Vec<u64>)>, i: int)
    requires
        0 <= i < s.len(),
        forall|u: int, v: int| 0 <= u < v < s.len() ==> (#[trigger] s[u]).0 != (
        #[trigger] s[v]).0,
    ensures
        seq_get(s, s[i].0) == Some(s[i].1@),
    decreases s.len(),
{
    if i == 0 {
    } else {
        assert(s[0].0 != s[i].0);
        assert forall|u: int, v: int| 0 <= u < v < s.skip(1).len() implies (
        #[trigger] s.skip(1)[u]).0 != (#[trigger] s.skip(1)[v]).0 by {
            assert(s.skip(1)[u] == s[u + 1] && s.skip(1)[v] == s[v + 1]);
        }
        assert(s.skip(1)[i - 1] == s[i]);
        lemma_seq_get_exact(s.skip(1), i - 1);
    }
}

/// A persistent mapping from node hash to serialized node. Writes of an
/// identical pair are idempotent; a write that would overwrite different
/// bytes is a corruption and is refused.
pub struct NodeStore {
    entries: Vec<(Felt, Vec<u64>)>,
}

impl View for NodeStore {
    type V = Map<Felt, Seq<u64>>;

    closed spec fn view(&self) -> Map<Felt, Seq<u64>> {
        Map::new(
            |h: Felt| seq_get(self.entries@, h) is Some,
            |h: Felt| seq_get(self.entries@, h)->Some_0,
        )
    }
}

impl NodeStore {
    /// Well-formed: no two rows carry the same hash. `new` establishes this
    /// and every method preserves it.
    pub closed spec fn wf(self) -> bool {
        forall|u: int, v: int| 0 <= u < v < self.entries@.len() ==> (
        #[trigger] self.entries@[u]).0 != (#[trigger] self.entries@[v]).0
    }

    /// The rows of the store, in insertion order.
    pub closed spec fn spec_entries(&self) -> Seq<(Felt, Seq<u64>)> {
        self.entries@.map_values(|e: (Felt, Vec<u64>)| (e.0, e.1@))
    }

    /// A store with no entries.
    pub fn new() -> (r: NodeStore)
        ensures
            r@ == Map::<Felt, Seq<u64>>::empty(),
            r.wf(),
    {
        let r = NodeStore { entries: Vec::new() };
        proof {
            assert(r@ =~= Map::<Felt, Seq<u64>>::empty());
        }
        r
    }

    /// Fetches the serialized node stored under `h`, if any.
    pub fn get(&self, h: &Felt) -> (r: Option<&Vec<u64>>)
        ensures
            match r {
                Some(v) => self@.contains_key(*h) && v@ == self@[*h],
                None => !self@.contains_key(*h),
            },
    {
        proof {
            assert(self.entries@.skip(0) =~= self.entries@);
        }
        let mut t: usize = 0;
        while t < self.entries.len()
            invariant
                t <= self.entries@.len(),
                seq_get(self.entries@, *h) == seq_get(self.entries@.skip(t as int), *h),
            decreases self.entries@.len() - t,
        {
            let e = &self.entries[t];
            if e.0 == *h {
                proof {
                    assert(self.entries@.skip(t as int)[0] == self.entries@[t as int]);
                }
                return Some(&e.1);
            }
            proof {
                assert(self.entries@.skip(t as int)[0] == self.entries@[t as int]);
                assert(self.entries@.skip(t as int).skip(1) =~= self.entries@.skip(t + 1));
            }
            t += 1;
        }
        proof {
            assert(self.entries@.skip(t as int).len() == 0);
        }
        None
    }

    /// Inserts a serialized node under its hash. Re-inserting the same bytes
    /// is a no-op; different bytes under one hash are refused as corruption.
    pub fn insert(&mut self, h: Felt, bytes: Vec<u64>) -> (r: Result<(), TrieError>)
        requires
            old(self).wf(),
        ensures
            final(self).wf(),
            r is Ok ==> final(self)@ == old(self)@.insert(h, bytes@),
            r is Err ==> *final(self) == *old(self) && old(self)@.contains_key(h) && old(self)@[h]
                != bytes@ && r == Err::<(), TrieError>(TrieError::StorageCorruption),
            (!old(self)@.contains_key(h) || old(self)@[h] == bytes@) ==> r is Ok,
            r is Ok && old(self)@.contains_key(h) ==> old(self)@[h] == bytes@,
    {
        let ghost bytes0 = bytes@;
        match self.get(&h) {
            Some(stored) => {
                if words_eq(stored, &bytes) {
                    proof {
                        assert(self@.insert(h, bytes0) =~= self@);
                    }
                    Ok(())
                } else {
                    Err(TrieError::StorageCorruption)
                }
            },
            None => {
                let ghost entries0 = self.entries@;
                self.entries.push((h, bytes));
                proof {
                    let ghost e = self.entries@.last();
                    assert(self.entries@ =~= entries0.push(e));
                    assert(e.0 == h && e.1@ == bytes0);
                    assert forall|x: Felt| true implies seq_get(#[trigger] self.entries@, x)
                        == (if x == h {
                        Some(bytes0)
                    } else {
                        seq_get(entries0, x)
                    }) by {
                        lemma_seq_get_push(entries0, e, x);
                    }
                    assert(self@ =~= old(self)@.insert(h, bytes0));
                    lemma_seq_get_none(entries0, h);
                    assert forall|u: int, v: int| 0 <= u < v < self.entries@.len() implies (
                    #[trigger] self.entries@[u]).0 != (#[trigger] self.entries@[v]).0 by {
                        if v < entries0.len() {
                            assert(self.entries@[u] == entries0[u]
                                && self.entries@[v] == entries0[v]);
                        } else {
                            assert(self.entries@[u] == entries0[u]
                                && self.entries@[v].0 == h);
                        }
                    }
                }
                Ok(())
            },
        }
    }
}

/// Word-for-word equality of two serialized nodes.
fn words_eq(a: &Vec<u64>, b: &Vec<u64>) -> (r: bool)
    ensures
        r == (a@ == b@),
{
    if a.len() != b.len() {
        proof {
            assert(a@ != b@);
        }
        return false;
    }
    let mut t: usize = 0;
    while t < a.len()
        invariant
            a@.len() == b@.len(),
            t <= a@.len(),
            forall|u: int| 0 <= u < t ==> a@[u] == b@[u],
        decreases a@.len() - t,
    {
        if a[t] != b[t] {
            proof {
                assert(a@[t as int] != b@[t as int]);
            }
            return false;
        }
        t += 1;
    }
    proof {
        assert(a@ =~= b@);
    }
    true
}

impl NodeStore {
    /// How many rows the store holds.
    pub fn entry_count(&self) -> (r: usize)
        ensures
            r == self.spec_entries().len(),
    {
        self.entries.len()
    }

    /// One row, for persisting the store elsewhere: exactly the i-th entry,
    /// whose bytes are what the store maps its hash to.
    pub fn entry_at(&self, i: usize) -> (r: &(Felt, Vec<u64>))
        requires
            self.wf(),
            i < self.spec_entries().len(),
        ensures
            (r.0, r.1@) == self.spec_entries()[i as int],
            self@.contains_key(r.0) && self@[r.0] == r.1@,
    {
        proof {
            lemma_seq_get_exact(self.entries@, i as int);
        }
        &self.entries[i]
    }
}

} // verus!
