//! The 256-bit value domain of the trie, and the structural hash over it.

use vstd::prelude::*;

verus! {

/// A 256-bit unsigned value held as four 64-bit limbs, least-significant
/// limb first. Keys, stored values and node hashes all use this type.
/// The all-zero value stands for an absent entry / an empty subtree.
#[derive(Clone, Copy, PartialEq, Eq, Structural, Debug)]
pub struct Felt {
    pub l0: u64,
    pub l1: u64,
    pub l2: u64,
    pub l3: u64,
}

impl View for Felt {
    type V = nat;

    /// The integer a `Felt` denotes.
    open spec fn view(&self) -> nat {
        self.l0 as nat
            + self.l1 as nat * 0x1_0000_0000_0000_0000nat
            + self.l2 as nat * 0x1_0000_0000_0000_0000_0000_0000_0000_0000nat
            + self.l3 as nat
                * 0x1_0000_0000_0000_0000_0000_0000_0000_0000_0000_0000_0000_0000nat
    }
}

impl Felt {
    pub open spec fn spec_zero() -> Felt {
        Felt { l0: 0, l1: 0, l2: 0, l3: 0 }
    }

    /// The all-zero value: the hash of an empty trie, and the value that
    /// marks a key as absent.
    pub fn zero() -> (r: Felt)
        ensures
            r == Felt::spec_zero(),
    {
        Felt { l0: 0, l1: 0, l2: 0, l3: 0 }
    }

    pub open spec fn spec_is_zero(self) -> bool {
        self == Felt::spec_zero()
    }

    pub fn is_zero(&self) -> (r: bool)
        ensures
            r == self.spec_is_zero(),
    {
        self.l0 == 0 && self.l1 == 0 && self.l2 == 0 && self.l3 == 0
    }
}

/// One 64-bit mixing step of the node hash: multiply the two inputs by odd
/// constants, fold the exclusive-or of the products to 64 bits.
pub open spec fn s_mix(x: u64, y: u64) -> u64 {
    let ax = ((x as u128) * 0x9E37_79B9_7F4A_7C15) as u128;
    let ay = ((y as u128) * 0xBF58_476D_1CE4_E5B9) as u128;
    let a = ax ^ ay;
    let hi = (a / 0x1_0000_0000_0000_0000) as u64;
    let lo = (a % 0x1_0000_0000_0000_0000) as u64;
    hi ^ lo
}

fn mix(x: u64, y: u64) -> (r: u64)
    ensures
        r == s_mix(x, y),
{
    proof {
        assert((x as u128) * 0x9E37_79B9_7F4A_7C15 <= 0xFFFF_FFFF_FFFF_FFFFu128 * 0x9E37_79B9_7F4A_7C15)
            by (nonlinear_arith);
        assert((y as u128) * 0xBF58_476D_1CE4_E5B9 <= 0xFFFF_FFFF_FFFF_FFFFu128 * 0xBF58_476D_1CE4_E5B9)
            by (nonlinear_arith);
    }
    let a: u128 = ((x as u128) * 0x9E37_79B9_7F4A_7C15) ^ ((y as u128) * 0xBF58_476D_1CE4_E5B9);
    let hi: u64 = (a / 0x1_0000_0000_0000_0000) as u64;
    let lo: u64 = (a % 0x1_0000_0000_0000_0000) as u64;
    hi ^ lo
}

/// The two-argument structural hash `H(a, b)` of the trie: limbwise mixing
/// with cross-limb diffusion. The top limb is masked so that the result is
/// below 2^251, the low limb is masked to 63 bits so that a path length can
/// be added to it without carry, and one bit of the second limb is forced so
/// that no hash is the zero value, which marks the empty trie.
///
/// This mixing is deterministic but not collision-resistant: the root is a
/// sound commitment to the trie's contents only up to hash collisions, which
/// the commit path and the store detect and refuse as `StorageCorruption`
/// when they meet one. A deployment that needs a cryptographically binding
/// commitment must put a collision-resistant field hash here.
pub open spec fn s_hash(a: Felt, b: Felt) -> Felt {
    let t0 = s_mix(a.l0, b.l0);
    let t1 = s_mix(a.l1, b.l1);
    let t2 = s_mix(a.l2, b.l2);
    let t3 = s_mix(a.l3, b.l3);
    Felt {
        l0: s_mix(t0, t3) & 0x7FFF_FFFF_FFFF_FFFF,
        l1: s_mix(t1, t0) | 1,
        l2: s_mix(t2, t1),
        l3: s_mix(t3, t2) & 0x07FF_FFFF_FFFF_FFFF,
    }
}

/// The masks in `s_hash` bound the low and high limb of every hash, and the
/// forced bit keeps the second limb odd: no hash is the zero value.
pub proof fn lemma_hash_limb_bounds(a: Felt, b: Felt)
    ensures
        s_hash(a, b).l0 < 0x8000_0000_0000_0000,
        s_hash(a, b).l3 < 0x0800_0000_0000_0000,
        s_hash(a, b).l1 != 0,
{
    let m0 = s_mix(s_mix(a.l0, b.l0), s_mix(a.l3, b.l3));
    let m1 = s_mix(s_mix(a.l1, b.l1), s_mix(a.l0, b.l0));
    let m3 = s_mix(s_mix(a.l3, b.l3), s_mix(a.l2, b.l2));
    assert((m0 & 0x7FFF_FFFF_FFFF_FFFF) < 0x8000_0000_0000_0000) by (bit_vector);
    assert((m1 | 1) != 0) by (bit_vector);
    assert((m3 & 0x07FF_FFFF_FFFF_FFFF) < 0x0800_0000_0000_0000) by (bit_vector);
}

/// Computes `s_hash`; the executable form of the structural hash.
pub fn hash_felts(a: Felt, b: Felt) -> (r: Felt)
    ensures
        r == s_hash(a, b),
        r.l0 < 0x8000_0000_0000_0000,
        r.l3 < 0x0800_0000_0000_0000,
{
    proof {
        lemma_hash_limb_bounds(a, b);
    }
    let t0 = mix(a.l0, b.l0);
    let t1 = mix(a.l1, b.l1);
    let t2 = mix(a.l2, b.l2);
    let t3 = mix(a.l3, b.l3);
    Felt {
        l0: mix(t0, t3) & 0x7FFF_FFFF_FFFF_FFFF,
        l1: mix(t1, t0) | 1,
        l2: mix(t2, t1),
        l3: mix(t3, t2) & 0x07FF_FFFF_FFFF_FFFF,
    }
}

/// Doubles a value and adds one bit, limb by limb with explicit carries.
/// Folding a bit-path through this, most-significant bit first, yields the
/// path's value as a field element.
pub open spec fn s_felt_double_add(f: Felt, b: bool) -> Felt {
    let carry0 = f.l0 / 0x8000_0000_0000_0000;
    let carry1 = f.l1 / 0x8000_0000_0000_0000;
    let carry2 = f.l2 / 0x8000_0000_0000_0000;
    Felt {
        l0: ((f.l0 % 0x8000_0000_0000_0000) * 2 + if b { 1u64 } else { 0u64 }) as u64,
        l1: ((f.l1 % 0x8000_0000_0000_0000) * 2 + carry0) as u64,
        l2: ((f.l2 % 0x8000_0000_0000_0000) * 2 + carry1) as u64,
        l3: ((f.l3 % 0x8000_0000_0000_0000) * 2 + carry2) as u64,
    }
}

/// The value of a bit-path, most-significant bit first, as a `Felt`.
pub open spec fn s_path_felt(p: Seq<bool>) -> Felt
    decreases p.len(),
{
    if p.len() == 0 {
        Felt::spec_zero()
    } else {
        s_felt_double_add(s_path_felt(p.drop_last()), p.last())
    }
}

/// Computes `s_path_felt` over the bits of `p`.
pub fn path_to_felt(p: &Vec<bool>) -> (r: Felt)
    ensures
        r == s_path_felt(p@),
{
    let mut acc = Felt::zero();
    let mut i: usize = 0;
    while i < p.len()
        invariant
            i <= p.len(),
            acc == s_path_felt(p@.take(i as int)),
        decreases p.len() - i,
    {
        proof {
            assert(p@.take(i + 1).drop_last() =~= p@.take(i as int));
            assert(p@.take(i + 1).last() == p@[i as int]);
        }
        let c0: u64 = acc.l0 / 0x8000_0000_0000_0000;
        let c1: u64 = acc.l1 / 0x8000_0000_0000_0000;
        let c2: u64 = acc.l2 / 0x8000_0000_0000_0000;
        acc = Felt {
            l0: (acc.l0 % 0x8000_0000_0000_0000) * 2 + if p[i] { 1u64 } else { 0u64 },
            l1: (acc.l1 % 0x8000_0000_0000_0000) * 2 + c0,
            l2: (acc.l2 % 0x8000_0000_0000_0000) * 2 + c1,
            l3: (acc.l3 % 0x8000_0000_0000_0000) * 2 + c2,
        };
        i += 1;
    }
    proof {
        assert(p@.take(p@.len() as int) =~= p@);
    }
    acc
}

/// The hash of an Edge node: the structural hash of the child's hash and the
/// path's value, with the path length added into the low limb. The add never
/// carries because `s_hash` leaves the top bit of the low limb clear.
pub open spec fn s_edge_hash(child: Felt, path: Seq<bool>) -> Felt {
    let h = s_hash(child, s_path_felt(path));
    Felt { l0: (h.l0 + path.len()) as u64, l1: h.l1, l2: h.l2, l3: h.l3 }
}

/// Computes `s_edge_hash`.
pub fn hash_edge(child: Felt, path: &Vec<bool>) -> (r: Felt)
    requires
        path@.len() <= 251,
    ensures
        r == s_edge_hash(child, path@),
{
    let pf = path_to_felt(path);
    let h = hash_felts(child, pf);
    Felt { l0: h.l0 + (path.len() as u64), l1: h.l1, l2: h.l2, l3: h.l3 }
}

} // verus!
