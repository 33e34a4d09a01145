//! Arbitrary-width basis indices.
//!
//! A basis index encodes one classical assignment of the qubits: bit `i` is
//! the value of the qubit at internal location `i`. Indices are stored as
//! little-endian 64-bit limbs; every key of one sparse state carries the same
//! number of limbs, so keys compare equal exactly when their limb sequences
//! do.

use vstd::prelude::*;

verus! {

/// An arbitrary-width unsigned bit vector, the key type of the sparse state.
pub struct BasisIndex {
    limbs: Vec<u64>,
}

impl View for BasisIndex {
    type V = Seq<u64>;

    closed spec fn view(&self) -> Seq<u64> {
        self.limbs@
    }
}

/// The value of bit `j` of a limb sequence; positions outside the stored
/// width read as zero.
pub open spec fn bit_spec(k: Seq<u64>, j: int) -> bool {
    0 <= j < 64 * k.len() && (k[j / 64] >> ((j % 64) as u64)) & 1u64 == 1u64
}

/// One limb with bit `sh` forced to `b`.
pub open spec fn limb_set(l: u64, sh: u64, b: bool) -> u64 {
    if b {
        l | (1u64 << sh)
    } else {
        l & !(1u64 << sh)
    }
}

/// The limb sequence with bit `j` forced to `b`.
pub open spec fn set_spec(k: Seq<u64>, j: int, b: bool) -> Seq<u64> {
    k.update(j / 64, limb_set(k[j / 64], (j % 64) as u64, b))
}

/// The limb sequence with bit `j` toggled.
pub open spec fn flip_spec(k: Seq<u64>, j: int) -> Seq<u64> {
    set_spec(k, j, !bit_spec(k, j))
}

/// The limb sequence with the bits at `a` and `b` exchanged: untouched when
/// they agree, both toggled when they differ.
pub open spec fn swap_bits_spec(k: Seq<u64>, a: int, b: int) -> Seq<u64> {
    if bit_spec(k, a) == bit_spec(k, b) {
        k
    } else {
        flip_spec(flip_spec(k, a), b)
    }
}

/// Whether every control location reads as one in the key.
pub open spec fn ctrls_sat(k: Seq<u64>, locs: Seq<usize>) -> bool {
    forall|i: int| 0 <= i < locs.len() ==> bit_spec(k, #[trigger] locs[i] as int)
}

/// The exclusive-or of the key's bits at the given locations.
pub open spec fn parity_spec(k: Seq<u64>, locs: Seq<usize>) -> bool
    decreases locs.len(),
{
    if locs.len() == 0 {
        false
    } else {
        parity_spec(k, locs.drop_last()) != bit_spec(k, locs.last() as int)
    }
}

/// Total order on equal-width keys: the numeric order of the values they
/// encode, compared limb by limb from the most significant end.
pub open spec fn key_le(a: Seq<u64>, b: Seq<u64>) -> bool
    decreases a.len(),
{
    if a.len() == 0 {
        true
    } else if a.last() == b.last() {
        key_le(a.drop_last(), b.drop_last())
    } else {
        a.last() < b.last()
    }
}

/// Bounds for the limb and in-limb position of a bit index.
pub proof fn lemma_div64_bound(j: int, w: int)
    requires
        0 <= j < 64 * w,
    ensures
        0 <= j / 64 < w,
        0 <= j % 64 < 64,
        j == 64 * (j / 64) + j % 64,
{
    vstd::arithmetic::div_mod::lemma_fundamental_div_mod(j, 64);
    vstd::arithmetic::div_mod::lemma_mod_bound(j, 64);
}

/// Reading a limb after forcing one of its bits.
proof fn lemma_limb_set_get(l: u64, sh: u64, t: u64, b: bool)
    requires
        sh < 64,
        t < 64,
    ensures
        (((limb_set(l, sh, b) >> t) & 1u64) == 1u64) == (if t == sh {
            b
        } else {
            (l >> t) & 1u64 == 1u64
        }),
{
    assert((((if b {
        l | (1u64 << sh)
    } else {
        l & !(1u64 << sh)
    }) >> t) & 1u64 == 1u64) == (if t == sh {
        b
    } else {
        (l >> t) & 1u64 == 1u64
    })) by (bit_vector)
        requires
            sh < 64,
            t < 64,
    ;
}

/// Forcing a limb bit to the value it already has leaves the limb unchanged.
proof fn lemma_limb_set_same(l: u64, sh: u64)
    requires
        sh < 64,
    ensures
        limb_set(l, sh, (l >> sh) & 1u64 == 1u64) == l,
{
    assert((if (l >> sh) & 1u64 == 1u64 {
        l | (1u64 << sh)
    } else {
        l & !(1u64 << sh)
    }) == l) by (bit_vector)
        requires
            sh < 64,
    ;
}

/// Forcing the same limb bit twice keeps only the second value.
proof fn lemma_limb_set_set(l: u64, sh: u64, b1: bool, b2: bool)
    requires
        sh < 64,
    ensures
        limb_set(limb_set(l, sh, b1), sh, b2) == limb_set(l, sh, b2),
{
    assert((if b2 {
        (if b1 {
            l | (1u64 << sh)
        } else {
            l & !(1u64 << sh)
        }) | (1u64 << sh)
    } else {
        (if b1 {
            l | (1u64 << sh)
        } else {
            l & !(1u64 << sh)
        }) & !(1u64 << sh)
    }) == (if b2 {
        l | (1u64 << sh)
    } else {
        l & !(1u64 << sh)
    })) by (bit_vector)
        requires
            sh < 64,
    ;
}

/// Forcing two distinct bits of one limb commutes.
proof fn lemma_limb_set_comm(l: u64, sh1: u64, b1: bool, sh2: u64, b2: bool)
    requires
        sh1 < 64,
        sh2 < 64,
        sh1 != sh2,
    ensures
        limb_set(limb_set(l, sh1, b1), sh2, b2) == limb_set(limb_set(l, sh2, b2), sh1, b1),
{
    let l1 = limb_set(l, sh1, b1);
    let l2 = limb_set(l, sh2, b2);
    assert((if b2 {
        l1 | (1u64 << sh2)
    } else {
        l1 & !(1u64 << sh2)
    }) == (if b1 {
        l2 | (1u64 << sh1)
    } else {
        l2 & !(1u64 << sh1)
    })) by (bit_vector)
        requires
            sh1 < 64,
            sh2 < 64,
            sh1 != sh2,
            l1 == (if b1 {
                l | (1u64 << sh1)
            } else {
                l & !(1u64 << sh1)
            }),
            l2 == (if b2 {
                l | (1u64 << sh2)
            } else {
                l & !(1u64 << sh2)
            }),
    ;
}

/// Every bit of a zero limb reads as zero.
proof fn lemma_zero_limb_bit(t: u64)
    ensures
        (0u64 >> t) & 1u64 != 1u64,
{
    assert((0u64 >> t) & 1u64 != 1u64) by (bit_vector);
}

/// How forcing bit `j` changes every readable bit of a key.
pub proof fn lemma_set_spec_bits(k: Seq<u64>, j: int, b: bool)
    requires
        0 <= j < 64 * k.len(),
    ensures
        set_spec(k, j, b).len() == k.len(),
        forall|j2: int| #[trigger] bit_spec(set_spec(k, j, b), j2) == (if j2 == j {
            b
        } else {
            bit_spec(k, j2)
        }),
{
    lemma_div64_bound(j, k.len() as int);
    let s = set_spec(k, j, b);
    assert forall|j2: int| #[trigger] bit_spec(s, j2) == (if j2 == j {
        b
    } else {
        bit_spec(k, j2)
    }) by {
        if 0 <= j2 < 64 * k.len() {
            lemma_div64_bound(j2, k.len() as int);
            if j2 / 64 == j / 64 {
                lemma_limb_set_get(k[j / 64], (j % 64) as u64, (j2 % 64) as u64, b);
                if j2 % 64 == j % 64 {
                    assert(j2 == j);
                } else {
                    assert(j2 != j);
                }
            } else {
                assert(s[j2 / 64] == k[j2 / 64]);
                assert(j2 != j);
            }
        }
    }
}

/// Forcing a bit to the value it already has leaves the key unchanged.
pub proof fn lemma_set_spec_same(k: Seq<u64>, j: int)
    requires
        0 <= j < 64 * k.len(),
    ensures
        set_spec(k, j, bit_spec(k, j)) == k,
{
    lemma_div64_bound(j, k.len() as int);
    lemma_limb_set_same(k[j / 64], (j % 64) as u64);
    assert(set_spec(k, j, bit_spec(k, j)) =~= k);
}

/// Forcing the same bit twice keeps only the second value.
pub proof fn lemma_set_spec_set(k: Seq<u64>, j: int, b1: bool, b2: bool)
    requires
        0 <= j < 64 * k.len(),
    ensures
        set_spec(set_spec(k, j, b1), j, b2) == set_spec(k, j, b2),
{
    lemma_div64_bound(j, k.len() as int);
    lemma_limb_set_set(k[j / 64], (j % 64) as u64, b1, b2);
    assert(set_spec(set_spec(k, j, b1), j, b2) =~= set_spec(k, j, b2));
}

/// Forcing two distinct bits commutes.
pub proof fn lemma_set_spec_comm(k: Seq<u64>, j1: int, b1: bool, j2: int, b2: bool)
    requires
        0 <= j1 < 64 * k.len(),
        0 <= j2 < 64 * k.len(),
        j1 != j2,
    ensures
        set_spec(set_spec(k, j1, b1), j2, b2) == set_spec(set_spec(k, j2, b2), j1, b1),
{
    lemma_div64_bound(j1, k.len() as int);
    lemma_div64_bound(j2, k.len() as int);
    if j1 / 64 == j2 / 64 {
        assert(j1 % 64 != j2 % 64);
        lemma_limb_set_comm(k[j1 / 64], (j1 % 64) as u64, b1, (j2 % 64) as u64, b2);
        assert(set_spec(set_spec(k, j1, b1), j2, b2) =~= set_spec(set_spec(k, j2, b2), j1, b1));
    } else {
        assert(set_spec(set_spec(k, j1, b1), j2, b2) =~= set_spec(set_spec(k, j2, b2), j1, b1));
    }
}

/// How toggling bit `j` changes every readable bit of a key.
pub proof fn lemma_flip_spec_bits(k: Seq<u64>, j: int)
    requires
        0 <= j < 64 * k.len(),
    ensures
        flip_spec(k, j).len() == k.len(),
        forall|j2: int| #[trigger] bit_spec(flip_spec(k, j), j2) == (if j2 == j {
            !bit_spec(k, j)
        } else {
            bit_spec(k, j2)
        }),
{
    lemma_set_spec_bits(k, j, !bit_spec(k, j));
}

/// Toggling the same bit twice returns the original key.
pub proof fn lemma_flip_spec_involution(k: Seq<u64>, j: int)
    requires
        0 <= j < 64 * k.len(),
    ensures
        flip_spec(flip_spec(k, j), j) == k,
{
    lemma_flip_spec_bits(k, j);
    lemma_set_spec_set(k, j, !bit_spec(k, j), bit_spec(k, j));
    lemma_set_spec_same(k, j);
}

/// Toggling two distinct bits commutes.
pub proof fn lemma_flip_spec_comm(k: Seq<u64>, a: int, b: int)
    requires
        0 <= a < 64 * k.len(),
        0 <= b < 64 * k.len(),
        a != b,
    ensures
        flip_spec(flip_spec(k, a), b) == flip_spec(flip_spec(k, b), a),
{
    lemma_set_spec_bits(k, a, !bit_spec(k, a));
    lemma_set_spec_bits(k, b, !bit_spec(k, b));
    lemma_set_spec_comm(k, a, !bit_spec(k, a), b, !bit_spec(k, b));
}

/// How exchanging the bits at `a` and `b` changes every readable bit.
pub proof fn lemma_swap_bits_spec(k: Seq<u64>, a: int, b: int)
    requires
        0 <= a < 64 * k.len(),
        0 <= b < 64 * k.len(),
        a != b,
    ensures
        swap_bits_spec(k, a, b).len() == k.len(),
        forall|j2: int| #[trigger] bit_spec(swap_bits_spec(k, a, b), j2) == (if j2 == a {
            bit_spec(k, b)
        } else if j2 == b {
            bit_spec(k, a)
        } else {
            bit_spec(k, j2)
        }),
{
    if bit_spec(k, a) != bit_spec(k, b) {
        lemma_flip_spec_bits(k, a);
        lemma_flip_spec_bits(flip_spec(k, a), b);
    }
}

/// Exchanging the same pair of bits twice returns the original key.
pub proof fn lemma_swap_bits_involution(k: Seq<u64>, a: int, b: int)
    requires
        0 <= a < 64 * k.len(),
        0 <= b < 64 * k.len(),
        a != b,
    ensures
        swap_bits_spec(swap_bits_spec(k, a, b), a, b) == k,
{
    if bit_spec(k, a) == bit_spec(k, b) {
        assert(swap_bits_spec(k, a, b) == k);
    } else {
        let k1 = flip_spec(k, a);
        let k2 = flip_spec(k1, b);
        lemma_flip_spec_bits(k, a);
        lemma_flip_spec_bits(k1, b);
        assert(bit_spec(k2, a) != bit_spec(k2, b));
        // Undoing the swap toggles the same two bits again.
        lemma_flip_spec_comm(k2, a, b);
        lemma_flip_spec_involution(k1, b);
        lemma_flip_spec_involution(k, a);
        assert(flip_spec(flip_spec(k2, a), b) == flip_spec(flip_spec(k2, b), a));
        assert(flip_spec(k2, b) == k1);
    }
}

/// Widening a key by one zero limb changes no readable bit.
pub proof fn lemma_grown_bits(k: Seq<u64>)
    ensures
        forall|j: int| #[trigger] bit_spec(k.push(0u64), j) == bit_spec(k, j),
{
    let g = k.push(0u64);
    assert forall|j: int| #[trigger] bit_spec(g, j) == bit_spec(k, j) by {
        if 0 <= j < 64 * k.len() {
            lemma_div64_bound(j, k.len() as int);
            assert(g[j / 64] == k[j / 64]);
        } else if 0 <= j < 64 * g.len() {
            lemma_div64_bound(j, g.len() as int);
            assert(j / 64 == k.len()) by {
                vstd::arithmetic::div_mod::lemma_fundamental_div_mod(j, 64);
            }
            assert(g[j / 64] == 0u64);
            lemma_zero_limb_bit((j % 64) as u64);
        }
    }
}

/// Forcing a bit outside the control locations does not change whether the
/// controls are satisfied.
pub proof fn lemma_set_preserves_ctrls(k: Seq<u64>, t: int, b: bool, ctls: Seq<usize>)
    requires
        0 <= t < 64 * k.len(),
        forall|i: int| 0 <= i < ctls.len() ==> #[trigger] ctls[i] as int != t,
    ensures
        ctrls_sat(set_spec(k, t, b), ctls) == ctrls_sat(k, ctls),
{
    lemma_set_spec_bits(k, t, b);
    let s = set_spec(k, t, b);
    assert forall|i: int| 0 <= i < ctls.len() implies bit_spec(s, #[trigger] ctls[i] as int)
        == bit_spec(k, ctls[i] as int) by {
        assert(ctls[i] as int != t);
    }
}

/// Toggling the same bit of two equal-width keys is injective.
pub proof fn lemma_flip_injective(k1: Seq<u64>, k2: Seq<u64>, t: int)
    requires
        k1.len() == k2.len(),
        0 <= t < 64 * k1.len(),
        flip_spec(k1, t) == flip_spec(k2, t),
    ensures
        k1 == k2,
{
    lemma_flip_spec_bits(k1, t);
    lemma_flip_spec_bits(k2, t);
    assert(bit_spec(flip_spec(k1, t), t) == !bit_spec(k1, t));
    assert(bit_spec(flip_spec(k2, t), t) == !bit_spec(k2, t));
    assert(bit_spec(k1, t) == bit_spec(k2, t));
    lemma_set_spec_set(k1, t, !bit_spec(k1, t), bit_spec(k1, t));
    lemma_set_spec_set(k2, t, !bit_spec(k2, t), bit_spec(k2, t));
    lemma_set_spec_same(k1, t);
    lemma_set_spec_same(k2, t);
    assert(set_spec(flip_spec(k1, t), t, bit_spec(k1, t)) == k1);
    assert(set_spec(flip_spec(k2, t), t, bit_spec(k2, t)) == k2);
}

/// The parity of a single location is that location's bit.
pub proof fn lemma_parity_single(k: Seq<u64>, loc: usize)
    ensures
        parity_spec(k, seq![loc]) == bit_spec(k, loc as int),
{
    let s = seq![loc];
    assert(s.drop_last() =~= Seq::<usize>::empty());
    assert(parity_spec(k, s.drop_last()) == false);
}

impl BasisIndex {
    /// The all-zero index of the given width.
    pub fn zero(width: usize) -> (r: Self)
        ensures
            r@.len() == width,
            forall|i: int| 0 <= i < width ==> r@[i] == 0u64,
            forall|j: int| !bit_spec(r@, j),
    {
        let mut limbs: Vec<u64> = Vec::new();
        let mut i: usize = 0;
        while i < width
            invariant
                i <= width,
                limbs@.len() == i,
                forall|x: int| 0 <= x < i ==> limbs@[x] == 0u64,
            decreases width - i,
        {
            limbs.push(0u64);
            i += 1;
        }
        let r = BasisIndex { limbs };
        proof {
            assert forall|j: int| !bit_spec(r@, j) by {
                if 0 <= j < 64 * r@.len() {
                    lemma_div64_bound(j, r@.len() as int);
                    lemma_zero_limb_bit((j % 64) as u64);
                }
            }
        }
        r
    }

    /// The width of the index, in limbs.
    pub fn width(&self) -> (r: usize)
        ensures
            r == self@.len(),
    {
        self.limbs.len()
    }

    /// Reads bit `j`.
    pub fn get_bit(&self, j: usize) -> (b: bool)
        requires
            j < 64 * self@.len(),
        ensures
            b == bit_spec(self@, j as int),
    {
        proof {
            lemma_div64_bound(j as int, self@.len() as int);
        }
        let q = j / 64;
        let sh = (j % 64) as u64;
        (self.limbs[q] >> sh) & 1u64 == 1u64
    }

    /// A copy of the index with bit `j` forced to `b`.
    pub fn with_bit(&self, j: usize, b: bool) -> (r: Self)
        requires
            j < 64 * self@.len(),
        ensures
            r@ == set_spec(self@, j as int, b),
    {
        proof {
            lemma_div64_bound(j as int, self@.len() as int);
        }
        let q = j / 64;
        let sh = (j % 64) as u64;
        let l = self.limbs[q];
        let nl = if b {
            l | (1u64 << sh)
        } else {
            l & !(1u64 << sh)
        };
        let mut limbs = self.clone_limbs();
        limbs.set(q, nl);
        BasisIndex { limbs }
    }

    /// A copy of the index widened by one zero limb.
    pub fn grown(&self) -> (r: Self)
        ensures
            r@ == self@.push(0u64),
    {
        let mut limbs = self.clone_limbs();
        limbs.push(0u64);
        BasisIndex { limbs }
    }

    /// An exact copy.
    pub fn clone_key(&self) -> (r: Self)
        ensures
            r@ == self@,
    {
        BasisIndex { limbs: self.clone_limbs() }
    }

    /// The limbs of the index, least significant first.
    pub fn to_limbs(&self) -> (r: Vec<u64>)
        ensures
            r@ == self@,
    {
        self.clone_limbs()
    }

    fn clone_limbs(&self) -> (r: Vec<u64>)
        ensures
            r@ == self@,
    {
        let mut r: Vec<u64> = Vec::new();
        let mut i: usize = 0;
        while i < self.limbs.len()
            invariant
                i <= self.limbs@.len(),
                r@ == self.limbs@.take(i as int),
            decreases self.limbs@.len() - i,
        {
            r.push(self.limbs[i]);
            proof {
                assert(r@ =~= self.limbs@.take(i + 1));
            }
            i += 1;
        }
        proof {
            assert(self.limbs@.take(self.limbs@.len() as int) =~= self.limbs@);
        }
        r
    }

    /// Whether two indices encode the same key.
    pub fn eq_key(&self, other: &Self) -> (r: bool)
        ensures
            r == (self@ == other@),
    {
        if self.limbs.len() != other.limbs.len() {
            return false;
        }
        let mut i: usize = 0;
        while i < self.limbs.len()
            invariant
                i <= self.limbs@.len(),
                self.limbs@.len() == other.limbs@.len(),
                forall|x: int| 0 <= x < i ==> self.limbs@[x] == other.limbs@[x],
            decreases self.limbs@.len() - i,
        {
            if self.limbs[i] != other.limbs[i] {
                return false;
            }
            i += 1;
        }
        proof {
            assert(self@ =~= other@);
        }
        true
    }

    /// Whether every given location reads as one in this key.
    pub fn sat_all(&self, locs: &Vec<usize>) -> (r: bool)
        requires
            forall|i: int| 0 <= i < locs@.len() ==> (#[trigger] locs@[i]) < 64 * self@.len(),
        ensures
            r == ctrls_sat(self@, locs@),
    {
        let mut i: usize = 0;
        while i < locs.len()
            invariant
                i <= locs@.len(),
                forall|x: int| 0 <= x < locs@.len() ==> (#[trigger] locs@[x]) < 64 * self@.len(),
                forall|x: int| 0 <= x < i ==> bit_spec(self@, #[trigger] locs@[x] as int),
            decreases locs@.len() - i,
        {
            if !self.get_bit(locs[i]) {
                return false;
            }
            i += 1;
        }
        true
    }

    /// The exclusive-or of this key's bits at the given locations.
    pub fn parity_of(&self, locs: &Vec<usize>) -> (r: bool)
        requires
            forall|i: int| 0 <= i < locs@.len() ==> (#[trigger] locs@[i]) < 64 * self@.len(),
        ensures
            r == parity_spec(self@, locs@),
    {
        let mut acc = false;
        let mut i: usize = 0;
        while i < locs.len()
            invariant
                i <= locs@.len(),
                forall|x: int| 0 <= x < locs@.len() ==> (#[trigger] locs@[x]) < 64 * self@.len(),
                acc == parity_spec(self@, locs@.take(i as int)),
            decreases locs@.len() - i,
        {
            let b = self.get_bit(locs[i]);
            proof {
                let p = locs@.take(i + 1);
                assert(p.last() == locs@[i as int]);
                assert(p.drop_last() =~= locs@.take(i as int));
            }
            acc = acc != b;
            i += 1;
        }
        proof {
            assert(locs@.take(locs@.len() as int) =~= locs@);
        }
        acc
    }

    /// Whether this key precedes or equals the other in the numeric order.
    pub fn le_key(&self, other: &Self) -> (r: bool)
        requires
            self@.len() == other@.len(),
        ensures
            r == key_le(self@, other@),
    {
        let mut i: usize = self.limbs.len();
        proof {
            assert(self@.take(i as int) =~= self@);
            assert(other@.take(i as int) =~= other@);
        }
        while i > 0
            invariant
                i <= self.limbs@.len(),
                self.limbs@.len() == other.limbs@.len(),
                key_le(self@, other@) == key_le(self@.take(i as int), other@.take(i as int)),
            decreases i,
        {
            i -= 1;
            if self.limbs[i] != other.limbs[i] {
                proof {
                    let a = self@.take(i + 1);
                    let b = other@.take(i + 1);
                    assert(a.last() == self@[i as int]);
                    assert(b.last() == other@[i as int]);
                }
                return self.limbs[i] < other.limbs[i];
            }
            proof {
                let a = self@.take(i + 1);
                let b = other@.take(i + 1);
                assert(a.last() == b.last());
                assert(a.drop_last() =~= self@.take(i as int));
                assert(b.drop_last() =~= other@.take(i as int));
            }
        }
        proof {
            assert(self@.take(0) =~= Seq::<u64>::empty());
        }
        true
    }
}

/// The key order is total: of two equal-width keys, one precedes the other.
pub proof fn lemma_key_le_total(a: Seq<u64>, b: Seq<u64>)
    requires
        a.len() == b.len(),
    ensures
        key_le(a, b) || key_le(b, a),
    decreases a.len(),
{
    if a.len() > 0 {
        if a.last() == b.last() {
            lemma_key_le_total(a.drop_last(), b.drop_last());
        }
    }
}

/// The key order is reflexive.
pub proof fn lemma_key_le_refl(a: Seq<u64>)
    ensures
        key_le(a, a),
    decreases a.len(),
{
    if a.len() > 0 {
        lemma_key_le_refl(a.drop_last());
    }
}

/// The key order is transitive.
pub proof fn lemma_key_le_trans(a: Seq<u64>, b: Seq<u64>, c: Seq<u64>)
    requires
        a.len() == b.len(),
        b.len() == c.len(),
        key_le(a, b),
        key_le(b, c),
    ensures
        key_le(a, c),
    decreases a.len(),
{
    if a.len() > 0 {
        if a.last() == b.last() && b.last() == c.last() {
            lemma_key_le_trans(a.drop_last(), b.drop_last(), c.drop_last());
        }
    }
}

} // verus!
