//! The sparse-state quantum simulator.
//!
//! A simulator owns one sparse state: a duplicate-free list of
//! (basis index, amplitude) pairs, every key of the same limb width, with no
//! bit at or above the current qubit count set. Qubit identifiers are opaque
//! handles mapped to dense internal locations; `ids[loc]` is the identifier
//! of the qubit at location `loc`, so the location range is contiguous by
//! construction.

use vstd::prelude::*;
use num_complex::Complex64;
use rand::rngs::StdRng;
use crate::UsageError;
use crate::amp::{
    amp_add, amp_conj, amp_cos, amp_div, amp_exp, amp_from_u64, amp_i, amp_mul, amp_neg,
    amp_norm_sqr, amp_sin, amp_sqrt, cadd_of, cconj_of, ccos_of, cdiv_of, cexp_of, cmul_of,
    cneg_of, cnorm_sqr_of, csin_of, csqrt_of, imag_of, is_negligible, negligible_spec, re_lt,
    real_of, rng_from_entropy, rng_seeded, sample_unit,
};
use crate::index::{
    bit_spec, ctrls_sat, flip_spec, key_le, lemma_flip_injective, lemma_flip_spec_bits,
    lemma_grown_bits, lemma_key_le_refl, lemma_key_le_total, lemma_key_le_trans,
    lemma_parity_single, lemma_set_preserves_ctrls, lemma_set_spec_bits, lemma_set_spec_same,
    lemma_set_spec_set, lemma_swap_bits_involution, lemma_swap_bits_spec, parity_spec, set_spec,
    swap_bits_spec, BasisIndex,
};

verus! {

/// The simulator: sparse amplitude store, identifier table, key width and
/// the injectable random sampler used by measurement.
pub struct QuantumSim {
    pub(crate) state: Vec<(BasisIndex, Complex64)>,
    pub(crate) ids: Vec<usize>,
    pub(crate) width: usize,
    pub(crate) rng: StdRng,
}

/// No two entries share a key.
pub open spec fn keys_distinct(s: Seq<(Seq<u64>, Complex64)>) -> bool {
    forall|i: int, j: int| 0 <= i < j < s.len() ==> (#[trigger] s[i]).0 != (#[trigger] s[j]).0
}

/// Every key has exactly `w` limbs.
pub open spec fn keys_of_width(s: Seq<(Seq<u64>, Complex64)>, w: nat) -> bool {
    forall|i: int| 0 <= i < s.len() ==> (#[trigger] s[i]).0.len() == w
}

/// No key has a bit at or above position `nq` set.
pub open spec fn keys_within(s: Seq<(Seq<u64>, Complex64)>, nq: int) -> bool {
    forall|i: int, j: int|
        #![trigger bit_spec(s[i].0, j)]
        0 <= i < s.len() && nq <= j ==> !bit_spec(s[i].0, j)
}

impl QuantumSim {
    /// The sparse state, as a sequence of (key, amplitude) pairs.
    pub closed spec fn entries(self) -> Seq<(Seq<u64>, Complex64)> {
        self.state@.map_values(|e: (BasisIndex, Complex64)| (e.0@, e.1))
    }

    /// The identifier table: element `loc` is the identifier living at
    /// internal location `loc`.
    pub closed spec fn ids_seq(self) -> Seq<usize> {
        self.ids@
    }

    /// The number of limbs every key carries.
    pub closed spec fn key_width(self) -> nat {
        self.width as nat
    }

    /// The number of currently allocated qubits.
    pub open spec fn qubit_count(self) -> nat {
        self.ids_seq().len()
    }

    /// Whether `id` is a currently allocated identifier.
    pub open spec fn is_live(self, id: usize) -> bool {
        self.ids_seq().contains(id)
    }

    /// The internal location of a live identifier.
    pub closed spec fn loc_spec(self, id: usize) -> int {
        choose|l: int| 0 <= l < self.ids_seq().len() && self.ids_seq()[l] == id
    }

    /// Well-formedness: held by every simulator the library hands out and
    /// re-established after every mutating operation. In particular no
    /// stored key uses a bit position at or above the current qubit count.
    pub closed spec fn inv(self) -> bool {
        &&& 1 <= self.width
        &&& self.ids@.len() <= 64 * (self.width as int)
        &&& self.ids@.no_duplicates()
        &&& keys_of_width(self.entries(), self.key_width())
        &&& keys_distinct(self.entries())
        &&& keys_within(self.entries(), self.ids@.len() as int)
    }

    /// The invariant published for reasoning outside this module: the keys
    /// are duplicate-free and stay within the current qubit count, and the
    /// identifier table holds no identifier twice.
    pub proof fn lemma_inv_entries(self)
        requires
            self.inv(),
        ensures
            keys_distinct(self.entries()),
            keys_of_width(self.entries(), self.key_width()),
            keys_within(self.entries(), self.qubit_count() as int),
            self.qubit_count() <= 64 * self.key_width(),
            1 <= self.key_width(),
            self.ids_seq().no_duplicates(),
    {
    }

    /// The published characterization of a live identifier's location: it
    /// indexes the identifier table and reads the identifier back.
    pub proof fn lemma_loc_spec(self, id: usize)
        requires
            self.inv(),
            self.is_live(id),
        ensures
            0 <= self.loc_spec(id) < self.qubit_count(),
            self.ids_seq()[self.loc_spec(id)] == id,
    {
        let l = choose|l: int| 0 <= l < self.ids_seq().len() && self.ids_seq()[l] == id;
        self.lemma_loc_unique(id, l);
    }

    /// The published characterization of a resolved identifier list: element
    /// by element, it is `loc_spec` of the identifiers.
    pub proof fn lemma_locs_spec(self, list: Seq<usize>)
        ensures
            self.locs_spec(list).len() == list.len(),
            forall|i: int|
                0 <= i < list.len() ==> #[trigger] self.locs_spec(list)[i] == self.loc_spec(
                    list[i],
                ) as usize,
    {
    }

    /// A fresh simulator with no qubits, seeded from the operating system.
    /// Panics only if the operating system's entropy source fails; use
    /// `new_seeded` for a source that cannot.
    pub fn new() -> (r: Self)
        ensures
            r.inv(),
            r.qubit_count() == 0,
            r.entries().len() == 0,
    {
        QuantumSim { state: Vec::new(), ids: Vec::new(), width: 1, rng: rng_from_entropy() }
    }

    /// A fresh simulator with no qubits and a caller-chosen random seed, for
    /// reproducible runs.
    pub fn new_seeded(seed: u64) -> (r: Self)
        ensures
            r.inv(),
            r.qubit_count() == 0,
            r.entries().len() == 0,
    {
        QuantumSim { state: Vec::new(), ids: Vec::new(), width: 1, rng: rng_seeded(seed) }
    }

    /// The number of entries the sparse state currently stores.
    pub fn state_len(&self) -> (r: usize)
        ensures
            r == self.entries().len(),
    {
        self.state.len()
    }

    /// The number of currently allocated qubits.
    pub fn qubit_len(&self) -> (r: usize)
        ensures
            r == self.qubit_count(),
    {
        self.ids.len()
    }

    /// The stored amplitudes, in entry order.
    pub fn amplitudes(&self) -> (r: Vec<Complex64>)
        ensures
            r@.len() == self.entries().len(),
            forall|i: int| 0 <= i < r@.len() ==> r@[i] == self.entries()[i].1,
    {
        let mut r: Vec<Complex64> = Vec::new();
        let mut i: usize = 0;
        while i < self.state.len()
            invariant
                i <= self.state@.len(),
                r@.len() == i,
                forall|x: int| 0 <= x < i ==> r@[x] == self.entries()[x].1,
            decreases self.state@.len() - i,
        {
            r.push(self.state[i].1);
            i += 1;
        }
        r
    }

    /// The internal location of `id`, if it is live.
    pub(crate) fn loc_of(&self, id: usize) -> (r: Option<usize>)
        ensures
            match r {
                Option::Some(l) => l < self.ids_seq().len() && self.ids_seq()[l as int] == id,
                Option::None => !self.is_live(id),
            },
    {
        let mut i: usize = 0;
        while i < self.ids.len()
            invariant
                i <= self.ids@.len(),
                forall|x: int| 0 <= x < i ==> self.ids@[x] != id,
            decreases self.ids@.len() - i,
        {
            if self.ids[i] == id {
                return Option::Some(i);
            }
            i += 1;
        }
        Option::None
    }

    /// A live identifier's location in the table agrees with `loc_spec`.
    pub proof fn lemma_loc_unique(self, id: usize, l: int)
        requires
            self.ids_seq().no_duplicates(),
            0 <= l < self.ids_seq().len(),
            self.ids_seq()[l] == id,
        ensures
            self.loc_spec(id) == l,
            self.is_live(id),
    {
        assert(self.ids_seq()[l] == id);
        let lc = self.loc_spec(id);
        assert(0 <= lc < self.ids_seq().len() && self.ids_seq()[lc] == id);
    }

    /// Finds the smallest identifier that is not currently live.
    fn smallest_free(&self) -> (id: usize)
        requires
            self.ids@.no_duplicates(),
        ensures
            !self.is_live(id),
            forall|k: usize| k < id ==> self.is_live(k),
    {
        let n = self.ids.len();
        let mut taken: Vec<bool> = Vec::new();
        let mut i: usize = 0;
        while i < n
            invariant
                i <= n,
                taken@.len() == i,
                forall|x: int| 0 <= x < i ==> taken@[x] == false,
            decreases n - i,
        {
            taken.push(false);
            i += 1;
        }
        let mut idx: usize = 0;
        while idx < n
            invariant
                idx <= n,
                n == self.ids@.len(),
                taken@.len() == n,
                forall|v: int|
                    0 <= v < n ==> #[trigger] taken@[v] == exists|x: int|
                        0 <= x < idx && self.ids@[x] == v,
            decreases n - idx,
        {
            let id = self.ids[idx];
            if id < n {
                taken.set(id, true);
                proof {
                    assert(self.ids@[idx as int] == id);
                }
            }
            proof {
                assert forall|v: int| 0 <= v < n implies #[trigger] taken@[v] == exists|x: int|
                    0 <= x < idx + 1 && self.ids@[x] == v by {
                    if v == id as int {
                        assert(self.ids@[idx as int] == v);
                    } else {
                        assert(forall|x: int|
                            0 <= x < idx + 1 && self.ids@[x] == v ==> x < idx);
                    }
                }
            }
            idx += 1;
        }
        let mut j: usize = 0;
        while j < n
            invariant
                j <= n,
                n == self.ids@.len(),
                taken@.len() == n,
                forall|v: int|
                    0 <= v < n ==> #[trigger] taken@[v] == exists|x: int|
                        0 <= x < n && self.ids@[x] == v,
                forall|k: usize| k < j ==> self.is_live(k),
            decreases n - j,
        {
            if !taken[j] {
                proof {
                    assert(!exists|x: int| 0 <= x < n && self.ids@[x] == j as int);
                    assert forall|x: int| 0 <= x < self.ids@.len() implies self.ids@[x] != j by {
                        if self.ids@[x] == j {
                            assert(self.ids@[x] == j as int);
                        }
                    }
                }
                return j;
            }
            proof {
                let x = choose|x: int| 0 <= x < n && self.ids@[x] == j as int;
                assert(self.ids@[x] == j);
                assert(self.is_live(j));
            }
            j += 1;
        }
        proof {
            if self.is_live(n as usize) {
                assert forall|v: int| 0 <= v < n + 1 implies #[trigger] holds_value(
                    self.ids@,
                    v,
                ) by {
                    let k: usize = if v < n {
                        v as usize
                    } else {
                        n
                    };
                    assert(self.is_live(k));
                    let x = choose|x: int| 0 <= x < self.ids@.len() && self.ids@[x] == k;
                    assert(self.ids@[x] as int == v);
                }
                lemma_distinct_value_bound(self.ids@, (n + 1) as nat);
            }
        }
        n
    }

    /// Allocates a fresh qubit and returns its identifier: the smallest
    /// identifier that is not currently live, so gaps left by releases are
    /// filled first. The new qubit takes the next internal location; the
    /// first allocation seeds the store with the ground state, whose single
    /// entry has the all-zero key and amplitude one.
    pub fn allocate(&mut self) -> (id: usize)
        requires
            old(self).inv(),
        ensures
            final(self).inv(),
            !old(self).is_live(id),
            forall|k: usize| k < id ==> old(self).is_live(k),
            final(self).ids_seq() == old(self).ids_seq().push(id),
            final(self).qubit_count() == old(self).qubit_count() + 1,
            old(self).qubit_count() == 0 ==> (final(self).entries().len() == 1
                && final(self).entries()[0].1 == real_of(1) && (forall|j: int|
                !bit_spec(final(self).entries()[0].0, j))),
            old(self).qubit_count() > 0 ==> (final(self).entries().len()
                == old(self).entries().len() && (forall|i: int|
                0 <= i < old(self).entries().len() ==> (#[trigger] final(self).entries()[i]).1
                    == old(self).entries()[i].1) && (forall|i: int, j: int|
                #![trigger bit_spec(final(self).entries()[i].0, j)]
                0 <= i < old(self).entries().len() ==> bit_spec(final(self).entries()[i].0, j)
                    == bit_spec(old(self).entries()[i].0, j))),
    {
        let new_id = self.smallest_free();
        let n = self.ids.len();
        if n == 0 {
            self.width = 1;
            let mut st: Vec<(BasisIndex, Complex64)> = Vec::new();
            st.push((BasisIndex::zero(1), amp_from_u64(1)));
            self.state = st;
        } else if n / 64 == self.width {
            proof {
                vstd::arithmetic::div_mod::lemma_fundamental_div_mod(n as int, 64);
                vstd::arithmetic::div_mod::lemma_div_is_ordered(n as int, usize::MAX as int, 64);
            }
            let ghost orig = self.state@;
            let mut i: usize = 0;
            while i < self.state.len()
                invariant
                    self.ids@ == old(self).ids@,
                    self.width == old(self).width,
                    self.rng == old(self).rng,
                    self.state@.len() == orig.len(),
                    i <= orig.len(),
                    forall|x: int| i <= x < orig.len() ==> self.state@[x] == orig[x],
                    forall|x: int|
                        0 <= x < i ==> (#[trigger] self.state@[x]).0@ == orig[x].0@.push(0u64)
                            && self.state@[x].1 == orig[x].1,
                decreases orig.len() - i,
            {
                let nk = self.state[i].0.grown();
                let v = self.state[i].1;
                self.state.set(i, (nk, v));
                i += 1;
            }
            proof {
                let oe = old(self).entries();
                let ne = self.entries();
                assert forall|x: int| 0 <= x < oe.len() implies (#[trigger] ne[x]).0 == oe[x].0.push(
                    0u64,
                ) && ne[x].1 == oe[x].1 by {
                    assert(ne[x] == (self.state@[x].0@, self.state@[x].1));
                }
                assert forall|x: int, j: int|
                    #![trigger bit_spec(ne[x].0, j)]
                    0 <= x < oe.len() implies bit_spec(ne[x].0, j) == bit_spec(oe[x].0, j) by {
                    lemma_grown_bits(oe[x].0);
                }
                assert forall|x: int, y: int| 0 <= x < y < ne.len() implies (#[trigger] ne[x]).0
                    != (#[trigger] ne[y]).0 by {
                    if ne[x].0 == ne[y].0 {
                        assert(oe[x].0 =~= ne[x].0.drop_last());
                        assert(oe[y].0 =~= ne[y].0.drop_last());
                    }
                }
            }
            self.width = self.width + 1;
        } else {
            proof {
                if n as int == 64 * (self.width as int) {
                    vstd::arithmetic::div_mod::lemma_fundamental_div_mod_converse(
                        n as int,
                        64,
                        self.width as int,
                        0,
                    );
                }
            }
        }
        self.ids.push(new_id);
        proof {
            let oids = old(self).ids_seq();
            assert(self.ids@ =~= oids.push(new_id));
            assert forall|x: int, y: int|
                0 <= x < self.ids@.len() && 0 <= y < self.ids@.len() && x != y implies self.ids@[x]
                != self.ids@[y] by {
                if y == oids.len() {
                    assert(self.ids@[y] == new_id);
                    if self.ids@[x] == new_id {
                        assert(oids[x] == new_id);
                        assert(oids.contains(new_id));
                    }
                } else if x == oids.len() {
                    assert(self.ids@[x] == new_id);
                    if self.ids@[y] == new_id {
                        assert(oids[y] == new_id);
                        assert(oids.contains(new_id));
                    }
                }
            }
        }
        new_id
    }

    /// Exchanges the location assignments of two live identifiers without
    /// touching the amplitude store.
    pub fn swap_qubit_ids(&mut self, qubit1: usize, qubit2: usize) -> (r: Result<(), UsageError>)
        requires
            old(self).inv(),
        ensures
            final(self).inv(),
            final(self).qubit_count() == old(self).qubit_count(),
            final(self).entries() == old(self).entries(),
            final(self).key_width() == old(self).key_width(),
            forall|k: usize| final(self).is_live(k) == old(self).is_live(k),
            match r {
                Result::Ok(()) => old(self).is_live(qubit1) && old(self).is_live(qubit2)
                    && final(self).ids_seq() == old(self).ids_seq().update(
                    old(self).loc_spec(qubit1),
                    qubit2,
                ).update(old(self).loc_spec(qubit2), qubit1),
                Result::Err(e) => *final(self) == *old(self) && match e {
                    UsageError::UnknownId(u) => !old(self).is_live(u) && (u == qubit1 || u
                        == qubit2),
                    UsageError::DuplicateId(_) => false,
                },
            },
    {
        let l1 = match self.loc_of(qubit1) {
            Option::Some(l) => l,
            Option::None => {
                return Result::Err(UsageError::UnknownId(qubit1));
            },
        };
        let l2 = match self.loc_of(qubit2) {
            Option::Some(l) => l,
            Option::None => {
                return Result::Err(UsageError::UnknownId(qubit2));
            },
        };
        proof {
            self.lemma_loc_unique(qubit1, l1 as int);
            self.lemma_loc_unique(qubit2, l2 as int);
        }
        let ghost oids = self.ids@;
        self.ids.set(l1, qubit2);
        self.ids.set(l2, qubit1);
        proof {
            let nids = self.ids@;
            assert forall|x: int, y: int|
                0 <= x < nids.len() && 0 <= y < nids.len() && x != y implies nids[x] != nids[y] by {
                let ox: int = if x == l2 { l1 as int } else if x == l1 { l2 as int } else { x };
                let oy: int = if y == l2 { l1 as int } else if y == l1 { l2 as int } else { y };
                assert(nids[x] == oids[ox]);
                assert(nids[y] == oids[oy]);
            }
            assert forall|k: usize| self.is_live(k) == old(self).is_live(k) by {
                if old(self).is_live(k) {
                    let x = choose|x: int| 0 <= x < oids.len() && oids[x] == k;
                    let nx: int = if x == l1 { l2 as int } else if x == l2 { l1 as int } else { x };
                    assert(nids[nx] == k);
                }
                if self.is_live(k) {
                    let x = choose|x: int| 0 <= x < nids.len() && nids[x] == k;
                    let ox: int = if x == l2 { l1 as int } else if x == l1 { l2 as int } else { x };
                    assert(oids[ox] == k);
                }
            }
        }
        Result::Ok(())
    }
}

/// Whether some value appears at two distinct positions of the list.
pub open spec fn is_dup_of(s: Seq<usize>, v: usize) -> bool {
    exists|i: int, j: int| #![trigger s[i], s[j]] 0 <= i < j < s.len() && s[i] == v && s[j] == v
}

/// Whether the list is free of duplicates.
pub open spec fn no_dups(s: Seq<usize>) -> bool {
    forall|i: int, j: int| #![trigger s[i], s[j]] 0 <= i < j < s.len() ==> s[i] != s[j]
}

/// The per-entry effect of a bit-flip gate: an entry whose control bits are
/// all set gets the target bit toggled and keeps its amplitude; any other
/// entry passes through unchanged.
pub open spec fn flip_entry(
    e: (Seq<u64>, Complex64),
    ctls: Seq<usize>,
    t: usize,
) -> (Seq<u64>, Complex64) {
    if ctrls_sat(e.0, ctls) {
        (flip_spec(e.0, t as int), e.1)
    } else {
        e
    }
}

/// The whole-state effect of a bit-flip gate, entry by entry.
pub open spec fn flip_map(
    s: Seq<(Seq<u64>, Complex64)>,
    ctls: Seq<usize>,
    t: usize,
) -> Seq<(Seq<u64>, Complex64)> {
    s.map_values(|e: (Seq<u64>, Complex64)| flip_entry(e, ctls, t))
}

/// The exact output of a flip-with-phase gate, entry by entry: keys are
/// transformed as by a bit flip; entries failing the controls pass through
/// whole; a flipped entry's amplitude is multiplied by `c1` when the new
/// target bit is one and by `c0` when it is zero.
pub open spec fn flip_phase_shape(
    oe: Seq<(Seq<u64>, Complex64)>,
    ne: Seq<(Seq<u64>, Complex64)>,
    cl: Seq<usize>,
    tl: usize,
    c0: Complex64,
    c1: Complex64,
) -> bool {
    &&& ne.len() == oe.len()
    &&& forall|x: int| 0 <= x < oe.len() ==> (#[trigger] ne[x]).0 == flip_entry(oe[x], cl, tl).0
    &&& forall|x: int| 0 <= x < oe.len() && !ctrls_sat(oe[x].0, cl) ==> ne[x] == #[trigger] oe[x]
    &&& forall|x: int|
        0 <= x < oe.len() && ctrls_sat(oe[x].0, cl) ==> (#[trigger] ne[x]).1 == cmul_of(
            oe[x].1,
            if bit_spec(oe[x].0, tl as int) {
                c0
            } else {
                c1
            },
        )
}

/// The imaginary half-angle `i * theta / 2` that the Rz gate exponentiates,
/// over the named arithmetic results.
pub open spec fn rz_half_angle(theta: Complex64) -> Complex64 {
    cmul_of(imag_of(1), cdiv_of(theta, real_of(2)))
}

/// The exact output of a diagonal gate, entry by entry: keys never change;
/// an entry failing the controls passes through whole; a controlled entry
/// with the target bit set has its amplitude multiplied by `c1`; one with
/// the target bit clear is multiplied by `c0` when a zero-side coefficient
/// is given and passes through whole when none is.
pub open spec fn diag_shape(
    oe: Seq<(Seq<u64>, Complex64)>,
    ne: Seq<(Seq<u64>, Complex64)>,
    cl: Seq<usize>,
    tl: usize,
    c0: Option<Complex64>,
    c1: Complex64,
) -> bool {
    &&& ne.len() == oe.len()
    &&& forall|x: int| 0 <= x < oe.len() ==> (#[trigger] ne[x]).0 == oe[x].0
    &&& forall|x: int| 0 <= x < oe.len() && !ctrls_sat(oe[x].0, cl) ==> ne[x] == #[trigger] oe[x]
    &&& forall|x: int|
        0 <= x < oe.len() && ctrls_sat(oe[x].0, cl) && bit_spec(oe[x].0, tl as int) ==> (
        #[trigger] ne[x]).1 == cmul_of(oe[x].1, c1)
    &&& forall|x: int|
        0 <= x < oe.len() && ctrls_sat(oe[x].0, cl) && !bit_spec(oe[x].0, tl as int) ==> match c0 {
            Option::None => ne[x] == #[trigger] oe[x],
            Option::Some(c) => (#[trigger] ne[x]).1 == cmul_of(oe[x].1, c),
        }
}

/// Whether some stored entry holds the given key.
pub open spec fn key_source(oe: Seq<(Seq<u64>, Complex64)>, k: Seq<u64>) -> bool {
    exists|y: int| 0 <= y < oe.len() && (#[trigger] oe[y]).0 == k
}

/// What a pruning phase gate makes of one entry: the amplitude is
/// multiplied by `phase` exactly when the controls are met and the target
/// bit is set; the key never changes.
pub open spec fn phase_entry(
    e: (Seq<u64>, Complex64),
    cl: Seq<usize>,
    tl: usize,
    phase: Complex64,
) -> (Seq<u64>, Complex64) {
    if ctrls_sat(e.0, cl) && bit_spec(e.0, tl as int) {
        (e.0, cmul_of(e.1, phase))
    } else {
        e
    }
}

/// Whether a pruning phase gate keeps an entry: always, unless it was
/// rotated and the product fell below the pruning threshold.
pub open spec fn phase_keeps(
    e: (Seq<u64>, Complex64),
    cl: Seq<usize>,
    tl: usize,
    phase: Complex64,
) -> bool {
    !(ctrls_sat(e.0, cl) && bit_spec(e.0, tl as int)) || !negligible_spec(cmul_of(e.1, phase))
}

/// Whether an entry is the phase-gate image of some old entry that the
/// pruning policy keeps.
pub open spec fn phase_source(
    oe: Seq<(Seq<u64>, Complex64)>,
    e: (Seq<u64>, Complex64),
    cl: Seq<usize>,
    tl: usize,
    phase: Complex64,
) -> bool {
    exists|y: int|
        0 <= y < oe.len() && e == phase_entry(#[trigger] oe[y], cl, tl, phase) && phase_keeps(
            oe[y],
            cl,
            tl,
            phase,
        )
}

/// The exact output of a pruning phase gate: the surviving entries are
/// precisely the kept images of the old entries — every new entry is such
/// an image, every kept image is present, and the key of a dropped entry
/// appears nowhere.
pub open spec fn phase_shape(
    oe: Seq<(Seq<u64>, Complex64)>,
    ne: Seq<(Seq<u64>, Complex64)>,
    cl: Seq<usize>,
    tl: usize,
    phase: Complex64,
) -> bool {
    &&& ne.len() <= oe.len()
    &&& forall|x: int| 0 <= x < ne.len() ==> phase_source(oe, #[trigger] ne[x], cl, tl, phase)
    &&& forall|y: int|
        0 <= y < oe.len() && phase_keeps(#[trigger] oe[y], cl, tl, phase) ==> ne.contains(
            phase_entry(oe[y], cl, tl, phase),
        )
    &&& forall|y: int|
        0 <= y < oe.len() && !phase_keeps(#[trigger] oe[y], cl, tl, phase) ==> !key_source(
            ne,
            oe[y].0,
        )
}

impl QuantumSim {
    /// An operation on the given controls and target is well-formed: every
    /// named qubit is live and none appears twice.
    pub open spec fn op_ok(self, ctls: Seq<usize>, target: usize) -> bool {
        &&& self.is_live(target)
        &&& forall|i: int| 0 <= i < ctls.len() ==> self.is_live(#[trigger] ctls[i])
        &&& no_dups(ctls.push(target))
    }

    /// The internal locations of a list of live identifiers.
    pub closed spec fn locs_spec(self, list: Seq<usize>) -> Seq<usize> {
        Seq::new(list.len(), |i: int| self.loc_spec(list[i]) as usize)
    }

    /// What a gate's error says: an unknown identifier names a qubit of the
    /// operation that is not live; a duplicate identifier is the smallest
    /// qubit that appears twice among the controls and the target.
    pub open spec fn gate_err(self, ctls: Seq<usize>, target: usize, e: UsageError) -> bool {
        match e {
            UsageError::UnknownId(u) => !self.is_live(u) && (u == target || ctls.contains(u)),
            UsageError::DuplicateId(d) => is_dup_of(ctls.push(target), d) && (forall|d2: usize|
                is_dup_of(ctls.push(target), d2) ==> d <= d2),
        }
    }

    /// Resolves a list of identifiers to locations, reporting the first one
    /// that is not live.
    fn resolve_list(&self, list: &[usize]) -> (r: Result<Vec<usize>, UsageError>)
        requires
            self.ids@.no_duplicates(),
        ensures
            match r {
                Result::Ok(locs) => (forall|i: int|
                    0 <= i < list@.len() ==> self.is_live(#[trigger] list@[i])) && locs@
                    == self.locs_spec(list@) && locs@.len() == list@.len() && (forall|i: int|
                    0 <= i < list@.len() ==> (#[trigger] locs@[i]) < self.ids_seq().len()
                        && self.ids_seq()[locs@[i] as int] == list@[i]),
                Result::Err(e) => match e {
                    UsageError::UnknownId(u) => !self.is_live(u) && list@.contains(u),
                    UsageError::DuplicateId(_) => false,
                },
            },
    {
        let mut locs: Vec<usize> = Vec::new();
        let mut i: usize = 0;
        while i < list.len()
            invariant
                i <= list@.len(),
                locs@.len() == i,
                self.ids@.no_duplicates(),
                forall|x: int|
                    0 <= x < i ==> (#[trigger] locs@[x]) < self.ids_seq().len()
                        && self.ids_seq()[locs@[x] as int] == list@[x],
            decreases list@.len() - i,
        {
            match self.loc_of(list[i]) {
                Option::Some(l) => {
                    locs.push(l);
                },
                Option::None => {
                    return Result::Err(UsageError::UnknownId(list[i]));
                },
            }
            i += 1;
        }
        proof {
            assert forall|x: int| 0 <= x < list@.len() implies self.is_live(
                #[trigger] list@[x],
            ) by {
                self.lemma_loc_unique(list@[x], locs@[x] as int);
            }
            assert forall|x: int| 0 <= x < list@.len() implies locs@[x] == self.loc_spec(
                #[trigger] list@[x],
            ) as usize by {
                self.lemma_loc_unique(list@[x], locs@[x] as int);
            }
            assert(locs@ =~= self.locs_spec(list@));
        }
        Result::Ok(locs)
    }

    /// Finds the smallest identifier that appears more than once in the
    /// list, if any does.
    fn smallest_dup(list: &Vec<usize>) -> (r: Option<usize>)
        ensures
            match r {
                Option::Some(d) => is_dup_of(list@, d) && (forall|d2: usize|
                    is_dup_of(list@, d2) ==> d <= d2),
                Option::None => no_dups(list@),
            },
    {
        let n = list.len();
        let mut best: Option<usize> = Option::None;
        let mut j: usize = 0;
        while j < n
            invariant
                j <= n,
                n == list@.len(),
                match best {
                    Option::Some(b) => is_dup_of(list@, b) && (forall|x: int|
                        0 <= x < j && dup_at(list@, x) ==> b <= #[trigger] list@[x]),
                    Option::None => forall|x: int| 0 <= x < j ==> !dup_at(list@, x),
                },
            decreases n - j,
        {
            let mut other = false;
            let mut i: usize = 0;
            while i < n
                invariant
                    i <= n,
                    n == list@.len(),
                    j < n,
                    other == exists|x: int| 0 <= x < i && x != j && list@[x] == list@[j as int],
                decreases n - i,
            {
                if i != j && list[i] == list[j] {
                    proof {
                        assert(list@[i as int] == list@[j as int] && i as int != j);
                    }
                    other = true;
                }
                i += 1;
            }
            if other {
                proof {
                    let x = choose|x: int| 0 <= x < n && x != j && list@[x] == list@[j as int];
                    if x < j {
                        assert(is_dup_of(list@, list@[j as int]));
                    } else {
                        assert(is_dup_of(list@, list@[j as int]));
                    }
                }
                best = match best {
                    Option::None => Option::Some(list[j]),
                    Option::Some(b) => if list[j] < b {
                        Option::Some(list[j])
                    } else {
                        Option::Some(b)
                    },
                };
            } else {
                proof {
                    assert(!dup_at(list@, j as int));
                }
            }
            j += 1;
        }
        proof {
            match best {
                Option::Some(b) => {
                    assert forall|d2: usize| is_dup_of(list@, d2) implies b <= d2 by {
                        let (x, y): (int, int) = choose|x: int, y: int|
                            #![trigger list@[x], list@[y]]
                            0 <= x < y < list@.len() && list@[x] == d2 && list@[y] == d2;
                        assert(dup_at(list@, y));
                    }
                },
                Option::None => {
                    assert forall|x: int, y: int|
                        #![trigger list@[x], list@[y]]
                        0 <= x < y < list@.len() implies list@[x] != list@[y] by {
                        if list@[x] == list@[y] {
                            assert(dup_at(list@, y));
                        }
                    }
                },
            }
        }
        best
    }

    /// Resolves and checks the operand list of a gate: the target first,
    /// then each control, then the duplicate check over all of them.
    fn resolve_for_gate(&self, ctls: &[usize], target: usize) -> (r: Result<
        (Vec<usize>, usize),
        UsageError,
    >)
        requires
            self.inv(),
        ensures
            match r {
                Result::Ok(p) => self.op_ok(ctls@, target) && p.0@ == self.locs_spec(ctls@)
                    && p.0@.len() == ctls@.len() && (p.1 as int) == self.loc_spec(target) && p.1
                    < self.qubit_count() && (forall|i: int|
                    0 <= i < p.0@.len() ==> (#[trigger] p.0@[i]) < self.qubit_count()) && (forall|
                    i: int,
                |
                    0 <= i < p.0@.len() ==> (#[trigger] p.0@[i]) != p.1),
                Result::Err(e) => self.gate_err(ctls@, target, e),
            },
    {
        let tl = match self.loc_of(target) {
            Option::Some(l) => l,
            Option::None => {
                return Result::Err(UsageError::UnknownId(target));
            },
        };
        proof {
            self.lemma_loc_unique(target, tl as int);
        }
        let locs = match self.resolve_list(ctls) {
            Result::Ok(l) => l,
            Result::Err(e) => {
                return Result::Err(e);
            },
        };
        let mut idlist: Vec<usize> = Vec::new();
        let mut i: usize = 0;
        while i < ctls.len()
            invariant
                i <= ctls@.len(),
                idlist@ == ctls@.take(i as int),
            decreases ctls@.len() - i,
        {
            idlist.push(ctls[i]);
            proof {
                assert(idlist@ =~= ctls@.take(i + 1));
            }
            i += 1;
        }
        proof {
            assert(ctls@.take(ctls@.len() as int) =~= ctls@);
        }
        idlist.push(target);
        proof {
            assert(idlist@ =~= ctls@.push(target));
        }
        match Self::smallest_dup(&idlist) {
            Option::Some(d) => Result::Err(UsageError::DuplicateId(d)),
            Option::None => {
                proof {
                    let cl = ctls@.len() as int;
                    assert forall|x: int| 0 <= x < locs@.len() implies (#[trigger] locs@[x])
                        != tl by {
                        if locs@[x] == tl {
                            assert(self.ids_seq()[locs@[x] as int] == ctls@[x]);
                            assert(ctls@[x] == target);
                            assert(idlist@[x] == idlist@[cl]);
                        }
                    }
                }
                Result::Ok((locs, tl))
            },
        }
    }
}

impl QuantumSim {
    /// Applies a controlled bit-flip to every entry, in place. With a phase
    /// pair, each flipped entry's amplitude is additionally multiplied by
    /// the first coefficient when the new target bit is zero and by the
    /// second when it is one; without one, amplitudes are carried exactly.
    #[verifier::loop_isolation(false)]
    fn apply_flip_gate(&mut self, ctl_locs: &Vec<usize>, tl: usize, phases: Option<
        (Complex64, Complex64),
    >)
        requires
            old(self).inv(),
            tl < old(self).qubit_count(),
            forall|i: int|
                0 <= i < ctl_locs@.len() ==> (#[trigger] ctl_locs@[i]) < old(self).qubit_count(),
            forall|i: int| 0 <= i < ctl_locs@.len() ==> (#[trigger] ctl_locs@[i]) != tl,
        ensures
            final(self).inv(),
            phases.is_none() ==> final(self).entries() == flip_map(
                old(self).entries(),
                ctl_locs@,
                tl,
            ),
            phases matches Option::Some(cs) ==> flip_phase_shape(
                old(self).entries(),
                final(self).entries(),
                ctl_locs@,
                tl,
                cs.0,
                cs.1,
            ),
            final(self).ids_seq() == old(self).ids_seq(),
            final(self).key_width() == old(self).key_width(),
            final(self).rng == old(self).rng,
    {
        let ghost orig = self.state@;
        let ghost oe = old(self).entries();
        let ghost cl = ctl_locs@;
        let ghost w = old(self).key_width();
        let ghost n = old(self).qubit_count();
        let mut i: usize = 0;
        while i < self.state.len()
            invariant
                self.ids@ == old(self).ids@,
                self.width == old(self).width,
                self.rng == old(self).rng,
                self.state@.len() == orig.len(),
                i <= orig.len(),
                forall|x: int| i <= x < orig.len() ==> self.state@[x] == orig[x],
                forall|x: int|
                    0 <= x < i ==> ((#[trigger] self.state@[x]).0@, self.state@[x].1).0
                        == flip_entry((orig[x].0@, orig[x].1), cl, tl).0,
                forall|x: int|
                    0 <= x < i && !ctrls_sat(orig[x].0@, cl) ==> self.state@[x] == #[trigger] orig[x],
                phases.is_none() ==> forall|x: int|
                    0 <= x < i ==> ((#[trigger] self.state@[x]).0@, self.state@[x].1) == flip_entry(
                        (orig[x].0@, orig[x].1),
                        cl,
                        tl,
                    ),
                phases matches Option::Some(cs) ==> forall|x: int|
                    0 <= x < i && ctrls_sat(orig[x].0@, cl) ==> (#[trigger] self.state@[x]).1
                        == cmul_of(
                        orig[x].1,
                        if bit_spec(orig[x].0@, tl as int) {
                            cs.0
                        } else {
                            cs.1
                        },
                    ),
            decreases orig.len() - i,
        {
            proof {
                assert(oe[i as int] == (orig[i as int].0@, orig[i as int].1));
                assert(oe[i as int].0.len() == w);
            }
            let sat = self.state[i].0.sat_all(ctl_locs);
            if sat {
                let b = self.state[i].0.get_bit(tl);
                let nk = self.state[i].0.with_bit(tl, !b);
                let v = self.state[i].1;
                let nv = match phases {
                    Option::None => v,
                    Option::Some(cs) => amp_mul(v, if !b {
                        cs.1
                    } else {
                        cs.0
                    }),
                };
                self.state.set(i, (nk, nv));
            }
            i += 1;
        }
        proof {
            let ne = self.entries();
            assert forall|x: int| 0 <= x < oe.len() implies (#[trigger] ne[x]).0 == flip_entry(
                oe[x],
                cl,
                tl,
            ).0 by {
                assert(ne[x] == (self.state@[x].0@, self.state@[x].1));
                assert(oe[x] == (orig[x].0@, orig[x].1));
            }
            assert forall|x: int|
                0 <= x < oe.len() && !ctrls_sat(oe[x].0, cl) implies ne[x] == #[trigger] oe[x] by {
                assert(ne[x] == (self.state@[x].0@, self.state@[x].1));
                assert(oe[x] == (orig[x].0@, orig[x].1));
            }
            if phases.is_none() {
                assert forall|x: int| 0 <= x < oe.len() implies #[trigger] ne[x] == flip_entry(
                    oe[x],
                    cl,
                    tl,
                ) by {
                    assert(ne[x] == (self.state@[x].0@, self.state@[x].1));
                    assert(oe[x] == (orig[x].0@, orig[x].1));
                }
                assert(ne =~= flip_map(oe, cl, tl));
            }
            if let Option::Some(cs) = phases {
                assert forall|x: int|
                    0 <= x < oe.len() && ctrls_sat(oe[x].0, cl) implies (#[trigger] ne[x]).1
                    == cmul_of(
                    oe[x].1,
                    if bit_spec(oe[x].0, tl as int) {
                        cs.0
                    } else {
                        cs.1
                    },
                ) by {
                    assert(ne[x] == (self.state@[x].0@, self.state@[x].1));
                    assert(oe[x] == (orig[x].0@, orig[x].1));
                }
            }
            assert forall|i2: int| 0 <= i2 < cl.len() implies #[trigger] cl[i2] as int
                != tl as int by {
                assert(cl[i2] != tl);
            }
            assert forall|x: int| 0 <= x < ne.len() implies (#[trigger] ne[x]).0.len() == w by {
                assert(oe[x].0.len() == w);
                if ctrls_sat(oe[x].0, cl) {
                    lemma_flip_spec_bits(oe[x].0, tl as int);
                }
            }
            assert forall|x: int, j: int|
                #![trigger bit_spec(ne[x].0, j)]
                0 <= x < ne.len() && n <= j implies !bit_spec(ne[x].0, j) by {
                assert(!bit_spec(oe[x].0, j));
                if ctrls_sat(oe[x].0, cl) {
                    lemma_flip_spec_bits(oe[x].0, tl as int);
                    assert(bit_spec(ne[x].0, j) == bit_spec(oe[x].0, j));
                }
            }
            assert forall|x: int, y: int| 0 <= x < y < ne.len() implies (#[trigger] ne[x]).0 != (
            #[trigger] ne[y]).0 by {
                let kx = oe[x].0;
                let ky = oe[y].0;
                assert(kx != ky);
                let sx = ctrls_sat(kx, cl);
                let sy = ctrls_sat(ky, cl);
                if sx && sy {
                    if ne[x].0 == ne[y].0 {
                        lemma_flip_injective(kx, ky, tl as int);
                    }
                } else if sx && !sy {
                    if ne[x].0 == ne[y].0 {
                        lemma_set_preserves_ctrls(kx, tl as int, !bit_spec(kx, tl as int), cl);
                        assert(ctrls_sat(ky, cl));
                    }
                } else if !sx && sy {
                    if ne[x].0 == ne[y].0 {
                        lemma_set_preserves_ctrls(ky, tl as int, !bit_spec(ky, tl as int), cl);
                        assert(ctrls_sat(kx, cl));
                    }
                }
            }
        }
    }

    /// Multi-controlled X gate: for every entry whose control bits are all
    /// set, the target bit is toggled and the amplitude is carried over
    /// exactly; all other entries pass through untouched.
    pub fn mcx(&mut self, ctls: &[usize], target: usize) -> (r: Result<(), UsageError>)
        requires
            old(self).inv(),
        ensures
            final(self).inv(),
            final(self).ids_seq() == old(self).ids_seq(),
            final(self).key_width() == old(self).key_width(),
            match r {
                Result::Ok(()) => old(self).op_ok(ctls@, target) && final(self).entries()
                    == flip_map(
                    old(self).entries(),
                    old(self).locs_spec(ctls@),
                    old(self).loc_spec(target) as usize,
                ),
                Result::Err(e) => *final(self) == *old(self) && old(self).gate_err(
                    ctls@,
                    target,
                    e,
                ),
            },
    {
        let p = match self.resolve_for_gate(ctls, target) {
            Result::Ok(p) => p,
            Result::Err(e) => {
                return Result::Err(e);
            },
        };
        let (locs, tl) = p;
        self.apply_flip_gate(&locs, tl, Option::None);
        Result::Ok(())
    }

    /// Single-qubit X gate: toggles the target bit of every entry and keeps
    /// every amplitude exactly.
    pub fn x(&mut self, target: usize) -> (r: Result<(), UsageError>)
        requires
            old(self).inv(),
        ensures
            final(self).inv(),
            final(self).ids_seq() == old(self).ids_seq(),
            final(self).key_width() == old(self).key_width(),
            match r {
                Result::Ok(()) => old(self).is_live(target) && final(self).entries() == flip_map(
                    old(self).entries(),
                    Seq::<usize>::empty(),
                    old(self).loc_spec(target) as usize,
                ),
                Result::Err(e) => *final(self) == *old(self) && e == UsageError::UnknownId(target)
                    && !old(self).is_live(target),
            },
    {
        let r = self.mcx(&[], target);
        proof {
            let es = Seq::<usize>::empty();
            match r {
                Result::Ok(()) => {
                    assert(old(self).locs_spec(es) =~= es);
                },
                Result::Err(e) => {
                    match e {
                        UsageError::UnknownId(u) => {
                            if es.contains(u) {
                                assert(false);
                            }
                        },
                        UsageError::DuplicateId(d) => {
                            assert(is_dup_of(es.push(target), d));
                            assert(false);
                        },
                    }
                },
            }
        }
        r
    }
}

impl QuantumSim {
    /// Applies a controlled diagonal transform in place: the amplitude of an
    /// entry whose controls are met is multiplied by `c1` when the target
    /// bit is one, and by `c0` when it is zero; with no `c0` the zero-bit
    /// amplitude is carried exactly. Keys never change.
    #[verifier::loop_isolation(false)]
    fn apply_diag(&mut self, ctl_locs: &Vec<usize>, tl: usize, c0: Option<Complex64>, c1: Complex64)
        requires
            old(self).inv(),
            tl < old(self).qubit_count(),
            forall|i: int|
                0 <= i < ctl_locs@.len() ==> (#[trigger] ctl_locs@[i]) < old(self).qubit_count(),
        ensures
            final(self).inv(),
            diag_shape(old(self).entries(), final(self).entries(), ctl_locs@, tl, c0, c1),
            final(self).ids_seq() == old(self).ids_seq(),
            final(self).key_width() == old(self).key_width(),
            final(self).rng == old(self).rng,
    {
        let ghost orig = self.state@;
        let ghost oe = old(self).entries();
        let ghost cl = ctl_locs@;
        let ghost w = old(self).key_width();
        let mut i: usize = 0;
        while i < self.state.len()
            invariant
                self.ids@ == old(self).ids@,
                self.width == old(self).width,
                self.rng == old(self).rng,
                self.state@.len() == orig.len(),
                i <= orig.len(),
                forall|x: int| i <= x < orig.len() ==> self.state@[x] == orig[x],
                forall|x: int| 0 <= x < i ==> (#[trigger] self.state@[x]).0@ == orig[x].0@,
                forall|x: int|
                    0 <= x < i && !ctrls_sat(orig[x].0@, cl) ==> self.state@[x] == #[trigger] orig[x],
                forall|x: int|
                    0 <= x < i && ctrls_sat(orig[x].0@, cl) && bit_spec(orig[x].0@, tl as int)
                        ==> (#[trigger] self.state@[x]).1 == cmul_of(orig[x].1, c1),
                forall|x: int|
                    0 <= x < i && ctrls_sat(orig[x].0@, cl) && !bit_spec(orig[x].0@, tl as int)
                        ==> match c0 {
                        Option::None => self.state@[x] == #[trigger] orig[x],
                        Option::Some(c) => (#[trigger] self.state@[x]).1 == cmul_of(orig[x].1, c),
                    },
            decreases orig.len() - i,
        {
            proof {
                assert(oe[i as int] == (orig[i as int].0@, orig[i as int].1));
                assert(oe[i as int].0.len() == w);
            }
            let sat = self.state[i].0.sat_all(ctl_locs);
            if sat {
                let b = self.state[i].0.get_bit(tl);
                if b {
                    let k = self.state[i].0.clone_key();
                    let nv = amp_mul(self.state[i].1, c1);
                    self.state.set(i, (k, nv));
                } else {
                    match c0 {
                        Option::Some(c) => {
                            let k = self.state[i].0.clone_key();
                            let nv = amp_mul(self.state[i].1, c);
                            self.state.set(i, (k, nv));
                        },
                        Option::None => {},
                    }
                }
            }
            i += 1;
        }
        proof {
            let ne = self.entries();
            assert forall|x: int| 0 <= x < oe.len() implies (#[trigger] ne[x]).0 == oe[x].0 by {
                assert(ne[x] == (self.state@[x].0@, self.state@[x].1));
            }
            assert forall|x: int|
                0 <= x < oe.len() && !ctrls_sat(oe[x].0, cl) implies ne[x] == #[trigger] oe[x] by {
                assert(ne[x] == (self.state@[x].0@, self.state@[x].1));
                assert(oe[x] == (orig[x].0@, orig[x].1));
            }
            assert forall|x: int|
                0 <= x < oe.len() && ctrls_sat(oe[x].0, cl) && bit_spec(
                    oe[x].0,
                    tl as int,
                ) implies (#[trigger] ne[x]).1 == cmul_of(oe[x].1, c1) by {
                assert(ne[x] == (self.state@[x].0@, self.state@[x].1));
                assert(oe[x] == (orig[x].0@, orig[x].1));
            }
            assert forall|x: int|
                0 <= x < oe.len() && ctrls_sat(oe[x].0, cl) && !bit_spec(
                    oe[x].0,
                    tl as int,
                ) implies match c0 {
                Option::None => ne[x] == #[trigger] oe[x],
                Option::Some(c) => (#[trigger] ne[x]).1 == cmul_of(oe[x].1, c),
            } by {
                assert(ne[x] == (self.state@[x].0@, self.state@[x].1));
                assert(oe[x] == (orig[x].0@, orig[x].1));
            }
        }
    }

    /// Applies a controlled pruning phase transform: entries whose controls
    /// are met and whose target bit is one get their amplitude multiplied by
    /// `phase` and are dropped when the product is negligible; all other
    /// entries survive whole.
    #[verifier::loop_isolation(false)]
    fn apply_phase_gate(&mut self, ctl_locs: &Vec<usize>, tl: usize, phase: Complex64)
        requires
            old(self).inv(),
            tl < old(self).qubit_count(),
            forall|i: int|
                0 <= i < ctl_locs@.len() ==> (#[trigger] ctl_locs@[i]) < old(self).qubit_count(),
        ensures
            final(self).inv(),
            phase_shape(old(self).entries(), final(self).entries(), ctl_locs@, tl, phase),
            final(self).ids_seq() == old(self).ids_seq(),
            final(self).key_width() == old(self).key_width(),
            final(self).rng == old(self).rng,
    {
        let ghost orig = self.state@;
        let ghost oe = old(self).entries();
        let ghost cl = ctl_locs@;
        let ghost w = old(self).key_width();
        let mut out: Vec<(BasisIndex, Complex64)> = Vec::new();
        let ghost mut src: Seq<int> = Seq::empty();
        let mut i: usize = 0;
        while i < self.state.len()
            invariant
                i <= orig.len(),
                out@.len() == src.len(),
                forall|x: int| 0 <= x < src.len() ==> 0 <= #[trigger] src[x] < i,
                forall|x: int, y: int|
                    #![trigger src[x], src[y]]
                    0 <= x < y < src.len() ==> src[x] < src[y],
                forall|x: int|
                    0 <= x < out@.len() ==> ((#[trigger] out@[x]).0@, out@[x].1) == phase_entry(
                        oe[src[x]],
                        cl,
                        tl,
                        phase,
                    ) && phase_keeps(oe[src[x]], cl, tl, phase),
                forall|y: int|
                    0 <= y < i && phase_keeps(#[trigger] oe[y], cl, tl, phase) ==> has_src(src, y),
            decreases orig.len() - i,
        {
            proof {
                assert(oe[i as int] == (orig[i as int].0@, orig[i as int].1));
                assert(oe[i as int].0.len() == w);
            }
            let sat = self.state[i].0.sat_all(ctl_locs);
            let hot = sat && self.state[i].0.get_bit(tl);
            if hot {
                let nv = amp_mul(self.state[i].1, phase);
                if !is_negligible(nv) {
                    let k = self.state[i].0.clone_key();
                    out.push((k, nv));
                    proof {
                        assert(ctrls_sat(oe[i as int].0, cl) && bit_spec(oe[i as int].0, tl as int));
                        assert((k@, nv) == phase_entry(oe[i as int], cl, tl, phase));
                        assert(phase_keeps(oe[i as int], cl, tl, phase));
                        let osrc = src;
                        src = src.push(i as int);
                        assert forall|y: int|
                            0 <= y < i + 1 && phase_keeps(
                                #[trigger] oe[y],
                                cl,
                                tl,
                                phase,
                            ) implies has_src(src, y) by {
                            if y == i {
                                assert(src[src.len() - 1] == y);
                            } else {
                                assert(has_src(osrc, y));
                                let x = choose|x: int|
                                    0 <= x < osrc.len() && #[trigger] osrc[x] == y;
                                assert(src[x] == y);
                            }
                        }
                    }
                }
            } else {
                let k = self.state[i].0.clone_key();
                let v = self.state[i].1;
                out.push((k, v));
                proof {
                    assert(!(ctrls_sat(oe[i as int].0, cl) && bit_spec(oe[i as int].0, tl as int)));
                    assert((k@, v) == phase_entry(oe[i as int], cl, tl, phase));
                    assert(phase_keeps(oe[i as int], cl, tl, phase));
                    let osrc = src;
                    src = src.push(i as int);
                    assert forall|y: int|
                        0 <= y < i + 1 && phase_keeps(#[trigger] oe[y], cl, tl, phase) implies
                        has_src(src, y) by {
                        if y == i {
                            assert(src[src.len() - 1] == y);
                        } else {
                            assert(has_src(osrc, y));
                            let x = choose|x: int| 0 <= x < osrc.len() && #[trigger] osrc[x] == y;
                            assert(src[x] == y);
                        }
                    }
                }
            }
            i += 1;
        }
        self.state = out;
        proof {
            let ne = self.entries();
            lemma_strict_incr_bound(src, orig.len() as int);
            assert forall|x: int| 0 <= x < ne.len() implies phase_source(
                oe,
                #[trigger] ne[x],
                cl,
                tl,
                phase,
            ) by {
                let y = src[x];
                assert(ne[x] == (self.state@[x].0@, self.state@[x].1));
                assert(ne[x] == phase_entry(oe[y], cl, tl, phase) && phase_keeps(
                    oe[y],
                    cl,
                    tl,
                    phase,
                ));
            }
            assert forall|y: int|
                0 <= y < oe.len() && phase_keeps(#[trigger] oe[y], cl, tl, phase) implies ne
                .contains(phase_entry(oe[y], cl, tl, phase)) by {
                assert(has_src(src, y));
                let x = choose|x: int| 0 <= x < src.len() && #[trigger] src[x] == y;
                assert(ne[x] == (self.state@[x].0@, self.state@[x].1));
                assert(ne[x] == phase_entry(oe[y], cl, tl, phase));
            }
            assert forall|x: int, y: int| 0 <= x < y < ne.len() implies (#[trigger] ne[x]).0 != (
            #[trigger] ne[y]).0 by {
                assert(src[x] < src[y]);
                assert(ne[x].0 == oe[src[x]].0 && ne[y].0 == oe[src[y]].0);
            }
            assert forall|y: int|
                0 <= y < oe.len() && !phase_keeps(#[trigger] oe[y], cl, tl, phase) implies
                !key_source(ne, oe[y].0) by {
                if key_source(ne, oe[y].0) {
                    let x = choose|x: int| 0 <= x < ne.len() && (#[trigger] ne[x]).0 == oe[y].0;
                    let y2 = src[x];
                    assert(ne[x].0 == oe[y2].0);
                    assert(y2 == y);
                }
            }
            assert forall|x: int| 0 <= x < ne.len() implies (#[trigger] ne[x]).0.len() == w by {
                assert(ne[x].0 == oe[src[x]].0);
            }
            assert forall|x: int, j: int|
                #![trigger bit_spec(ne[x].0, j)]
                0 <= x < ne.len() && old(self).qubit_count() <= j implies !bit_spec(
                ne[x].0,
                j,
            ) by {
                assert(ne[x].0 == oe[src[x]].0);
                assert(!bit_spec(oe[src[x]].0, j));
            }
        }
    }

    /// Shared front of every controlled diagonal gate: resolve, check, and
    /// apply the per-entry amplitude factors.
    fn mc_diag(&mut self, ctls: &[usize], target: usize, c0: Option<Complex64>, c1: Complex64) -> (r:
        Result<(), UsageError>)
        requires
            old(self).inv(),
        ensures
            final(self).inv(),
            final(self).ids_seq() == old(self).ids_seq(),
            final(self).key_width() == old(self).key_width(),
            match r {
                Result::Ok(()) => old(self).op_ok(ctls@, target) && diag_shape(
                    old(self).entries(),
                    final(self).entries(),
                    old(self).locs_spec(ctls@),
                    old(self).loc_spec(target) as usize,
                    c0,
                    c1,
                ),
                Result::Err(e) => *final(self) == *old(self) && old(self).gate_err(
                    ctls@,
                    target,
                    e,
                ),
            },
    {
        let p = match self.resolve_for_gate(ctls, target) {
            Result::Ok(p) => p,
            Result::Err(e) => {
                return Result::Err(e);
            },
        };
        let (locs, tl) = p;
        self.apply_diag(&locs, tl, c0, c1);
        Result::Ok(())
    }

    /// Multi-controlled Y gate: controlled entries get the target bit
    /// toggled and the amplitude multiplied by the imaginary unit when the
    /// new bit is one, by its negation when it is zero.
    pub fn mcy(&mut self, ctls: &[usize], target: usize) -> (r: Result<(), UsageError>)
        requires
            old(self).inv(),
        ensures
            final(self).inv(),
            final(self).ids_seq() == old(self).ids_seq(),
            final(self).key_width() == old(self).key_width(),
            match r {
                Result::Ok(()) => old(self).op_ok(ctls@, target) && flip_phase_shape(
                    old(self).entries(),
                    final(self).entries(),
                    old(self).locs_spec(ctls@),
                    old(self).loc_spec(target) as usize,
                    cneg_of(imag_of(1)),
                    imag_of(1),
                ),
                Result::Err(e) => *final(self) == *old(self) && old(self).gate_err(
                    ctls@,
                    target,
                    e,
                ),
            },
    {
        let p = match self.resolve_for_gate(ctls, target) {
            Result::Ok(p) => p,
            Result::Err(e) => {
                return Result::Err(e);
            },
        };
        let (locs, tl) = p;
        let pos_i = amp_i();
        let neg_i = amp_neg(amp_i());
        self.apply_flip_gate(&locs, tl, Option::Some((neg_i, pos_i)));
        Result::Ok(())
    }

    /// Single-qubit Y gate.
    pub fn y(&mut self, target: usize) -> (r: Result<(), UsageError>)
        requires
            old(self).inv(),
        ensures
            final(self).inv(),
            final(self).ids_seq() == old(self).ids_seq(),
            final(self).key_width() == old(self).key_width(),
            match r {
                Result::Ok(()) => old(self).is_live(target) && flip_phase_shape(
                    old(self).entries(),
                    final(self).entries(),
                    Seq::<usize>::empty(),
                    old(self).loc_spec(target) as usize,
                    cneg_of(imag_of(1)),
                    imag_of(1),
                ),
                Result::Err(e) => *final(self) == *old(self) && e == UsageError::UnknownId(target)
                    && !old(self).is_live(target),
            },
    {
        let r = self.mcy(&[], target);
        proof {
            if let Result::Err(e) = r {
                lemma_single_gate_err(*old(self), target, e);
            } else {
                assert(old(self).locs_spec(Seq::<usize>::empty()) =~= Seq::<usize>::empty());
            }
        }
        r
    }

    /// Multi-controlled Z gate: controlled entries with the target bit set
    /// get their amplitude negated; keys never change.
    pub fn mcz(&mut self, ctls: &[usize], target: usize) -> (r: Result<(), UsageError>)
        requires
            old(self).inv(),
        ensures
            final(self).inv(),
            final(self).ids_seq() == old(self).ids_seq(),
            final(self).key_width() == old(self).key_width(),
            match r {
                Result::Ok(()) => old(self).op_ok(ctls@, target) && diag_shape(
                    old(self).entries(),
                    final(self).entries(),
                    old(self).locs_spec(ctls@),
                    old(self).loc_spec(target) as usize,
                    Option::None,
                    cneg_of(real_of(1)),
                ),
                Result::Err(e) => *final(self) == *old(self) && old(self).gate_err(
                    ctls@,
                    target,
                    e,
                ),
            },
    {
        let minus_one = amp_neg(amp_from_u64(1));
        self.mc_diag(ctls, target, Option::None, minus_one)
    }

    /// Single-qubit Z gate.
    pub fn z(&mut self, target: usize) -> (r: Result<(), UsageError>)
        requires
            old(self).inv(),
        ensures
            final(self).inv(),
            final(self).ids_seq() == old(self).ids_seq(),
            final(self).key_width() == old(self).key_width(),
            match r {
                Result::Ok(()) => old(self).is_live(target) && diag_shape(
                    old(self).entries(),
                    final(self).entries(),
                    Seq::<usize>::empty(),
                    old(self).loc_spec(target) as usize,
                    Option::None,
                    cneg_of(real_of(1)),
                ),
                Result::Err(e) => *final(self) == *old(self) && e == UsageError::UnknownId(target)
                    && !old(self).is_live(target),
            },
    {
        let r = self.mcz(&[], target);
        proof {
            if let Result::Err(e) = r {
                lemma_single_gate_err(*old(self), target, e);
            } else {
                assert(old(self).locs_spec(Seq::<usize>::empty()) =~= Seq::<usize>::empty());
            }
        }
        r
    }

    /// Multi-controlled S gate: a phase of the imaginary unit on the
    /// one-bit side of the target.
    pub fn mcs(&mut self, ctls: &[usize], target: usize) -> (r: Result<(), UsageError>)
        requires
            old(self).inv(),
        ensures
            final(self).inv(),
            final(self).ids_seq() == old(self).ids_seq(),
            final(self).key_width() == old(self).key_width(),
            match r {
                Result::Ok(()) => old(self).op_ok(ctls@, target) && diag_shape(
                    old(self).entries(),
                    final(self).entries(),
                    old(self).locs_spec(ctls@),
                    old(self).loc_spec(target) as usize,
                    Option::None,
                    imag_of(1),
                ),
                Result::Err(e) => *final(self) == *old(self) && old(self).gate_err(
                    ctls@,
                    target,
                    e,
                ),
            },
    {
        let c = amp_i();
        self.mc_diag(ctls, target, Option::None, c)
    }

    /// Single-qubit S gate.
    pub fn s(&mut self, target: usize) -> (r: Result<(), UsageError>)
        requires
            old(self).inv(),
        ensures
            final(self).inv(),
            final(self).ids_seq() == old(self).ids_seq(),
            final(self).key_width() == old(self).key_width(),
            match r {
                Result::Ok(()) => old(self).is_live(target) && diag_shape(
                    old(self).entries(),
                    final(self).entries(),
                    Seq::<usize>::empty(),
                    old(self).loc_spec(target) as usize,
                    Option::None,
                    imag_of(1),
                ),
                Result::Err(e) => *final(self) == *old(self) && e == UsageError::UnknownId(target)
                    && !old(self).is_live(target),
            },
    {
        let r = self.mcs(&[], target);
        proof {
            if let Result::Err(e) = r {
                lemma_single_gate_err(*old(self), target, e);
            } else {
                assert(old(self).locs_spec(Seq::<usize>::empty()) =~= Seq::<usize>::empty());
            }
        }
        r
    }

    /// Multi-controlled adjoint S gate: the inverse phase of `mcs`.
    pub fn mcsadj(&mut self, ctls: &[usize], target: usize) -> (r: Result<(), UsageError>)
        requires
            old(self).inv(),
        ensures
            final(self).inv(),
            final(self).ids_seq() == old(self).ids_seq(),
            final(self).key_width() == old(self).key_width(),
            match r {
                Result::Ok(()) => old(self).op_ok(ctls@, target) && diag_shape(
                    old(self).entries(),
                    final(self).entries(),
                    old(self).locs_spec(ctls@),
                    old(self).loc_spec(target) as usize,
                    Option::None,
                    cneg_of(imag_of(1)),
                ),
                Result::Err(e) => *final(self) == *old(self) && old(self).gate_err(
                    ctls@,
                    target,
                    e,
                ),
            },
    {
        let c = amp_neg(amp_i());
        self.mc_diag(ctls, target, Option::None, c)
    }

    /// Single-qubit adjoint S gate.
    pub fn sadj(&mut self, target: usize) -> (r: Result<(), UsageError>)
        requires
            old(self).inv(),
        ensures
            final(self).inv(),
            final(self).ids_seq() == old(self).ids_seq(),
            final(self).key_width() == old(self).key_width(),
            match r {
                Result::Ok(()) => old(self).is_live(target) && diag_shape(
                    old(self).entries(),
                    final(self).entries(),
                    Seq::<usize>::empty(),
                    old(self).loc_spec(target) as usize,
                    Option::None,
                    cneg_of(imag_of(1)),
                ),
                Result::Err(e) => *final(self) == *old(self) && e == UsageError::UnknownId(target)
                    && !old(self).is_live(target),
            },
    {
        let r = self.mcsadj(&[], target);
        proof {
            if let Result::Err(e) = r {
                lemma_single_gate_err(*old(self), target, e);
            } else {
                assert(old(self).locs_spec(Seq::<usize>::empty()) =~= Seq::<usize>::empty());
            }
        }
        r
    }

    /// Multi-controlled T gate: a phase of the principal square root of the
    /// imaginary unit on the one-bit side of the target.
    pub fn mct(&mut self, ctls: &[usize], target: usize) -> (r: Result<(), UsageError>)
        requires
            old(self).inv(),
        ensures
            final(self).inv(),
            final(self).ids_seq() == old(self).ids_seq(),
            final(self).key_width() == old(self).key_width(),
            match r {
                Result::Ok(()) => old(self).op_ok(ctls@, target) && diag_shape(
                    old(self).entries(),
                    final(self).entries(),
                    old(self).locs_spec(ctls@),
                    old(self).loc_spec(target) as usize,
                    Option::None,
                    csqrt_of(imag_of(1)),
                ),
                Result::Err(e) => *final(self) == *old(self) && old(self).gate_err(
                    ctls@,
                    target,
                    e,
                ),
            },
    {
        let c = amp_sqrt(amp_i());
        self.mc_diag(ctls, target, Option::None, c)
    }

    /// Single-qubit T gate.
    pub fn t(&mut self, target: usize) -> (r: Result<(), UsageError>)
        requires
            old(self).inv(),
        ensures
            final(self).inv(),
            final(self).ids_seq() == old(self).ids_seq(),
            final(self).key_width() == old(self).key_width(),
            match r {
                Result::Ok(()) => old(self).is_live(target) && diag_shape(
                    old(self).entries(),
                    final(self).entries(),
                    Seq::<usize>::empty(),
                    old(self).loc_spec(target) as usize,
                    Option::None,
                    csqrt_of(imag_of(1)),
                ),
                Result::Err(e) => *final(self) == *old(self) && e == UsageError::UnknownId(target)
                    && !old(self).is_live(target),
            },
    {
        let r = self.mct(&[], target);
        proof {
            if let Result::Err(e) = r {
                lemma_single_gate_err(*old(self), target, e);
            } else {
                assert(old(self).locs_spec(Seq::<usize>::empty()) =~= Seq::<usize>::empty());
            }
        }
        r
    }

    /// Multi-controlled adjoint T gate: the inverse phase of `mct`.
    pub fn mctadj(&mut self, ctls: &[usize], target: usize) -> (r: Result<(), UsageError>)
        requires
            old(self).inv(),
        ensures
            final(self).inv(),
            final(self).ids_seq() == old(self).ids_seq(),
            final(self).key_width() == old(self).key_width(),
            match r {
                Result::Ok(()) => old(self).op_ok(ctls@, target) && diag_shape(
                    old(self).entries(),
                    final(self).entries(),
                    old(self).locs_spec(ctls@),
                    old(self).loc_spec(target) as usize,
                    Option::None,
                    cconj_of(csqrt_of(imag_of(1))),
                ),
                Result::Err(e) => *final(self) == *old(self) && old(self).gate_err(
                    ctls@,
                    target,
                    e,
                ),
            },
    {
        let c = amp_conj(amp_sqrt(amp_i()));
        self.mc_diag(ctls, target, Option::None, c)
    }

    /// Single-qubit adjoint T gate.
    pub fn tadj(&mut self, target: usize) -> (r: Result<(), UsageError>)
        requires
            old(self).inv(),
        ensures
            final(self).inv(),
            final(self).ids_seq() == old(self).ids_seq(),
            final(self).key_width() == old(self).key_width(),
            match r {
                Result::Ok(()) => old(self).is_live(target) && diag_shape(
                    old(self).entries(),
                    final(self).entries(),
                    Seq::<usize>::empty(),
                    old(self).loc_spec(target) as usize,
                    Option::None,
                    cconj_of(csqrt_of(imag_of(1))),
                ),
                Result::Err(e) => *final(self) == *old(self) && e == UsageError::UnknownId(target)
                    && !old(self).is_live(target),
            },
    {
        let r = self.mctadj(&[], target);
        proof {
            if let Result::Err(e) = r {
                lemma_single_gate_err(*old(self), target, e);
            } else {
                assert(old(self).locs_spec(Seq::<usize>::empty()) =~= Seq::<usize>::empty());
            }
        }
        r
    }

    /// Multi-controlled Rz gate. The rotation angle is passed as the real
    /// part of a complex number; both sides of the target are rotated by
    /// opposite half-angle phases, so keys never change and only amplitudes
    /// move.
    pub fn mcrz(&mut self, ctls: &[usize], theta: Complex64, target: usize) -> (r: Result<
        (),
        UsageError,
    >)
        requires
            old(self).inv(),
        ensures
            final(self).inv(),
            final(self).ids_seq() == old(self).ids_seq(),
            final(self).key_width() == old(self).key_width(),
            match r {
                Result::Ok(()) => old(self).op_ok(ctls@, target) && diag_shape(
                    old(self).entries(),
                    final(self).entries(),
                    old(self).locs_spec(ctls@),
                    old(self).loc_spec(target) as usize,
                    Option::Some(cexp_of(cneg_of(rz_half_angle(theta)))),
                    cexp_of(rz_half_angle(theta)),
                ),
                Result::Err(e) => *final(self) == *old(self) && old(self).gate_err(
                    ctls@,
                    target,
                    e,
                ),
            },
    {
        let half = amp_div(theta, amp_from_u64(2));
        let ip = amp_mul(amp_i(), half);
        let c1 = amp_exp(ip);
        let c0 = amp_exp(amp_neg(ip));
        self.mc_diag(ctls, target, Option::Some(c0), c1)
    }

    /// Single-qubit Rz gate; the angle rides in the real part of `theta`.
    pub fn rz(&mut self, theta: Complex64, target: usize) -> (r: Result<(), UsageError>)
        requires
            old(self).inv(),
        ensures
            final(self).inv(),
            final(self).ids_seq() == old(self).ids_seq(),
            final(self).key_width() == old(self).key_width(),
            match r {
                Result::Ok(()) => old(self).is_live(target) && diag_shape(
                    old(self).entries(),
                    final(self).entries(),
                    Seq::<usize>::empty(),
                    old(self).loc_spec(target) as usize,
                    Option::Some(cexp_of(cneg_of(rz_half_angle(theta)))),
                    cexp_of(rz_half_angle(theta)),
                ),
                Result::Err(e) => *final(self) == *old(self) && e == UsageError::UnknownId(target)
                    && !old(self).is_live(target),
            },
    {
        let r = self.mcrz(&[], theta, target);
        proof {
            if let Result::Err(e) = r {
                lemma_single_gate_err(*old(self), target, e);
            } else {
                assert(old(self).locs_spec(Seq::<usize>::empty()) =~= Seq::<usize>::empty());
            }
        }
        r
    }

    /// Multi-controlled generalized phase gate: controlled entries with the
    /// target bit set get their amplitude multiplied by `phase`, and are
    /// pruned when the product is negligible; every other entry survives
    /// whole.
    pub fn mcphase(&mut self, ctls: &[usize], phase: Complex64, target: usize) -> (r: Result<
        (),
        UsageError,
    >)
        requires
            old(self).inv(),
        ensures
            final(self).inv(),
            final(self).ids_seq() == old(self).ids_seq(),
            final(self).key_width() == old(self).key_width(),
            match r {
                Result::Ok(()) => old(self).op_ok(ctls@, target) && phase_shape(
                    old(self).entries(),
                    final(self).entries(),
                    old(self).locs_spec(ctls@),
                    old(self).loc_spec(target) as usize,
                    phase,
                ),
                Result::Err(e) => *final(self) == *old(self) && old(self).gate_err(
                    ctls@,
                    target,
                    e,
                ),
            },
    {
        let p = match self.resolve_for_gate(ctls, target) {
            Result::Ok(p) => p,
            Result::Err(e) => {
                return Result::Err(e);
            },
        };
        let (locs, tl) = p;
        self.apply_phase_gate(&locs, tl, phase);
        Result::Ok(())
    }
}

/// The whole-state effect of exchanging the bits at two locations in every
/// key: a basis permutation, so entry count and amplitudes are untouched.
pub open spec fn swap_map(s: Seq<(Seq<u64>, Complex64)>, a: usize, b: usize) -> Seq<
    (Seq<u64>, Complex64),
> {
    s.map_values(|e: (Seq<u64>, Complex64)| (swap_bits_spec(e.0, a as int, b as int), e.1))
}

/// What a release does to the sparse state, for some sampled outcome `res`:
/// the released qubit's bits are swapped to the last location, the state
/// collapses over `res` at that location, and if `res` is one the vacated
/// bit (constant one across the survivors) is cleared from every key;
/// otherwise it is already zero everywhere. The outcome itself is discarded.
pub open spec fn release_chain(
    pre: QuantumSim,
    post: QuantumSim,
    id: usize,
    res: bool,
    mid: Seq<(Seq<u64>, Complex64)>,
) -> bool {
    let last = (pre.qubit_count() - 1) as usize;
    let swapped = swap_map(pre.entries(), pre.loc_spec(id) as usize, last);
    &&& collapse_shape(swapped, mid, seq![last], res)
    &&& post.entries().len() == mid.len()
    &&& if res {
        forall|x: int|
            0 <= x < mid.len() ==> #[trigger] post.entries()[x] == (
                set_spec(mid[x].0, last as int, false),
                mid[x].1,
            )
    } else {
        post.entries() == mid
    }
}

pub open spec fn release_post(pre: QuantumSim, post: QuantumSim, id: usize) -> bool {
    exists|res: bool, mid: Seq<(Seq<u64>, Complex64)>| #[trigger] release_chain(
        pre,
        post,
        id,
        res,
        mid,
    )
}

impl QuantumSim {
    /// Rewrites every key so that the bits at the two locations are
    /// exchanged; entries where the bits already agree are left untouched,
    /// so the store keeps exactly the same size and amplitudes.
    #[verifier::loop_isolation(false)]
    pub(crate) fn swap_qubit_state(&mut self, q1: usize, q2: usize)
        requires
            old(self).inv(),
            q1 < old(self).qubit_count(),
            q2 < old(self).qubit_count(),
        ensures
            final(self).inv(),
            final(self).entries() == swap_map(old(self).entries(), q1, q2),
            final(self).ids_seq() == old(self).ids_seq(),
            final(self).key_width() == old(self).key_width(),
            final(self).rng == old(self).rng,
    {
        let ghost oe = old(self).entries();
        if q1 == q2 {
            proof {
                assert forall|x: int| 0 <= x < oe.len() implies swap_map(oe, q1, q2)[x]
                    == #[trigger] oe[x] by {
                    assert(swap_bits_spec(oe[x].0, q1 as int, q2 as int) == oe[x].0);
                }
                assert(self.entries() =~= swap_map(oe, q1, q2));
            }
            return ;
        }
        let ghost orig = self.state@;
        let ghost w = old(self).key_width();
        let mut i: usize = 0;
        while i < self.state.len()
            invariant
                self.ids@ == old(self).ids@,
                self.width == old(self).width,
                self.rng == old(self).rng,
                self.state@.len() == orig.len(),
                i <= orig.len(),
                forall|x: int| i <= x < orig.len() ==> self.state@[x] == orig[x],
                forall|x: int|
                    0 <= x < i ==> ((#[trigger] self.state@[x]).0@, self.state@[x].1) == (
                        swap_bits_spec(orig[x].0@, q1 as int, q2 as int),
                        orig[x].1,
                    ),
            decreases orig.len() - i,
        {
            proof {
                assert(oe[i as int] == (orig[i as int].0@, orig[i as int].1));
                assert(oe[i as int].0.len() == w);
            }
            let b1 = self.state[i].0.get_bit(q1);
            let b2 = self.state[i].0.get_bit(q2);
            if b1 != b2 {
                let k1 = self.state[i].0.with_bit(q1, !b1);
                proof {
                    lemma_flip_spec_bits(orig[i as int].0@, q1 as int);
                    assert(k1@ == flip_spec(orig[i as int].0@, q1 as int));
                    assert(bit_spec(k1@, q2 as int) == b2);
                }
                let k2 = k1.with_bit(q2, !b2);
                let v = self.state[i].1;
                proof {
                    assert(k2@ == flip_spec(k1@, q2 as int));
                }
                self.state.set(i, (k2, v));
            }
            i += 1;
        }
        proof {
            let ne = self.entries();
            assert forall|x: int| 0 <= x < oe.len() implies #[trigger] ne[x] == (
                swap_bits_spec(oe[x].0, q1 as int, q2 as int),
                oe[x].1,
            ) by {
                assert(ne[x] == (self.state@[x].0@, self.state@[x].1));
                assert(oe[x] == (orig[x].0@, orig[x].1));
            }
            assert(ne =~= swap_map(oe, q1, q2));
            assert forall|x: int| 0 <= x < ne.len() implies (#[trigger] ne[x]).0.len() == w by {
                lemma_swap_bits_spec(oe[x].0, q1 as int, q2 as int);
            }
            assert forall|x: int, j: int|
                #![trigger bit_spec(ne[x].0, j)]
                0 <= x < ne.len() && old(self).qubit_count() <= j implies !bit_spec(
                ne[x].0,
                j,
            ) by {
                lemma_swap_bits_spec(oe[x].0, q1 as int, q2 as int);
                assert(bit_spec(ne[x].0, j) == bit_spec(oe[x].0, j));
            }
            assert forall|x: int, y: int| 0 <= x < y < ne.len() implies (#[trigger] ne[x]).0 != (
            #[trigger] ne[y]).0 by {
                if ne[x].0 == ne[y].0 {
                    lemma_swap_bits_involution(oe[x].0, q1 as int, q2 as int);
                    lemma_swap_bits_involution(oe[y].0, q1 as int, q2 as int);
                }
            }
        }
    }

    /// Releases a qubit: its state is swapped to the last location, a real
    /// measurement collapses the store over a sampled outcome, the vacated
    /// bit (constant across survivors after the collapse) is cleared from
    /// every key, and the identifier is retired. The outcome is discarded.
    pub fn release(&mut self, id: usize) -> (r: Result<(), UsageError>)
        requires
            old(self).inv(),
        ensures
            final(self).inv(),
            match r {
                Result::Ok(()) => old(self).is_live(id) && final(self).qubit_count()
                    == old(self).qubit_count() - 1 && (forall|k: usize|
                    final(self).is_live(k) == (old(self).is_live(k) && k != id)) && release_post(
                    *old(self),
                    *final(self),
                    id,
                ),
                Result::Err(e) => *final(self) == *old(self) && e == UsageError::UnknownId(id)
                    && !old(self).is_live(id),
            },
    {
        let loc = match self.loc_of(id) {
            Option::Some(l) => l,
            Option::None => {
                return Result::Err(UsageError::UnknownId(id));
            },
        };
        proof {
            self.lemma_loc_unique(id, loc as int);
        }
        let n = self.ids.len();
        let last = n - 1;
        if loc != last {
            self.swap_qubit_state(loc, last);
            let last_id = self.ids[last];
            self.ids.set(loc, last_id);
            self.ids.set(last, id);
            proof {
                let nids = self.ids@;
                let oids = old(self).ids@;
                assert forall|x: int, y: int|
                    0 <= x < nids.len() && 0 <= y < nids.len() && x != y implies nids[x]
                    != nids[y] by {
                    let ox: int = if x == loc { last as int } else if x == last { loc as int } else { x };
                    let oy: int = if y == loc { last as int } else if y == last { loc as int } else { y };
                    assert(nids[x] == oids[ox]);
                    assert(nids[y] == oids[oy]);
                }
            }
        }
        let ghost swapped = *self;
        proof {
            assert(self.ids@[last as int] == id);
        }
        let mut locs: Vec<usize> = Vec::new();
        locs.push(last);
        let res = self.sample_and_collapse(&locs);
        let ghost collapsed = *self;
        proof {
            assert forall|x: int| 0 <= x < collapsed.entries().len() implies bit_spec(
                (#[trigger] collapsed.entries()[x]).0,
                last as int,
            ) == res by {
                assert(locs@ =~= seq![last]);
                assert(parity_spec(collapsed.entries()[x].0, locs@) == res);
                lemma_parity_single(collapsed.entries()[x].0, last);
            }
        }
        let _ = self.ids.pop();
        if res {
            let ghost orig = self.state@;
            proof {
                assert forall|x: int| 0 <= x < orig.len() implies bit_spec(
                    (#[trigger] orig[x]).0@,
                    last as int,
                ) == true by {
                    assert(collapsed.entries()[x] == (orig[x].0@, orig[x].1));
                    assert(bit_spec(collapsed.entries()[x].0, last as int) == res);
                }
            }
            let ghost w = self.width as nat;
            let mut i: usize = 0;
            while i < self.state.len()
                invariant
                    self.ids@ == collapsed.ids@.drop_last(),
                    self.width == collapsed.width,
                    self.state@.len() == orig.len(),
                    i <= orig.len(),
                    forall|x: int| i <= x < orig.len() ==> self.state@[x] == orig[x],
                    orig.len() == collapsed.entries().len(),
                    forall|x: int|
                        0 <= x < orig.len() ==> ((#[trigger] orig[x]).0@, orig[x].1)
                            == collapsed.entries()[x],
                    collapsed.inv(),
                    collapsed.qubit_count() == n,
                    n == last + 1,
                    last < 64 * w,
                    w == collapsed.key_width(),
                    forall|x: int|
                        0 <= x < orig.len() ==> bit_spec((#[trigger] orig[x]).0@, last as int)
                            == true,
                    forall|x: int|
                        0 <= x < i ==> (#[trigger] self.state@[x]).0@ == set_spec(
                            orig[x].0@,
                            last as int,
                            false,
                        ) && self.state@[x].1 == orig[x].1,
                decreases orig.len() - i,
            {
                proof {
                    assert(self.state@[i as int] == orig[i as int]);
                    assert(collapsed.entries()[i as int].0.len() == w);
                    assert(self.state@[i as int].0@.len() == w);
                }
                let nk = self.state[i].0.with_bit(last, false);
                let v = self.state[i].1;
                self.state.set(i, (nk, v));
                i += 1;
            }
            proof {
                let ce = collapsed.entries();
                let ne = self.entries();
                assert forall|x: int| 0 <= x < ne.len() implies (#[trigger] ne[x]).0 == set_spec(
                    ce[x].0,
                    last as int,
                    false,
                ) by {
                    assert(ne[x] == (self.state@[x].0@, self.state@[x].1));
                }
                assert forall|x: int, y: int| 0 <= x < y < ne.len() implies (#[trigger] ne[x]).0
                    != (#[trigger] ne[y]).0 by {
                    if ne[x].0 == ne[y].0 {
                        lemma_set_spec_set(ce[x].0, last as int, false, true);
                        lemma_set_spec_set(ce[y].0, last as int, false, true);
                        lemma_set_spec_same(ce[x].0, last as int);
                        lemma_set_spec_same(ce[y].0, last as int);
                        assert(set_spec(ne[x].0, last as int, true) == ce[x].0);
                        assert(set_spec(ne[y].0, last as int, true) == ce[y].0);
                    }
                }
                assert forall|x: int| 0 <= x < ne.len() implies (#[trigger] ne[x]).0.len() == w by {
                    lemma_set_spec_bits(ce[x].0, last as int, false);
                }
                assert forall|x: int, j: int|
                    #![trigger bit_spec(ne[x].0, j)]
                    0 <= x < ne.len() && last <= j implies !bit_spec(ne[x].0, j) by {
                    lemma_set_spec_bits(ce[x].0, last as int, false);
                    if j == last {
                        assert(!bit_spec(ne[x].0, j));
                    } else {
                        assert(bit_spec(ne[x].0, j) == bit_spec(ce[x].0, j));
                    }
                }
            }
        } else {
            proof {
                let ce = collapsed.entries();
                assert forall|x: int, j: int|
                    #![trigger bit_spec(self.entries()[x].0, j)]
                    0 <= x < self.entries().len() && last <= j implies !bit_spec(
                    self.entries()[x].0,
                    j,
                ) by {
                    assert(self.entries()[x] == ce[x]);
                    if j == last {
                        assert(bit_spec(ce[x].0, last as int) == false);
                    } else {
                        assert(!bit_spec(ce[x].0, j));
                    }
                }
            }
        }
        proof {
            let oids = old(self).ids@;
            let fids = self.ids@;
            assert(fids =~= collapsed.ids@.drop_last());
            if loc != last {
                assert(collapsed.ids@ =~= oids.update(loc as int, oids[last as int]).update(
                    last as int,
                    id,
                ));
                assert(fids =~= oids.update(loc as int, oids[last as int]).drop_last());
            } else {
                assert(fids =~= oids.drop_last());
            }
            assert forall|x: int, y: int|
                0 <= x < fids.len() && 0 <= y < fids.len() && x != y implies fids[x] != fids[y] by {
                assert(fids[x] == collapsed.ids@[x] && fids[y] == collapsed.ids@[y]);
            }
            assert forall|k: usize| self.is_live(k) == (old(self).is_live(k) && k != id) by {
                if self.is_live(k) {
                    let x = choose|x: int| 0 <= x < fids.len() && fids[x] == k;
                    assert(collapsed.ids@[x] == k);
                    let ox: int = if loc != last {
                        if x == loc { last as int } else { x }
                    } else {
                        x
                    };
                    assert(oids[ox] == k);
                    assert(old(self).is_live(k));
                    if k == id {
                        assert(oids[loc as int] == id);
                        assert(ox == loc as int);
                    }
                }
                if old(self).is_live(k) && k != id {
                    let x = choose|x: int| 0 <= x < oids.len() && oids[x] == k;
                    assert(x != loc);
                    if loc != last {
                        if x == last {
                            assert(fids[loc as int] == k);
                        } else {
                            assert(fids[x] == k);
                        }
                    } else {
                        assert(x != last);
                        assert(fids[x] == k);
                    }
                }
            }
            // The collapse/clear chain, witnessed by the sampled outcome and
            // the collapsed store.
            let sw = swap_map(old(self).entries(), loc, last);
            if loc == last {
                assert forall|x: int| 0 <= x < old(self).entries().len() implies #[trigger] sw[x]
                    == old(self).entries()[x] by {
                    assert(swap_bits_spec(old(self).entries()[x].0, loc as int, last as int)
                        == old(self).entries()[x].0);
                }
                assert(sw =~= old(self).entries());
            }
            assert(swapped.entries() == sw);
            assert(locs@ =~= seq![last]);
            assert(collapse_shape(sw, collapsed.entries(), seq![last], res));
            let mid = collapsed.entries();
            if res {
                assert forall|x: int| 0 <= x < mid.len() implies #[trigger] self.entries()[x] == (
                    set_spec(mid[x].0, last as int, false),
                    mid[x].1,
                ) by {
                    assert(self.entries()[x] == (self.state@[x].0@, self.state@[x].1));
                }
            } else {
                assert(self.entries() == mid);
            }
            assert(release_chain(*old(self), *self, id, res, mid));
            assert(release_post(*old(self), *self, id));
        }
        Result::Ok(())
    }
}

/// No stored entry has odd parity under the given locations.
pub open spec fn none_odd(s: Seq<(Seq<u64>, Complex64)>, locs: Seq<usize>) -> bool {
    forall|x: int| 0 <= x < s.len() ==> !parity_spec((#[trigger] s[x]).0, locs)
}

/// The probability mass on one side of a parity split: the left-to-right
/// sum, by the named complex addition, of the named squared magnitudes of
/// the entries whose parity under `locs` equals `val`, starting from the
/// embedded integer zero.
pub open spec fn mass_where(s: Seq<(Seq<u64>, Complex64)>, locs: Seq<usize>, val: bool) -> Complex64
    decreases s.len(),
{
    if s.len() == 0 {
        real_of(0)
    } else {
        let rest = mass_where(s.drop_last(), locs, val);
        if parity_spec(s.last().0, locs) == val {
            cadd_of(rest, cnorm_sqr_of(s.last().1))
        } else {
            rest
        }
    }
}

/// When no entry matches the parity side, its mass is exactly the embedded
/// integer zero.
pub proof fn lemma_mass_of_empty_side(s: Seq<(Seq<u64>, Complex64)>, locs: Seq<usize>, val: bool)
    requires
        forall|x: int| 0 <= x < s.len() ==> parity_spec((#[trigger] s[x]).0, locs) != val,
    ensures
        mass_where(s, locs, val) == real_of(0),
    decreases s.len(),
{
    if s.len() > 0 {
        assert(s.drop_last() =~= s.subrange(0, s.len() - 1));
        lemma_mass_of_empty_side(s.drop_last(), locs, val);
    }
}

/// Whether an entry is an old entry rescaled by `c`: its key is a stored
/// key and its amplitude is the named product of that key's old amplitude
/// with `c`.
pub open spec fn scaled_from(
    oe: Seq<(Seq<u64>, Complex64)>,
    e: (Seq<u64>, Complex64),
    c: Complex64,
) -> bool {
    exists|y: int| 0 <= y < oe.len() && e == ((#[trigger] oe[y]).0, cmul_of(oe[y].1, c))
}

/// The rescaling factor a collapse applies to the kept side: one over the
/// square root of the kept probability mass.
pub open spec fn collapse_scale(
    oe: Seq<(Seq<u64>, Complex64)>,
    locs: Seq<usize>,
    val: bool,
) -> Complex64 {
    cdiv_of(real_of(1), csqrt_of(mass_where(oe, locs, val)))
}

/// The shape of a collapse: exactly the entries whose parity under `locs`
/// equals the outcome survive, each with its amplitude rescaled by one over
/// the square root of the kept probability mass.
pub open spec fn collapse_shape(
    oe: Seq<(Seq<u64>, Complex64)>,
    ne: Seq<(Seq<u64>, Complex64)>,
    locs: Seq<usize>,
    val: bool,
) -> bool {
    &&& ne.len() <= oe.len()
    &&& forall|x: int|
        0 <= x < ne.len() ==> parity_spec((#[trigger] ne[x]).0, locs) == val && scaled_from(
            oe,
            ne[x],
            collapse_scale(oe, locs, val),
        )
    &&& forall|y: int|
        0 <= y < oe.len() && parity_spec((#[trigger] oe[y]).0, locs) == val ==> ne.contains(
            ((#[trigger] oe[y]).0, cmul_of(oe[y].1, collapse_scale(oe, locs, val))),
        )
}

impl QuantumSim {
    /// A measurement's identifier list is well-formed: duplicate-free, every
    /// entry live.
    pub open spec fn ids_ok(self, ids: Seq<usize>) -> bool {
        &&& no_dups(ids)
        &&& forall|i: int| 0 <= i < ids.len() ==> self.is_live(#[trigger] ids[i])
    }

    /// What a measurement's error says: the duplicate check runs first and
    /// reports the smallest identifier that appears twice; otherwise an
    /// unknown identifier names a listed qubit that is not live.
    pub open spec fn measure_err(self, ids: Seq<usize>, e: UsageError) -> bool {
        match e {
            UsageError::UnknownId(u) => no_dups(ids) && !self.is_live(u) && ids.contains(u),
            UsageError::DuplicateId(d) => is_dup_of(ids, d) && (forall|d2: usize|
                is_dup_of(ids, d2) ==> d <= d2),
        }
    }

    /// Resolves and checks a measurement's identifier list: the duplicate
    /// check first, then each identifier in order.
    fn resolve_for_measure(&self, list: &[usize]) -> (r: Result<Vec<usize>, UsageError>)
        requires
            self.inv(),
        ensures
            match r {
                Result::Ok(locs) => self.ids_ok(list@) && locs@ == self.locs_spec(list@)
                    && locs@.len() == list@.len() && (forall|i: int|
                    0 <= i < locs@.len() ==> (#[trigger] locs@[i]) < self.qubit_count()),
                Result::Err(e) => self.measure_err(list@, e),
            },
    {
        let mut idlist: Vec<usize> = Vec::new();
        let mut i: usize = 0;
        while i < list.len()
            invariant
                i <= list@.len(),
                idlist@ == list@.take(i as int),
            decreases list@.len() - i,
        {
            idlist.push(list[i]);
            proof {
                assert(idlist@ =~= list@.take(i + 1));
            }
            i += 1;
        }
        proof {
            assert(list@.take(list@.len() as int) =~= list@);
        }
        if let Option::Some(d) = Self::smallest_dup(&idlist) {
            return Result::Err(UsageError::DuplicateId(d));
        }
        self.resolve_list(list)
    }

    /// The sum of the squared magnitudes of the entries with odd parity
    /// under the given locations, computed left to right exactly as
    /// `mass_where` states it.
    fn check_joint_probability(&self, locs: &Vec<usize>) -> (r: Complex64)
        requires
            self.inv(),
            forall|i: int| 0 <= i < locs@.len() ==> (#[trigger] locs@[i]) < self.qubit_count(),
        ensures
            r == mass_where(self.entries(), locs@, true),
            none_odd(self.entries(), locs@) ==> r == real_of(0),
    {
        let mut acc = amp_from_u64(0);
        let mut i: usize = 0;
        while i < self.state.len()
            invariant
                i <= self.state@.len(),
                self.inv(),
                forall|x: int| 0 <= x < locs@.len() ==> (#[trigger] locs@[x]) < self.qubit_count(),
                acc == mass_where(self.entries().take(i as int), locs@, true),
            decreases self.state@.len() - i,
        {
            proof {
                assert(self.entries()[i as int] == (self.state@[i as int].0@, self.state@[i as int].1));
                assert(self.entries()[i as int].0.len() == self.key_width());
                let p = self.entries().take(i + 1);
                assert(p.last() == self.entries()[i as int]);
                assert(p.drop_last() =~= self.entries().take(i as int));
            }
            if self.state[i].0.parity_of(locs) {
                let ns = amp_norm_sqr(self.state[i].1);
                acc = amp_add(acc, ns);
            }
            i += 1;
        }
        proof {
            assert(self.entries().take(self.entries().len() as int) =~= self.entries());
            if none_odd(self.entries(), locs@) {
                lemma_mass_of_empty_side(self.entries(), locs@, true);
            }
        }
        acc
    }

    /// Checks the probability that a joint parity measurement over the given
    /// qubits yields one: the sum of the squared magnitudes of every stored
    /// entry with odd parity at their locations, returned as the real part
    /// of a complex number (the imaginary part is zero). When no entry has
    /// odd parity the result is exactly zero.
    pub fn joint_probability(&self, ids: &[usize]) -> (r: Result<Complex64, UsageError>)
        requires
            self.inv(),
        ensures
            match r {
                Result::Ok(p) => self.ids_ok(ids@) && p == mass_where(
                    self.entries(),
                    self.locs_spec(ids@),
                    true,
                ) && (none_odd(self.entries(), self.locs_spec(ids@)) ==> p == real_of(0)),
                Result::Err(e) => self.measure_err(ids@, e),
            },
    {
        let locs = match self.resolve_for_measure(ids) {
            Result::Ok(l) => l,
            Result::Err(e) => {
                return Result::Err(e);
            },
        };
        Result::Ok(self.check_joint_probability(&locs))
    }

    /// Retains exactly the entries whose parity under `locs` equals `val`,
    /// then rescales the surviving amplitudes by one over the square root of
    /// their kept probability mass.
    #[verifier::loop_isolation(false)]
    fn joint_collapse(&mut self, locs: &Vec<usize>, val: bool)
        requires
            old(self).inv(),
            forall|i: int| 0 <= i < locs@.len() ==> (#[trigger] locs@[i]) < old(self).qubit_count(),
        ensures
            final(self).inv(),
            collapse_shape(old(self).entries(), final(self).entries(), locs@, val),
            final(self).ids_seq() == old(self).ids_seq(),
            final(self).key_width() == old(self).key_width(),
            final(self).rng == old(self).rng,
    {
        let ghost orig = self.state@;
        let ghost oe = old(self).entries();
        let ghost w = old(self).key_width();
        let mut kept: Vec<(BasisIndex, Complex64)> = Vec::new();
        let ghost mut src: Seq<int> = Seq::empty();
        let mut denom = amp_from_u64(0);
        let mut i: usize = 0;
        while i < self.state.len()
            invariant
                i <= orig.len(),
                kept@.len() == src.len(),
                denom == mass_where(oe.take(i as int), locs@, val),
                forall|x: int| 0 <= x < src.len() ==> 0 <= #[trigger] src[x] < i,
                forall|x: int, y: int|
                    #![trigger src[x], src[y]]
                    0 <= x < y < src.len() ==> src[x] < src[y],
                forall|x: int|
                    0 <= x < kept@.len() ==> ((#[trigger] kept@[x]).0@, kept@[x].1) == (
                        orig[src[x]].0@,
                        orig[src[x]].1,
                    ),
                forall|x: int|
                    0 <= x < src.len() ==> parity_spec(orig[#[trigger] src[x]].0@, locs@) == val,
                forall|y: int|
                    0 <= y < i && parity_spec((#[trigger] orig[y]).0@, locs@) == val ==> has_src(
                        src,
                        y,
                    ),
            decreases orig.len() - i,
        {
            proof {
                assert(oe[i as int] == (orig[i as int].0@, orig[i as int].1));
                assert(oe[i as int].0.len() == w);
                let p = oe.take(i + 1);
                assert(p.last() == oe[i as int]);
                assert(p.drop_last() =~= oe.take(i as int));
            }
            if self.state[i].0.parity_of(locs) == val {
                let k = self.state[i].0.clone_key();
                let v = self.state[i].1;
                let ns = amp_norm_sqr(v);
                denom = amp_add(denom, ns);
                kept.push((k, v));
                proof {
                    let osrc = src;
                    src = src.push(i as int);
                    assert forall|y: int|
                        0 <= y < i + 1 && parity_spec((#[trigger] orig[y]).0@, locs@)
                            == val implies has_src(src, y) by {
                        if y == i {
                            assert(src[src.len() - 1] == y);
                        } else {
                            assert(has_src(osrc, y));
                            let x = choose|x: int| 0 <= x < osrc.len() && #[trigger] osrc[x] == y;
                            assert(src[x] == y);
                        }
                    }
                }
            }
            i += 1;
        }
        proof {
            assert(oe.take(oe.len() as int) =~= oe);
        }
        let scale = amp_div(amp_from_u64(1), amp_sqrt(denom));
        let ghost sc = collapse_scale(oe, locs@, val);
        let mut j: usize = 0;
        while j < kept.len()
            invariant
                j <= kept@.len(),
                kept@.len() == src.len(),
                scale == sc,
                forall|x: int| 0 <= x < src.len() ==> 0 <= #[trigger] src[x] < orig.len(),
                forall|x: int, y: int|
                    #![trigger src[x], src[y]]
                    0 <= x < y < src.len() ==> src[x] < src[y],
                forall|x: int|
                    0 <= x < src.len() ==> parity_spec(orig[#[trigger] src[x]].0@, locs@) == val,
                forall|x: int|
                    j <= x < kept@.len() ==> ((#[trigger] kept@[x]).0@, kept@[x].1) == (
                        orig[src[x]].0@,
                        orig[src[x]].1,
                    ),
                forall|x: int|
                    0 <= x < j ==> ((#[trigger] kept@[x]).0@, kept@[x].1) == (
                        orig[src[x]].0@,
                        cmul_of(orig[src[x]].1, sc),
                    ),
            decreases kept@.len() - j,
        {
            let k = kept[j].0.clone_key();
            let nv = amp_mul(kept[j].1, scale);
            kept.set(j, (k, nv));
            j += 1;
        }
        self.state = kept;
        proof {
            let ne = self.entries();
            lemma_strict_incr_bound(src, orig.len() as int);
            assert forall|x: int| 0 <= x < ne.len() implies parity_spec(
                (#[trigger] ne[x]).0,
                locs@,
            ) == val && scaled_from(oe, ne[x], sc) by {
                let y = src[x];
                assert(ne[x] == (self.state@[x].0@, self.state@[x].1));
                assert(oe[y] == (orig[y].0@, orig[y].1));
                assert(ne[x] == (oe[y].0, cmul_of(oe[y].1, sc)));
                assert(parity_spec(orig[y].0@, locs@) == val);
            }
            assert forall|y: int|
                0 <= y < oe.len() && parity_spec((#[trigger] oe[y]).0, locs@) == val implies ne
                .contains((oe[y].0, cmul_of(oe[y].1, sc))) by {
                assert(oe[y] == (orig[y].0@, orig[y].1));
                assert(has_src(src, y));
                let x = choose|x: int| 0 <= x < src.len() && #[trigger] src[x] == y;
                assert(ne[x] == (self.state@[x].0@, self.state@[x].1));
                assert(ne[x] == (oe[y].0, cmul_of(oe[y].1, sc)));
            }
            assert forall|x: int, y: int| 0 <= x < y < ne.len() implies (#[trigger] ne[x]).0 != (
            #[trigger] ne[y]).0 by {
                assert(src[x] < src[y]);
                assert(ne[x].0 == oe[src[x]].0 && ne[y].0 == oe[src[y]].0);
            }
            assert forall|x: int| 0 <= x < ne.len() implies (#[trigger] ne[x]).0.len() == w by {
                assert(ne[x].0 == oe[src[x]].0);
            }
            assert forall|x: int, j2: int|
                #![trigger bit_spec(ne[x].0, j2)]
                0 <= x < ne.len() && old(self).qubit_count() <= j2 implies !bit_spec(
                ne[x].0,
                j2,
            ) by {
                assert(ne[x].0 == oe[src[x]].0);
                assert(!bit_spec(oe[src[x]].0, j2));
            }
        }
    }

    /// Samples one outcome for a parity measurement at the given locations
    /// and collapses the state over it. When the odd side carries exactly
    /// zero mass, the outcome is certainly `false`: the sample is never
    /// below the embedded zero.
    fn sample_and_collapse(&mut self, locs: &Vec<usize>) -> (res: bool)
        requires
            old(self).inv(),
            forall|i: int| 0 <= i < locs@.len() ==> (#[trigger] locs@[i]) < old(self).qubit_count(),
        ensures
            final(self).inv(),
            collapse_shape(old(self).entries(), final(self).entries(), locs@, res),
            mass_where(old(self).entries(), locs@, true) == real_of(0) ==> res == false,
            final(self).ids_seq() == old(self).ids_seq(),
            final(self).key_width() == old(self).key_width(),
    {
        let prob = self.check_joint_probability(locs);
        let sample = sample_unit(&mut self.rng);
        let res = re_lt(sample, prob);
        self.joint_collapse(locs, res);
        res
    }

    /// Measures one qubit in the computational basis, collapsing the state
    /// over the sampled outcome: afterwards every stored key reads the
    /// outcome at the qubit's location. A qubit that certainly reads zero
    /// (no stored key has its bit set) measures `false`.
    pub fn measure(&mut self, id: usize) -> (r: Result<bool, UsageError>)
        requires
            old(self).inv(),
        ensures
            final(self).inv(),
            final(self).ids_seq() == old(self).ids_seq(),
            final(self).key_width() == old(self).key_width(),
            match r {
                Result::Ok(res) => old(self).is_live(id) && collapse_shape(
                    old(self).entries(),
                    final(self).entries(),
                    seq![old(self).loc_spec(id) as usize],
                    res,
                ) && (forall|x: int|
                    0 <= x < final(self).entries().len() ==> bit_spec(
                        (#[trigger] final(self).entries()[x]).0,
                        old(self).loc_spec(id),
                    ) == res) && (none_odd(
                    old(self).entries(),
                    seq![old(self).loc_spec(id) as usize],
                ) ==> res == false),
                Result::Err(e) => *final(self) == *old(self) && e == UsageError::UnknownId(id)
                    && !old(self).is_live(id),
            },
    {
        let loc = match self.loc_of(id) {
            Option::Some(l) => l,
            Option::None => {
                return Result::Err(UsageError::UnknownId(id));
            },
        };
        proof {
            self.lemma_loc_unique(id, loc as int);
        }
        let mut locs: Vec<usize> = Vec::new();
        locs.push(loc);
        let res = self.sample_and_collapse(&locs);
        proof {
            assert(locs@ =~= seq![loc]);
            assert forall|x: int| 0 <= x < self.entries().len() implies bit_spec(
                (#[trigger] self.entries()[x]).0,
                loc as int,
            ) == res by {
                assert(parity_spec(self.entries()[x].0, seq![loc]) == res);
                lemma_parity_single(self.entries()[x].0, loc);
            }
            if none_odd(old(self).entries(), seq![loc]) {
                lemma_mass_of_empty_side(old(self).entries(), locs@, true);
            }
        }
        Result::Ok(res)
    }

    /// Measures the joint parity of the given qubits, collapsing the state
    /// over the sampled outcome: afterwards every stored key has that parity
    /// at their locations.
    pub fn joint_measure(&mut self, ids: &[usize]) -> (r: Result<bool, UsageError>)
        requires
            old(self).inv(),
        ensures
            final(self).inv(),
            final(self).ids_seq() == old(self).ids_seq(),
            final(self).key_width() == old(self).key_width(),
            match r {
                Result::Ok(res) => old(self).ids_ok(ids@) && collapse_shape(
                    old(self).entries(),
                    final(self).entries(),
                    old(self).locs_spec(ids@),
                    res,
                ) && (none_odd(old(self).entries(), old(self).locs_spec(ids@)) ==> res == false),
                Result::Err(e) => *final(self) == *old(self) && old(self).measure_err(ids@, e),
            },
    {
        let locs = match self.resolve_for_measure(ids) {
            Result::Ok(l) => l,
            Result::Err(e) => {
                return Result::Err(e);
            },
        };
        let res = self.sample_and_collapse(&locs);
        proof {
            if none_odd(old(self).entries(), locs@) {
                lemma_mass_of_empty_side(old(self).entries(), locs@, true);
            }
        }
        Result::Ok(res)
    }
}

/// The entry views of a raw store.
pub open spec fn vlist(s: Seq<(BasisIndex, Complex64)>) -> Seq<(Seq<u64>, Complex64)> {
    s.map_values(|e: (BasisIndex, Complex64)| (e.0@, e.1))
}

/// The amplitude stored at a key; meaningful only when `key_source` holds
/// of that key and the store's keys are duplicate-free.
pub open spec fn val_at(oe: Seq<(Seq<u64>, Complex64)>, k: Seq<u64>) -> Complex64 {
    let y = choose|y: int| 0 <= y < oe.len() && (#[trigger] oe[y]).0 == k;
    oe[y].1
}

/// The amplitude a cross-entry merge gate produces at the key `k`, as a
/// function of the old store and the 2x2 coefficients: the combination,
/// over the named arithmetic, of the stored amplitudes of `k`'s pair (the
/// keys with the target bit forced to zero and to one), using the matrix
/// row that `k`'s own target bit selects. A pair member that is not stored
/// contributes nothing.
pub open spec fn merge_out(
    oe: Seq<(Seq<u64>, Complex64)>,
    k: Seq<u64>,
    tl: usize,
    m00: Complex64,
    m01: Complex64,
    m10: Complex64,
    m11: Complex64,
) -> Complex64 {
    let k0 = set_spec(k, tl as int, false);
    let k1 = set_spec(k, tl as int, true);
    if !bit_spec(k, tl as int) {
        if key_source(oe, k0) && key_source(oe, k1) {
            cadd_of(cmul_of(val_at(oe, k0), m00), cmul_of(val_at(oe, k1), m01))
        } else if key_source(oe, k0) {
            cmul_of(val_at(oe, k0), m00)
        } else {
            cmul_of(val_at(oe, k1), m01)
        }
    } else {
        if key_source(oe, k0) && key_source(oe, k1) {
            cadd_of(cmul_of(val_at(oe, k0), m10), cmul_of(val_at(oe, k1), m11))
        } else if key_source(oe, k1) {
            cmul_of(val_at(oe, k1), m11)
        } else {
            cmul_of(val_at(oe, k0), m10)
        }
    }
}

/// In a duplicate-free store, `val_at` reads exactly the stored amplitude.
pub proof fn lemma_val_at(oe: Seq<(Seq<u64>, Complex64)>, y: int)
    requires
        keys_distinct(oe),
        0 <= y < oe.len(),
    ensures
        key_source(oe, oe[y].0),
        val_at(oe, oe[y].0) == oe[y].1,
{
    assert(oe[y].0 == oe[y].0);
    let y2 = choose|y2: int| 0 <= y2 < oe.len() && (#[trigger] oe[y2]).0 == oe[y].0;
    assert(y2 == y);
}

/// The exact output of a cross-entry merge gate (Hadamard and the
/// single-axis rotations): entries failing the controls pass through whole,
/// in both directions; every controlled new entry's key comes from a stored
/// key or its flipped partner and its amplitude is exactly `merge_out` of
/// that key; and every touched pair (one visited from its zero-bit member,
/// or lacking a stored partner) emits each of its two keys whenever the
/// amplitude produced there survives the pruning threshold.
pub open spec fn merge_shape(
    oe: Seq<(Seq<u64>, Complex64)>,
    ne: Seq<(Seq<u64>, Complex64)>,
    cl: Seq<usize>,
    tl: usize,
    m00: Complex64,
    m01: Complex64,
    m10: Complex64,
    m11: Complex64,
) -> bool {
    &&& forall|x: int|
        0 <= x < ne.len() && !ctrls_sat((#[trigger] ne[x]).0, cl) ==> oe.contains(ne[x])
    &&& forall|x: int|
        0 <= x < ne.len() && ctrls_sat((#[trigger] ne[x]).0, cl) ==> (key_source(oe, ne[x].0)
            || key_source(oe, flip_spec(ne[x].0, tl as int))) && ne[x].1 == merge_out(
            oe,
            ne[x].0,
            tl,
            m00,
            m01,
            m10,
            m11,
        )
    &&& forall|y: int|
        0 <= y < oe.len() && !ctrls_sat((#[trigger] oe[y]).0, cl) ==> ne.contains(oe[y])
    &&& forall|y: int|
        0 <= y < oe.len() && ctrls_sat((#[trigger] oe[y]).0, cl) && (!bit_spec(oe[y].0, tl as int)
            || !key_source(oe, flip_spec(oe[y].0, tl as int))) ==> (!negligible_spec(
            merge_out(oe, set_spec(oe[y].0, tl as int, false), tl, m00, m01, m10, m11),
        ) ==> key_source(ne, set_spec(oe[y].0, tl as int, false))) && (!negligible_spec(
            merge_out(oe, set_spec(oe[y].0, tl as int, true), tl, m00, m01, m10, m11),
        ) ==> key_source(ne, set_spec(oe[y].0, tl as int, true)))
}

/// Inserts a (key, amplitude) pair into a raw store with map semantics: an
/// existing entry with the same key is overwritten, otherwise the pair is
/// appended. No other entry moves or changes.
fn upsert(st: &mut Vec<(BasisIndex, Complex64)>, k: BasisIndex, v: Complex64)
    ensures
        ({
            let os = vlist(old(st)@);
            let ns = vlist(final(st)@);
            &&& ns.contains((k@, v))
            &&& key_source(ns, k@)
            &&& keys_distinct(os) ==> forall|x: int|
                0 <= x < ns.len() ==> ((#[trigger] ns[x]) == (k@, v) || (os.contains(ns[x])
                    && ns[x].0 != k@))
            &&& forall|y: int|
                0 <= y < os.len() && (#[trigger] os[y]).0 != k@ ==> ns.contains(os[y])
            &&& forall|kk: Seq<u64>| #[trigger] key_source(os, kk) ==> key_source(ns, kk)
            &&& (keys_distinct(os) ==> keys_distinct(ns))
            &&& ns.len() <= os.len() + 1
        }),
{
    let ghost os = vlist(st@);
    let mut x: usize = 0;
    while x < st.len()
        invariant
            x <= st@.len(),
            st@ == old(st)@,
            os == vlist(st@),
            forall|y: int| 0 <= y < x ==> (#[trigger] os[y]).0 != k@,
        decreases st@.len() - x,
    {
        if st[x].0.eq_key(&k) {
            st.set(x, (k, v));
            proof {
                let ns = vlist(st@);
                assert(ns[x as int] == (k@, v));
                assert forall|y: int| 0 <= y < ns.len() && y != x implies #[trigger] ns[y]
                    == os[y] by {
                    assert(ns[y] == (st@[y].0@, st@[y].1));
                }
                assert forall|y: int|
                    0 <= y < os.len() && (#[trigger] os[y]).0 != k@ implies ns.contains(os[y]) by {
                    assert(os[x as int].0 == k@);
                    assert(y != x);
                    assert(ns[y] == os[y]);
                }
                assert forall|kk: Seq<u64>| #[trigger] key_source(os, kk) implies key_source(
                    ns,
                    kk,
                ) by {
                    let y = choose|y: int| 0 <= y < os.len() && (#[trigger] os[y]).0 == kk;
                    if y == x {
                        assert(os[y].0 == k@);
                        assert(ns[x as int].0 == kk);
                    } else {
                        assert(ns[y].0 == kk);
                    }
                }
                if keys_distinct(os) {
                    assert forall|a: int, b: int| 0 <= a < b < ns.len() implies (
                    #[trigger] ns[a]).0 != (#[trigger] ns[b]).0 by {
                        assert(ns[a].0 == os[a].0 && ns[b].0 == os[b].0);
                    }
                    assert forall|y: int| 0 <= y < ns.len() && y != x implies (#[trigger] ns[y]).0
                        != k@ by {
                        assert(ns[y].0 == os[y].0);
                        assert(os[x as int].0 == k@);
                    }
                }
            }
            return ;
        }
        x += 1;
    }
    st.push((k, v));
    proof {
        let ns = vlist(st@);
        assert(ns[ns.len() - 1] == (k@, v));
        assert forall|y: int| 0 <= y < os.len() implies #[trigger] ns[y] == os[y] by {
            assert(ns[y] == (st@[y].0@, st@[y].1));
        }
        assert forall|y: int| 0 <= y < os.len() implies ns.contains(#[trigger] os[y]) by {
            assert(ns[y] == os[y]);
        }
        assert forall|kk: Seq<u64>| #[trigger] key_source(os, kk) implies key_source(ns, kk) by {
            let y = choose|y: int| 0 <= y < os.len() && (#[trigger] os[y]).0 == kk;
            assert(ns[y].0 == kk);
        }
        if keys_distinct(os) {
            assert forall|a: int, b: int| 0 <= a < b < ns.len() implies (#[trigger] ns[a]).0 != (
            #[trigger] ns[b]).0 by {
                if b == ns.len() - 1 {
                    assert(os[a].0 != k@);
                } else {
                    assert(ns[a].0 == os[a].0 && ns[b].0 == os[b].0);
                }
            }
        }
    }
}

/// Finds the entry holding the given key, if one is stored.
fn find_key(st: &Vec<(BasisIndex, Complex64)>, k: &BasisIndex) -> (r: Option<usize>)
    ensures
        match r {
            Option::Some(j) => j < st@.len() && st@[j as int].0@ == k@,
            Option::None => forall|x: int| 0 <= x < st@.len() ==> (#[trigger] st@[x]).0@ != k@,
        },
{
    let mut x: usize = 0;
    while x < st.len()
        invariant
            x <= st@.len(),
            forall|y: int| 0 <= y < x ==> (#[trigger] st@[y]).0@ != k@,
        decreases st@.len() - x,
    {
        if st[x].0.eq_key(k) {
            return Option::Some(x);
        }
        x += 1;
    }
    Option::None
}

/// The cosine coefficient of a half-angle rotation, over named results.
pub open spec fn rotation_m00(theta: Complex64) -> Complex64 {
    ccos_of(cdiv_of(theta, real_of(2)))
}

/// The off-diagonal coefficient of a half-angle rotation: `-i sin(theta/2)`,
/// additionally rotated by `-i` for the sign-flipped (Ry) axis.
pub open spec fn rotation_m01(theta: Complex64, sign_flip: bool) -> Complex64 {
    let base = cmul_of(imag_of(1), cneg_of(csin_of(cdiv_of(theta, real_of(2)))));
    if sign_flip {
        cmul_of(base, cneg_of(imag_of(1)))
    } else {
        base
    }
}

/// The mirrored off-diagonal coefficient: negated exactly for the
/// sign-flipped axis.
pub open spec fn rotation_m10(theta: Complex64, sign_flip: bool) -> Complex64 {
    if sign_flip {
        cneg_of(rotation_m01(theta, sign_flip))
    } else {
        rotation_m01(theta, sign_flip)
    }
}

/// One insertion step of the merge engine preserves the running shape of
/// the output store: every entry is an untouched copy of an old entry or a
/// controlled key drawn from a touched pair carrying exactly the merged
/// amplitude, with the key width and range bounds intact.
proof fn lemma_merge_step(
    oe: Seq<(Seq<u64>, Complex64)>,
    np: Seq<(Seq<u64>, Complex64)>,
    nn: Seq<(Seq<u64>, Complex64)>,
    cl: Seq<usize>,
    tl: usize,
    w: nat,
    n: nat,
    kins: Seq<u64>,
    vins: Complex64,
    m00: Complex64,
    m01: Complex64,
    m10: Complex64,
    m11: Complex64,
)
    requires
        keys_distinct(np),
        forall|x: int|
            0 <= x < nn.len() ==> ((#[trigger] nn[x]) == (kins, vins) || (np.contains(nn[x])
                && nn[x].0 != kins)),
        oe.contains((kins, vins)) || (ctrls_sat(kins, cl) && (key_source(oe, kins) || key_source(
            oe,
            flip_spec(kins, tl as int),
        ))),
        ctrls_sat(kins, cl) ==> vins == merge_out(oe, kins, tl, m00, m01, m10, m11),
        kins.len() == w,
        forall|j: int| n <= j ==> !bit_spec(kins, j),
        forall|x: int| 0 <= x < np.len() && !ctrls_sat((#[trigger] np[x]).0, cl) ==> oe.contains(
            np[x],
        ),
        forall|x: int|
            0 <= x < np.len() && ctrls_sat((#[trigger] np[x]).0, cl) ==> (key_source(oe, np[x].0)
                || key_source(oe, flip_spec(np[x].0, tl as int))) && np[x].1 == merge_out(
                oe,
                np[x].0,
                tl,
                m00,
                m01,
                m10,
                m11,
            ),
        forall|x: int| 0 <= x < np.len() ==> (#[trigger] np[x]).0.len() == w,
        forall|x: int, j: int|
            #![trigger bit_spec(np[x].0, j)]
            0 <= x < np.len() && n <= j ==> !bit_spec(np[x].0, j),
    ensures
        forall|x: int| 0 <= x < nn.len() && !ctrls_sat((#[trigger] nn[x]).0, cl) ==> oe.contains(
            nn[x],
        ),
        forall|x: int|
            0 <= x < nn.len() && ctrls_sat((#[trigger] nn[x]).0, cl) ==> (key_source(oe, nn[x].0)
                || key_source(oe, flip_spec(nn[x].0, tl as int))) && nn[x].1 == merge_out(
                oe,
                nn[x].0,
                tl,
                m00,
                m01,
                m10,
                m11,
            ),
        forall|x: int| 0 <= x < nn.len() ==> (#[trigger] nn[x]).0.len() == w,
        forall|x: int, j: int|
            #![trigger bit_spec(nn[x].0, j)]
            0 <= x < nn.len() && n <= j ==> !bit_spec(nn[x].0, j),
{
    assert forall|x: int|
        0 <= x < nn.len() && !ctrls_sat((#[trigger] nn[x]).0, cl) implies oe.contains(nn[x]) by {
        if nn[x] == (kins, vins) {
            assert(oe.contains((kins, vins)));
        } else {
            let y = choose|y: int| 0 <= y < np.len() && #[trigger] np[y] == nn[x];
        }
    }
    assert forall|x: int|
        0 <= x < nn.len() && ctrls_sat((#[trigger] nn[x]).0, cl) implies (key_source(oe, nn[x].0)
        || key_source(oe, flip_spec(nn[x].0, tl as int))) && nn[x].1 == merge_out(
        oe,
        nn[x].0,
        tl,
        m00,
        m01,
        m10,
        m11,
    ) by {
        if nn[x] == (kins, vins) {
            if oe.contains((kins, vins)) {
                let y = choose|y: int| 0 <= y < oe.len() && #[trigger] oe[y] == (kins, vins);
                assert(oe[y].0 == kins);
                assert(key_source(oe, kins));
            }
        } else {
            let y = choose|y: int| 0 <= y < np.len() && #[trigger] np[y] == nn[x];
        }
    }
    assert forall|x: int| 0 <= x < nn.len() implies (#[trigger] nn[x]).0.len() == w by {
        if nn[x] != (kins, vins) {
            let y = choose|y: int| 0 <= y < np.len() && #[trigger] np[y] == nn[x];
        }
    }
    assert forall|x: int, j: int|
        #![trigger bit_spec(nn[x].0, j)]
        0 <= x < nn.len() && n <= j implies !bit_spec(nn[x].0, j) by {
        if nn[x] == (kins, vins) {
            assert(!bit_spec(kins, j));
        } else {
            let y = choose|y: int| 0 <= y < np.len() && #[trigger] np[y] == nn[x];
            assert(!bit_spec(np[y].0, j));
        }
    }
}

impl QuantumSim {
    /// Applies a controlled cross-entry transform with the 2x2 coefficients
    /// `m00, m01, m10, m11`, building a fresh store. Pairs of controlled
    /// entries that differ only in the target bit are merged once, from the
    /// zero-bit member; a controlled entry without a stored partner emits
    /// both members of its pair from its own amplitude alone; entries
    /// failing the controls are copied over whole; every produced amplitude
    /// is subject to the pruning policy.
    #[verifier::loop_isolation(false)]
    fn apply_merge(
        &mut self,
        ctl_locs: &Vec<usize>,
        tl: usize,
        m00: Complex64,
        m01: Complex64,
        m10: Complex64,
        m11: Complex64,
    )
        requires
            old(self).inv(),
            tl < old(self).qubit_count(),
            forall|i: int|
                0 <= i < ctl_locs@.len() ==> (#[trigger] ctl_locs@[i]) < old(self).qubit_count(),
            forall|i: int| 0 <= i < ctl_locs@.len() ==> (#[trigger] ctl_locs@[i]) != tl,
        ensures
            final(self).inv(),
            merge_shape(
                old(self).entries(),
                final(self).entries(),
                ctl_locs@,
                tl,
                m00,
                m01,
                m10,
                m11,
            ),
            final(self).ids_seq() == old(self).ids_seq(),
            final(self).key_width() == old(self).key_width(),
    {
        let ghost oe = old(self).entries();
        let ghost cl = ctl_locs@;
        let ghost w = old(self).key_width();
        let ghost n = old(self).qubit_count();
        proof {
            assert forall|i2: int| 0 <= i2 < cl.len() implies #[trigger] cl[i2] as int
                != tl as int by {
                assert(cl[i2] != tl);
            }
        }
        let mut out: Vec<(BasisIndex, Complex64)> = Vec::new();
        let mut i: usize = 0;
        while i < self.state.len()
            invariant
                i <= self.state@.len(),
                forall|x: int|
                    0 <= x < vlist(out@).len() && !ctrls_sat((#[trigger] vlist(out@)[x]).0, cl)
                        ==> oe.contains(vlist(out@)[x]),
                forall|x: int|
                    0 <= x < vlist(out@).len() && ctrls_sat((#[trigger] vlist(out@)[x]).0, cl)
                        ==> (key_source(oe, vlist(out@)[x].0) || key_source(
                        oe,
                        flip_spec(vlist(out@)[x].0, tl as int),
                    )) && vlist(out@)[x].1 == merge_out(
                        oe,
                        vlist(out@)[x].0,
                        tl,
                        m00,
                        m01,
                        m10,
                        m11,
                    ),
                forall|y: int|
                    0 <= y < i && !ctrls_sat((#[trigger] oe[y]).0, cl) ==> vlist(out@).contains(
                        oe[y],
                    ),
                forall|y: int|
                    0 <= y < i && ctrls_sat((#[trigger] oe[y]).0, cl) && (!bit_spec(
                        oe[y].0,
                        tl as int,
                    ) || !key_source(oe, flip_spec(oe[y].0, tl as int))) ==> (!negligible_spec(
                        merge_out(oe, set_spec(oe[y].0, tl as int, false), tl, m00, m01, m10, m11),
                    ) ==> key_source(vlist(out@), set_spec(oe[y].0, tl as int, false))) && (
                    !negligible_spec(
                        merge_out(oe, set_spec(oe[y].0, tl as int, true), tl, m00, m01, m10, m11),
                    ) ==> key_source(vlist(out@), set_spec(oe[y].0, tl as int, true))),
                keys_distinct(vlist(out@)),
                forall|x: int|
                    0 <= x < vlist(out@).len() ==> (#[trigger] vlist(out@)[x]).0.len() == w,
                forall|x: int, j: int|
                    #![trigger bit_spec(vlist(out@)[x].0, j)]
                    0 <= x < vlist(out@).len() && n <= j ==> !bit_spec(vlist(out@)[x].0, j),
            decreases self.state@.len() - i,
        {
            let ghost no0 = vlist(out@);
            proof {
                assert(oe[i as int] == (self.state@[i as int].0@, self.state@[i as int].1));
                assert(oe[i as int].0.len() == w);
            }
            let ghost k = self.state@[i as int].0@;
            let sat = self.state[i].0.sat_all(ctl_locs);
            if sat {
                let b = self.state[i].0.get_bit(tl);
                let kf = self.state[i].0.with_bit(tl, !b);
                proof {
                    assert(kf@ == flip_spec(k, tl as int));
                    lemma_flip_spec_bits(k, tl as int);
                    lemma_set_preserves_ctrls(k, tl as int, !b, cl);
                    assert(ctrls_sat(kf@, cl));
                    lemma_set_spec_same(k, tl as int);
                    assert(set_spec(k, tl as int, b) == k);
                    assert(set_spec(kf@, tl as int, b) == k) by {
                        lemma_set_spec_set(k, tl as int, !b, b);
                    }
                    assert(set_spec(kf@, tl as int, !b) == kf@) by {
                        assert(bit_spec(kf@, tl as int) == !b);
                        lemma_set_spec_same(kf@, tl as int);
                    }
                    assert(flip_spec(kf@, tl as int) == k) by {
                        assert(bit_spec(kf@, tl as int) == !b);
                        lemma_set_spec_set(k, tl as int, !b, b);
                    }
                    assert forall|j: int| n <= j implies !bit_spec(kf@, j) by {
                        assert(!bit_spec(k, j));
                    }
                    lemma_val_at(oe, i as int);
                    assert(val_at(oe, k) == oe[i as int].1);
                }
                let v = self.state[i].1;
                match find_key(&self.state, &kf) {
                    Option::None => {
                        proof {
                            assert forall|y: int| 0 <= y < oe.len() implies (#[trigger] oe[y]).0
                                != kf@ by {
                                assert(oe[y] == (self.state@[y].0@, self.state@[y].1));
                            }
                            if key_source(oe, kf@) {
                                let y = choose|y: int|
                                    0 <= y < oe.len() && (#[trigger] oe[y]).0 == kf@;
                                assert(false);
                            }
                        }
                        let c_same = if !b {
                            m00
                        } else {
                            m11
                        };
                        let c_flip = if !b {
                            m10
                        } else {
                            m01
                        };
                        let v_same = amp_mul(v, c_same);
                        let v_flip = amp_mul(v, c_flip);
                        proof {
                            assert(v_same == merge_out(oe, k, tl, m00, m01, m10, m11));
                            assert(v_flip == merge_out(oe, kf@, tl, m00, m01, m10, m11));
                        }
                        let keep_same = !is_negligible(v_same);
                        if keep_same {
                            let kc = self.state[i].0.clone_key();
                            upsert(&mut out, kc, v_same);
                            proof {
                                lemma_merge_step(
                                    oe,
                                    no0,
                                    vlist(out@),
                                    cl,
                                    tl,
                                    w,
                                    n,
                                    k,
                                    v_same,
                                    m00,
                                    m01,
                                    m10,
                                    m11,
                                );
                            }
                        }
                        let ghost no1 = vlist(out@);
                        let keep_flip = !is_negligible(v_flip);
                        if keep_flip {
                            upsert(&mut out, kf, v_flip);
                            proof {
                                lemma_merge_step(
                                    oe,
                                    no1,
                                    vlist(out@),
                                    cl,
                                    tl,
                                    w,
                                    n,
                                    kf@,
                                    v_flip,
                                    m00,
                                    m01,
                                    m10,
                                    m11,
                                );
                            }
                        }
                        proof {
                            let no2 = vlist(out@);
                            if keep_same {
                                assert(key_source(no1, k));
                                assert(key_source(no2, k));
                            }
                            if keep_flip {
                                assert(key_source(no2, kf@));
                            }
                            assert forall|y: int|
                                0 <= y < i + 1 && !ctrls_sat((#[trigger] oe[y]).0, cl) implies no2
                                .contains(oe[y]) by {
                                assert(y < i);
                                assert(no0.contains(oe[y]));
                                let x0 = choose|x0: int|
                                    0 <= x0 < no0.len() && #[trigger] no0[x0] == oe[y];
                                assert(no0[x0].0 != k);
                                assert(no1.contains(no0[x0]));
                                let x1 = choose|x1: int|
                                    0 <= x1 < no1.len() && #[trigger] no1[x1] == oe[y];
                                assert(no1[x1].0 != kf@);
                                assert(no2.contains(no1[x1]));
                            }
                            assert forall|y: int|
                                0 <= y < i + 1 && ctrls_sat((#[trigger] oe[y]).0, cl) && (
                                !bit_spec(oe[y].0, tl as int) || !key_source(
                                    oe,
                                    flip_spec(oe[y].0, tl as int),
                                )) implies (!negligible_spec(
                                merge_out(
                                    oe,
                                    set_spec(oe[y].0, tl as int, false),
                                    tl,
                                    m00,
                                    m01,
                                    m10,
                                    m11,
                                ),
                            ) ==> key_source(no2, set_spec(oe[y].0, tl as int, false))) && (
                            !negligible_spec(
                                merge_out(
                                    oe,
                                    set_spec(oe[y].0, tl as int, true),
                                    tl,
                                    m00,
                                    m01,
                                    m10,
                                    m11,
                                ),
                            ) ==> key_source(no2, set_spec(oe[y].0, tl as int, true))) by {
                                if y < i {
                                    assert(key_source(no0, set_spec(oe[y].0, tl as int, false))
                                        ==> key_source(no1, set_spec(oe[y].0, tl as int, false)));
                                    assert(key_source(no1, set_spec(oe[y].0, tl as int, false))
                                        ==> key_source(no2, set_spec(oe[y].0, tl as int, false)));
                                    assert(key_source(no0, set_spec(oe[y].0, tl as int, true))
                                        ==> key_source(no1, set_spec(oe[y].0, tl as int, true)));
                                    assert(key_source(no1, set_spec(oe[y].0, tl as int, true))
                                        ==> key_source(no2, set_spec(oe[y].0, tl as int, true)));
                                } else {
                                    if b {
                                        assert(set_spec(k, tl as int, true) == k);
                                        assert(set_spec(k, tl as int, false) == kf@);
                                    } else {
                                        assert(set_spec(k, tl as int, false) == k);
                                        assert(set_spec(k, tl as int, true) == kf@);
                                    }
                                }
                            }
                        }
                    },
                    Option::Some(pj) => {
                        proof {
                            assert(oe[pj as int] == (self.state@[pj as int].0@, self.state@[pj as int].1));
                            assert(oe[pj as int].0 == kf@);
                            lemma_val_at(oe, pj as int);
                            assert(key_source(oe, kf@));
                            assert(val_at(oe, kf@) == oe[pj as int].1);
                            assert(key_source(oe, flip_spec(k, tl as int)));
                        }
                        if !b {
                            let fv = self.state[pj].1;
                            let o0 = amp_add(amp_mul(v, m00), amp_mul(fv, m01));
                            let o1 = amp_add(amp_mul(v, m10), amp_mul(fv, m11));
                            proof {
                                assert(o0 == merge_out(oe, k, tl, m00, m01, m10, m11));
                                assert(o1 == merge_out(oe, kf@, tl, m00, m01, m10, m11));
                            }
                            let keep0 = !is_negligible(o0);
                            if keep0 {
                                let kc = self.state[i].0.clone_key();
                                upsert(&mut out, kc, o0);
                                proof {
                                    lemma_merge_step(
                                        oe,
                                        no0,
                                        vlist(out@),
                                        cl,
                                        tl,
                                        w,
                                        n,
                                        k,
                                        o0,
                                        m00,
                                        m01,
                                        m10,
                                        m11,
                                    );
                                }
                            }
                            let ghost no1 = vlist(out@);
                            let keep1 = !is_negligible(o1);
                            if keep1 {
                                upsert(&mut out, kf, o1);
                                proof {
                                    lemma_merge_step(
                                        oe,
                                        no1,
                                        vlist(out@),
                                        cl,
                                        tl,
                                        w,
                                        n,
                                        kf@,
                                        o1,
                                        m00,
                                        m01,
                                        m10,
                                        m11,
                                    );
                                }
                            }
                            proof {
                                let no2 = vlist(out@);
                                if keep0 {
                                    assert(key_source(no1, k));
                                    assert(key_source(no2, k));
                                }
                                if keep1 {
                                    assert(key_source(no2, kf@));
                                }
                                assert forall|y: int|
                                    0 <= y < i + 1 && !ctrls_sat((#[trigger] oe[y]).0, cl) implies
                                    no2.contains(oe[y]) by {
                                    assert(y < i);
                                    assert(no0.contains(oe[y]));
                                    let x0 = choose|x0: int|
                                        0 <= x0 < no0.len() && #[trigger] no0[x0] == oe[y];
                                    assert(no0[x0].0 != k);
                                    assert(no1.contains(no0[x0]));
                                    let x1 = choose|x1: int|
                                        0 <= x1 < no1.len() && #[trigger] no1[x1] == oe[y];
                                    assert(no1[x1].0 != kf@);
                                    assert(no2.contains(no1[x1]));
                                }
                                assert forall|y: int|
                                    0 <= y < i + 1 && ctrls_sat((#[trigger] oe[y]).0, cl) && (
                                    !bit_spec(oe[y].0, tl as int) || !key_source(
                                        oe,
                                        flip_spec(oe[y].0, tl as int),
                                    )) implies (!negligible_spec(
                                    merge_out(
                                        oe,
                                        set_spec(oe[y].0, tl as int, false),
                                        tl,
                                        m00,
                                        m01,
                                        m10,
                                        m11,
                                    ),
                                ) ==> key_source(no2, set_spec(oe[y].0, tl as int, false))) && (
                                !negligible_spec(
                                    merge_out(
                                        oe,
                                        set_spec(oe[y].0, tl as int, true),
                                        tl,
                                        m00,
                                        m01,
                                        m10,
                                        m11,
                                    ),
                                ) ==> key_source(no2, set_spec(oe[y].0, tl as int, true))) by {
                                    if y < i {
                                        assert(key_source(no0, set_spec(oe[y].0, tl as int, false))
                                            ==> key_source(
                                            no1,
                                            set_spec(oe[y].0, tl as int, false),
                                        ));
                                        assert(key_source(no1, set_spec(oe[y].0, tl as int, false))
                                            ==> key_source(
                                            no2,
                                            set_spec(oe[y].0, tl as int, false),
                                        ));
                                        assert(key_source(no0, set_spec(oe[y].0, tl as int, true))
                                            ==> key_source(
                                            no1,
                                            set_spec(oe[y].0, tl as int, true),
                                        ));
                                        assert(key_source(no1, set_spec(oe[y].0, tl as int, true))
                                            ==> key_source(
                                            no2,
                                            set_spec(oe[y].0, tl as int, true),
                                        ));
                                    } else {
                                        assert(set_spec(k, tl as int, false) == k);
                                        assert(set_spec(k, tl as int, true) == kf@);
                                    }
                                }
                            }
                        } else {
                            proof {
                                let no2 = vlist(out@);
                                assert forall|y: int|
                                    0 <= y < i + 1 && !ctrls_sat((#[trigger] oe[y]).0, cl) implies
                                    no2.contains(oe[y]) by {
                                    assert(y < i);
                                }
                                assert forall|y: int|
                                    0 <= y < i + 1 && ctrls_sat((#[trigger] oe[y]).0, cl) && (
                                    !bit_spec(oe[y].0, tl as int) || !key_source(
                                        oe,
                                        flip_spec(oe[y].0, tl as int),
                                    )) implies (!negligible_spec(
                                    merge_out(
                                        oe,
                                        set_spec(oe[y].0, tl as int, false),
                                        tl,
                                        m00,
                                        m01,
                                        m10,
                                        m11,
                                    ),
                                ) ==> key_source(no2, set_spec(oe[y].0, tl as int, false))) && (
                                !negligible_spec(
                                    merge_out(
                                        oe,
                                        set_spec(oe[y].0, tl as int, true),
                                        tl,
                                        m00,
                                        m01,
                                        m10,
                                        m11,
                                    ),
                                ) ==> key_source(no2, set_spec(oe[y].0, tl as int, true))) by {
                                    assert(y < i);
                                }
                            }
                        }
                    },
                }
            } else {
                let kc = self.state[i].0.clone_key();
                let v = self.state[i].1;
                upsert(&mut out, kc, v);
                proof {
                    let no1 = vlist(out@);
                    assert((k, v) == oe[i as int]);
                    assert(oe.contains((k, v)));
                    lemma_merge_step(oe, no0, no1, cl, tl, w, n, k, v, m00, m01, m10, m11);
                    assert(no1.contains(oe[i as int]));
                    assert forall|y: int|
                        0 <= y < i + 1 && !ctrls_sat((#[trigger] oe[y]).0, cl) implies no1.contains(
                        oe[y],
                    ) by {
                        if y < i {
                            assert(no0.contains(oe[y]));
                            let x0 = choose|x0: int|
                                0 <= x0 < no0.len() && #[trigger] no0[x0] == oe[y];
                            assert(no0[x0].0 != k);
                            assert(no1.contains(no0[x0]));
                        }
                    }
                    assert forall|y: int|
                        0 <= y < i + 1 && ctrls_sat((#[trigger] oe[y]).0, cl) && (!bit_spec(
                            oe[y].0,
                            tl as int,
                        ) || !key_source(oe, flip_spec(oe[y].0, tl as int))) implies (
                    !negligible_spec(
                        merge_out(oe, set_spec(oe[y].0, tl as int, false), tl, m00, m01, m10, m11),
                    ) ==> key_source(no1, set_spec(oe[y].0, tl as int, false))) && (
                    !negligible_spec(
                        merge_out(oe, set_spec(oe[y].0, tl as int, true), tl, m00, m01, m10, m11),
                    ) ==> key_source(no1, set_spec(oe[y].0, tl as int, true))) by {
                        assert(y < i);
                        assert(key_source(no0, set_spec(oe[y].0, tl as int, false)) ==> key_source(
                            no1,
                            set_spec(oe[y].0, tl as int, false),
                        ));
                        assert(key_source(no0, set_spec(oe[y].0, tl as int, true)) ==> key_source(
                            no1,
                            set_spec(oe[y].0, tl as int, true),
                        ));
                    }
                }
            }
            i += 1;
        }
        self.state = out;
        proof {
            assert(self.entries() == vlist(self.state@));
        }
    }
}

impl QuantumSim {
    /// Multi-controlled Hadamard gate: merges each controlled pair of basis
    /// states that differ only in the target bit with equal weights
    /// `1/sqrt(2)` and a negated one-one matrix entry, the exact amplitudes
    /// being pinned by `merge_out` over the named arithmetic.
    pub fn mch(&mut self, ctls: &[usize], target: usize) -> (r: Result<(), UsageError>)
        requires
            old(self).inv(),
        ensures
            final(self).inv(),
            final(self).ids_seq() == old(self).ids_seq(),
            final(self).key_width() == old(self).key_width(),
            match r {
                Result::Ok(()) => old(self).op_ok(ctls@, target) && merge_shape(
                    old(self).entries(),
                    final(self).entries(),
                    old(self).locs_spec(ctls@),
                    old(self).loc_spec(target) as usize,
                    cdiv_of(real_of(1), csqrt_of(real_of(2))),
                    cdiv_of(real_of(1), csqrt_of(real_of(2))),
                    cdiv_of(real_of(1), csqrt_of(real_of(2))),
                    cneg_of(cdiv_of(real_of(1), csqrt_of(real_of(2)))),
                ),
                Result::Err(e) => *final(self) == *old(self) && old(self).gate_err(
                    ctls@,
                    target,
                    e,
                ),
            },
    {
        let p = match self.resolve_for_gate(ctls, target) {
            Result::Ok(p) => p,
            Result::Err(e) => {
                return Result::Err(e);
            },
        };
        let (locs, tl) = p;
        let f = amp_div(amp_from_u64(1), amp_sqrt(amp_from_u64(2)));
        self.apply_merge(&locs, tl, f, f, f, amp_neg(f));
        Result::Ok(())
    }

    /// Single-qubit Hadamard gate.
    pub fn h(&mut self, target: usize) -> (r: Result<(), UsageError>)
        requires
            old(self).inv(),
        ensures
            final(self).inv(),
            final(self).ids_seq() == old(self).ids_seq(),
            final(self).key_width() == old(self).key_width(),
            match r {
                Result::Ok(()) => old(self).is_live(target) && merge_shape(
                    old(self).entries(),
                    final(self).entries(),
                    Seq::<usize>::empty(),
                    old(self).loc_spec(target) as usize,
                    cdiv_of(real_of(1), csqrt_of(real_of(2))),
                    cdiv_of(real_of(1), csqrt_of(real_of(2))),
                    cdiv_of(real_of(1), csqrt_of(real_of(2))),
                    cneg_of(cdiv_of(real_of(1), csqrt_of(real_of(2)))),
                ),
                Result::Err(e) => *final(self) == *old(self) && e == UsageError::UnknownId(target)
                    && !old(self).is_live(target),
            },
    {
        let r = self.mch(&[], target);
        proof {
            if let Result::Err(e) = r {
                lemma_single_gate_err(*old(self), target, e);
            } else {
                assert(old(self).locs_spec(Seq::<usize>::empty()) =~= Seq::<usize>::empty());
            }
        }
        r
    }

    /// Shared body of the single-axis rotations. The operands are validated
    /// first; then degenerate angles take shortcuts: a rotation whose cosine
    /// term is negligible is a pure Pauli flip, one whose off-diagonal term
    /// is negligible is the identity and leaves the state untouched.
    fn mc_rotation(&mut self, ctls: &[usize], theta: Complex64, target: usize, sign_flip: bool) -> (r:
        Result<(), UsageError>)
        requires
            old(self).inv(),
        ensures
            final(self).inv(),
            final(self).ids_seq() == old(self).ids_seq(),
            final(self).key_width() == old(self).key_width(),
            match r {
                Result::Ok(()) => old(self).op_ok(ctls@, target) && rotation_post(
                    *old(self),
                    *final(self),
                    ctls@,
                    target,
                    theta,
                    sign_flip,
                ),
                Result::Err(e) => *final(self) == *old(self) && old(self).gate_err(
                    ctls@,
                    target,
                    e,
                ),
            },
    {
        let p = match self.resolve_for_gate(ctls, target) {
            Result::Ok(p) => p,
            Result::Err(e) => {
                return Result::Err(e);
            },
        };
        let (locs, tl) = p;
        let half = amp_div(theta, amp_from_u64(2));
        let m00 = amp_cos(half);
        let m01_base = amp_mul(amp_i(), amp_neg(amp_sin(half)));
        let m01 = if sign_flip {
            amp_mul(m01_base, amp_neg(amp_i()))
        } else {
            m01_base
        };
        if is_negligible(m00) {
            let r = if sign_flip {
                self.mcy(ctls, target)
            } else {
                self.mcx(ctls, target)
            };
            proof {
                if let Result::Err(e) = r {
                    match e {
                        UsageError::UnknownId(u) => {
                            assert(old(self).is_live(u));
                        },
                        UsageError::DuplicateId(d) => {
                            assert(is_dup_of(ctls@.push(target), d));
                        },
                    }
                    assert(false);
                }
                if !sign_flip {
                    if let Result::Ok(()) = r {
                        let oe = old(self).entries();
                        let ne = self.entries();
                        let cle = old(self).locs_spec(ctls@);
                        let tle = old(self).loc_spec(target) as usize;
                        assert forall|x: int| 0 <= x < oe.len() implies (#[trigger] ne[x]).0
                            == flip_entry(oe[x], cle, tle).0 && (!ctrls_sat(oe[x].0, cle) ==> ne[x]
                            == oe[x]) && (ctrls_sat(oe[x].0, cle) ==> ne[x].1 == oe[x].1) by {
                            assert(ne[x] == flip_entry(oe[x], cle, tle));
                        }
                    }
                }
            }
            return r;
        }
        if is_negligible(m01) {
            return Result::Ok(());
        }
        let m10 = if sign_flip {
            amp_neg(m01)
        } else {
            m01
        };
        self.apply_merge(&locs, tl, m00, m01, m10, m00);
        Result::Ok(())
    }

    /// Multi-controlled Rx gate; the angle rides in the real part of
    /// `theta`.
    pub fn mcrx(&mut self, ctls: &[usize], theta: Complex64, target: usize) -> (r: Result<
        (),
        UsageError,
    >)
        requires
            old(self).inv(),
        ensures
            final(self).inv(),
            final(self).ids_seq() == old(self).ids_seq(),
            final(self).key_width() == old(self).key_width(),
            match r {
                Result::Ok(()) => old(self).op_ok(ctls@, target) && rotation_post(
                    *old(self),
                    *final(self),
                    ctls@,
                    target,
                    theta,
                    false,
                ),
                Result::Err(e) => *final(self) == *old(self) && old(self).gate_err(
                    ctls@,
                    target,
                    e,
                ),
            },
    {
        self.mc_rotation(ctls, theta, target, false)
    }

    /// Multi-controlled Ry gate; the angle rides in the real part of
    /// `theta`.
    pub fn mcry(&mut self, ctls: &[usize], theta: Complex64, target: usize) -> (r: Result<
        (),
        UsageError,
    >)
        requires
            old(self).inv(),
        ensures
            final(self).inv(),
            final(self).ids_seq() == old(self).ids_seq(),
            final(self).key_width() == old(self).key_width(),
            match r {
                Result::Ok(()) => old(self).op_ok(ctls@, target) && rotation_post(
                    *old(self),
                    *final(self),
                    ctls@,
                    target,
                    theta,
                    true,
                ),
                Result::Err(e) => *final(self) == *old(self) && old(self).gate_err(
                    ctls@,
                    target,
                    e,
                ),
            },
    {
        self.mc_rotation(ctls, theta, target, true)
    }

    /// Single-qubit Rx gate; the angle rides in the real part of `theta`.
    pub fn rx(&mut self, theta: Complex64, target: usize) -> (r: Result<(), UsageError>)
        requires
            old(self).inv(),
        ensures
            final(self).inv(),
            final(self).ids_seq() == old(self).ids_seq(),
            final(self).key_width() == old(self).key_width(),
            match r {
                Result::Ok(()) => old(self).is_live(target) && rotation_post(
                    *old(self),
                    *final(self),
                    Seq::<usize>::empty(),
                    target,
                    theta,
                    false,
                ),
                Result::Err(e) => *final(self) == *old(self) && e == UsageError::UnknownId(target)
                    && !old(self).is_live(target),
            },
    {
        let es: &[usize] = &[];
        let r = self.mcrx(es, theta, target);
        proof {
            if let Result::Err(e) = r {
                lemma_single_gate_err(*old(self), target, e);
            } else {
                assert(es@ =~= Seq::<usize>::empty());
            }
        }
        r
    }

    /// Single-qubit Ry gate; the angle rides in the real part of `theta`.
    pub fn ry(&mut self, theta: Complex64, target: usize) -> (r: Result<(), UsageError>)
        requires
            old(self).inv(),
        ensures
            final(self).inv(),
            final(self).ids_seq() == old(self).ids_seq(),
            final(self).key_width() == old(self).key_width(),
            match r {
                Result::Ok(()) => old(self).is_live(target) && rotation_post(
                    *old(self),
                    *final(self),
                    Seq::<usize>::empty(),
                    target,
                    theta,
                    true,
                ),
                Result::Err(e) => *final(self) == *old(self) && e == UsageError::UnknownId(target)
                    && !old(self).is_live(target),
            },
    {
        let es: &[usize] = &[];
        let r = self.mcry(es, theta, target);
        proof {
            if let Result::Err(e) = r {
                lemma_single_gate_err(*old(self), target, e);
            } else {
                assert(es@ =~= Seq::<usize>::empty());
            }
        }
        r
    }
}

/// What a single-axis rotation did, decided by its named coefficients: a
/// negligible cosine term makes it a pure Pauli flip (X, or Y with the
/// `±i` factors); otherwise a negligible off-diagonal term makes it the
/// identity and the state is untouched; otherwise it is the cross-entry
/// merge with the rotation's matrix.
pub open spec fn rotation_post(
    pre: QuantumSim,
    post: QuantumSim,
    ctls: Seq<usize>,
    target: usize,
    theta: Complex64,
    sign_flip: bool,
) -> bool {
    let cl = pre.locs_spec(ctls);
    let tl = pre.loc_spec(target) as usize;
    let m00 = rotation_m00(theta);
    let m01 = rotation_m01(theta, sign_flip);
    if negligible_spec(m00) {
        if sign_flip {
            flip_phase_shape(
                pre.entries(),
                post.entries(),
                cl,
                tl,
                cneg_of(imag_of(1)),
                imag_of(1),
            )
        } else {
            post.entries() == flip_map(pre.entries(), cl, tl)
        }
    } else if negligible_spec(m01) {
        post == pre
    } else {
        merge_shape(
            pre.entries(),
            post.entries(),
            cl,
            tl,
            m00,
            m01,
            rotation_m10(theta, sign_flip),
            m00,
        )
    }
}

/// A gate with no controls can only fail on an unknown target.
proof fn lemma_single_gate_err(sim: QuantumSim, target: usize, e: UsageError)
    requires
        sim.gate_err(Seq::<usize>::empty(), target, e),
    ensures
        e == UsageError::UnknownId(target),
        !sim.is_live(target),
{
    let es = Seq::<usize>::empty();
    match e {
        UsageError::UnknownId(u) => {
            if es.contains(u) {
                let i = choose|i: int| 0 <= i < es.len() && es[i] == u;
                assert(false);
            }
        },
        UsageError::DuplicateId(d) => {
            assert(is_dup_of(es.push(target), d));
            let (i, j): (int, int) = choose|i: int, j: int|
                #![trigger es.push(target)[i], es.push(target)[j]]
                0 <= i < j < es.push(target).len() && es.push(target)[i] == d && es.push(target)[j]
                    == d;
            assert(false);
        },
    }
}

/// A strictly increasing sequence of indices drawn from `[0, n)` has at most
/// `n` elements.
proof fn lemma_strict_incr_bound(src: Seq<int>, n: int)
    requires
        0 <= n,
        forall|x: int| 0 <= x < src.len() ==> 0 <= #[trigger] src[x] < n,
        forall|x: int, y: int| #![trigger src[x], src[y]] 0 <= x < y < src.len() ==> src[x] < src[y],
    ensures
        src.len() <= n,
{
    if src.len() > n {
        lemma_incr_at_least(src, src.len() as int - 1);
        assert(src[src.len() - 1] >= src.len() - 1);
    }
}

/// In a strictly increasing sequence of non-negative integers, the element
/// at position `k` is at least `k`.
proof fn lemma_incr_at_least(src: Seq<int>, k: int)
    requires
        0 <= k < src.len(),
        forall|x: int| 0 <= x < src.len() ==> 0 <= #[trigger] src[x],
        forall|x: int, y: int| #![trigger src[x], src[y]] 0 <= x < y < src.len() ==> src[x] < src[y],
    ensures
        src[k] >= k,
    decreases k,
{
    if k > 0 {
        lemma_incr_at_least(src, k - 1);
        assert(src[k - 1] < src[k]);
    }
}

/// The relabeling a dump applies, witnessed by the map `sig` from old to
/// new internal locations: a permutation of the locations under which both
/// the identifier table and every key's bits are transported, entry by
/// entry, with amplitudes untouched.
pub open spec fn relabel_chain(pre: QuantumSim, post: QuantumSim, sig: Seq<usize>) -> bool {
    &&& sig.len() == pre.qubit_count()
    &&& forall|l: int| 0 <= l < sig.len() ==> (#[trigger] sig[l]) < sig.len()
    &&& forall|l1: int, l2: int|
        #![trigger sig[l1], sig[l2]]
        0 <= l1 < l2 < sig.len() ==> sig[l1] != sig[l2]
    &&& forall|l: int|
        0 <= l < sig.len() ==> post.ids_seq()[#[trigger] sig[l] as int] == pre.ids_seq()[l]
    &&& post.entries().len() == pre.entries().len()
    &&& forall|x: int|
        0 <= x < pre.entries().len() ==> (#[trigger] post.entries()[x]).1 == pre.entries()[x].1
    &&& forall|x: int, l: int|
        #![trigger bit_spec(pre.entries()[x].0, l)]
        0 <= x < pre.entries().len() && 0 <= l < sig.len() ==> bit_spec(
            post.entries()[x].0,
            sig[l] as int,
        ) == bit_spec(pre.entries()[x].0, l)
}

/// A dump relabels: some permutation of the internal locations transports
/// the identifier table and every key, entry by entry.
pub open spec fn relabeled(pre: QuantumSim, post: QuantumSim) -> bool {
    exists|sig: Seq<usize>| #[trigger] relabel_chain(pre, post, sig)
}

impl QuantumSim {
    /// Reorders internal locations so that ascending identifiers occupy
    /// ascending locations (a side-effecting relabeling, applied through
    /// basis swaps), then returns every stored entry sorted by ascending
    /// basis index. Pruned entries are never stored, so none appear.
    #[verifier::loop_isolation(false)]
    pub fn dump(&mut self) -> (r: Vec<(BasisIndex, Complex64)>)
        requires
            old(self).inv(),
        ensures
            final(self).inv(),
            final(self).qubit_count() == old(self).qubit_count(),
            forall|k: usize| final(self).is_live(k) == old(self).is_live(k),
            final(self).entries().len() == old(self).entries().len(),
            forall|x: int|
                0 <= x < old(self).entries().len() ==> (#[trigger] final(self).entries()[x]).1
                    == old(self).entries()[x].1,
            relabeled(*old(self), *final(self)),
            forall|a: int, b: int|
                #![trigger final(self).ids_seq()[a], final(self).ids_seq()[b]]
                0 <= a < b < final(self).ids_seq().len() ==> final(self).ids_seq()[a]
                    < final(self).ids_seq()[b],
            vlist(r@).len() == final(self).entries().len(),
            forall|x: int|
                0 <= x < r@.len() ==> final(self).entries().contains(#[trigger] vlist(r@)[x]),
            forall|y: int|
                0 <= y < final(self).entries().len() ==> vlist(r@).contains(
                    #[trigger] final(self).entries()[y],
                ),
            forall|a: int, b: int|
                #![trigger vlist(r@)[a], vlist(r@)[b]]
                0 <= a < b < r@.len() ==> key_le(vlist(r@)[a].0, vlist(r@)[b].0),
    {
        let n = self.ids.len();
        let ghost mut sig: Seq<usize> = Seq::new(n as nat, |l: int| l as usize);
        proof {
            assert forall|x: int, l: int|
                #![trigger bit_spec(old(self).entries()[x].0, l)]
                0 <= x < old(self).entries().len() && 0 <= l < sig.len() implies bit_spec(
                self.entries()[x].0,
                sig[l] as int,
            ) == bit_spec(old(self).entries()[x].0, l) by {
                assert(sig[l] == l as usize);
            }
        }
        let mut i: usize = 0;
        while i < n
            invariant
                i <= n,
                self.inv(),
                n == self.ids@.len(),
                self.key_width() == old(self).key_width(),
                forall|k: usize| self.is_live(k) == old(self).is_live(k),
                self.entries().len() == old(self).entries().len(),
                forall|x: int|
                    0 <= x < old(self).entries().len() ==> (#[trigger] self.entries()[x]).1
                        == old(self).entries()[x].1,
                sig.len() == n,
                forall|l: int| 0 <= l < n ==> (#[trigger] sig[l]) < n,
                forall|l1: int, l2: int|
                    #![trigger sig[l1], sig[l2]]
                    0 <= l1 < l2 < n ==> sig[l1] != sig[l2],
                forall|l: int|
                    0 <= l < n ==> self.ids@[#[trigger] sig[l] as int] == old(self).ids@[l],
                forall|x: int, l: int|
                    #![trigger bit_spec(old(self).entries()[x].0, l)]
                    0 <= x < old(self).entries().len() && 0 <= l < n ==> bit_spec(
                        self.entries()[x].0,
                        sig[l] as int,
                    ) == bit_spec(old(self).entries()[x].0, l),
                forall|a: int, b: int|
                    #![trigger self.ids@[a], self.ids@[b]]
                    0 <= a < i && a < b < n ==> self.ids@[a] < self.ids@[b],
            decreases n - i,
        {
            let mut mi: usize = i;
            let mut j: usize = i + 1;
            while j < n
                invariant
                    i <= mi < j <= n,
                    forall|x: int| i <= x < j ==> self.ids@[mi as int] <= #[trigger] self.ids@[x],
                decreases n - j,
            {
                if self.ids[j] < self.ids[mi] {
                    mi = j;
                }
                j += 1;
            }
            if mi != i {
                let ghost pre_e = self.entries();
                let ghost pre_sig = sig;
                self.swap_qubit_state(i, mi);
                proof {
                    sig = Seq::new(
                        n as nat,
                        |l: int|
                            if pre_sig[l] == i {
                                mi
                            } else if pre_sig[l] == mi {
                                i
                            } else {
                                pre_sig[l]
                            },
                    );
                    assert forall|x: int|
                        0 <= x < old(self).entries().len() implies (
                        #[trigger] self.entries()[x]).1 == old(self).entries()[x].1 by {
                        assert(self.entries()[x] == swap_map(pre_e, i, mi)[x]);
                        assert(swap_map(pre_e, i, mi)[x].1 == pre_e[x].1);
                    }
                    assert forall|x: int, l: int|
                        #![trigger bit_spec(old(self).entries()[x].0, l)]
                        0 <= x < old(self).entries().len() && 0 <= l < n implies bit_spec(
                        self.entries()[x].0,
                        sig[l] as int,
                    ) == bit_spec(old(self).entries()[x].0, l) by {
                        assert(self.entries()[x] == swap_map(pre_e, i, mi)[x]);
                        assert(self.entries()[x].0 == swap_bits_spec(
                            pre_e[x].0,
                            i as int,
                            mi as int,
                        ));
                        assert(pre_e[x].0.len() == old(self).key_width());
                        lemma_swap_bits_spec(pre_e[x].0, i as int, mi as int);
                        assert(bit_spec(pre_e[x].0, pre_sig[l] as int) == bit_spec(
                            old(self).entries()[x].0,
                            l,
                        ));
                    }
                    assert forall|l1: int, l2: int|
                        #![trigger sig[l1], sig[l2]]
                        0 <= l1 < l2 < n implies sig[l1] != sig[l2] by {
                        assert(pre_sig[l1] != pre_sig[l2]);
                    }
                }
                let ghost mids = self.ids@;
                let a_id = self.ids[i];
                let b_id = self.ids[mi];
                self.ids.set(i, b_id);
                self.ids.set(mi, a_id);
                proof {
                    let nids = self.ids@;
                    assert forall|x: int, y: int|
                        0 <= x < nids.len() && 0 <= y < nids.len() && x != y implies nids[x]
                        != nids[y] by {
                        let ox: int = if x == i { mi as int } else if x == mi { i as int } else { x };
                        let oy: int = if y == i { mi as int } else if y == mi { i as int } else { y };
                        assert(nids[x] == mids[ox]);
                        assert(nids[y] == mids[oy]);
                    }
                    assert forall|k: usize| self.is_live(k) == old(self).is_live(k) by {
                        if mids.contains(k) {
                            let x = choose|x: int| 0 <= x < mids.len() && mids[x] == k;
                            let nx: int = if x == i { mi as int } else if x == mi { i as int } else { x };
                            assert(nids[nx] == k);
                        }
                        if nids.contains(k) {
                            let x = choose|x: int| 0 <= x < nids.len() && nids[x] == k;
                            let ox: int = if x == i { mi as int } else if x == mi { i as int } else { x };
                            assert(mids[ox] == k);
                        }
                    }
                    assert forall|l: int|
                        0 <= l < n implies self.ids@[#[trigger] sig[l] as int] == old(
                        self,
                    ).ids@[l] by {
                        if pre_sig[l] == i {
                            assert(sig[l] == mi);
                            assert(nids[mi as int] == mids[i as int]);
                        } else if pre_sig[l] == mi {
                            assert(sig[l] == i);
                            assert(nids[i as int] == mids[mi as int]);
                        } else {
                            assert(sig[l] == pre_sig[l]);
                            assert(nids[sig[l] as int] == mids[sig[l] as int]);
                        }
                    }
                }
            }
            proof {
                assert forall|a: int, b: int|
                    #![trigger self.ids@[a], self.ids@[b]]
                    0 <= a < i + 1 && a < b < n implies self.ids@[a] < self.ids@[b] by {
                    if a == i {
                        assert(self.ids@[a] <= self.ids@[b]);
                        assert(self.ids@[a] != self.ids@[b]);
                    }
                }
            }
            i += 1;
        }
        // Copy the entries and sort them by ascending basis index.
        let ghost es = self.entries();
        let ghost w = self.key_width();
        let mut outv: Vec<(BasisIndex, Complex64)> = Vec::new();
        let mut c: usize = 0;
        while c < self.state.len()
            invariant
                c <= self.state@.len(),
                vlist(outv@).len() == c,
                forall|x: int| 0 <= x < c ==> #[trigger] vlist(outv@)[x] == es[x],
            decreases self.state@.len() - c,
        {
            proof {
                assert(es[c as int] == (self.state@[c as int].0@, self.state@[c as int].1));
                assert(es[c as int].0.len() == w);
            }
            let k = self.state[c].0.clone_key();
            let v = self.state[c].1;
            let ghost preo = outv@;
            outv.push((k, v));
            proof {
                assert forall|x: int| 0 <= x < c + 1 implies #[trigger] vlist(outv@)[x]
                    == es[x] by {
                    assert(vlist(outv@)[x] == (outv@[x].0@, outv@[x].1));
                    if x < c {
                        assert(outv@[x] == preo[x]);
                        assert(vlist(preo)[x] == (preo[x].0@, preo[x].1));
                        assert(vlist(preo)[x] == es[x]);
                    }
                }
            }
            c += 1;
        }
        proof {
            let cv = vlist(outv@);
            assert forall|x: int| 0 <= x < cv.len() implies es.contains(#[trigger] cv[x]) by {
                assert(cv[x] == es[x]);
            }
            assert forall|y: int| 0 <= y < es.len() implies cv.contains(#[trigger] es[y]) by {
                assert(cv[y] == es[y]);
            }
            assert forall|x: int| 0 <= x < cv.len() implies (#[trigger] cv[x]).0.len() == w by {
                assert(cv[x] == es[x]);
                assert(es[x].0.len() == w);
            }
        }
        let m = outv.len();
        let mut a: usize = 0;
        while a < m
            invariant
                a <= m,
                m == outv@.len(),
                vlist(outv@).len() == m,
                m == es.len(),
                forall|x: int| 0 <= x < m ==> es.contains(#[trigger] vlist(outv@)[x]),
                forall|y: int| 0 <= y < m ==> vlist(outv@).contains(#[trigger] es[y]),
                forall|x: int| 0 <= x < m ==> (#[trigger] vlist(outv@)[x]).0.len() == w,
                forall|p: int, q: int|
                    #![trigger vlist(outv@)[p], vlist(outv@)[q]]
                    0 <= p < a && p < q < m ==> key_le(vlist(outv@)[p].0, vlist(outv@)[q].0),
            decreases m - a,
        {
            let mut mb: usize = a;
            proof {
                lemma_key_le_refl(vlist(outv@)[a as int].0);
            }
            let mut d: usize = a + 1;
            while d < m
                invariant
                    a <= mb < d <= m,
                    forall|x: int|
                        a <= x < d ==> key_le(
                            vlist(outv@)[mb as int].0,
                            (#[trigger] vlist(outv@)[x]).0,
                        ),
                decreases m - d,
            {
                proof {
                    lemma_key_le_total(vlist(outv@)[mb as int].0, vlist(outv@)[d as int].0);
                }
                if !outv[mb].0.le_key(&outv[d].0) {
                    let ghost omb = mb;
                    mb = d;
                    proof {
                        assert forall|x: int| a <= x < d + 1 implies key_le(
                            vlist(outv@)[mb as int].0,
                            (#[trigger] vlist(outv@)[x]).0,
                        ) by {
                            if x < d {
                                lemma_key_le_trans(
                                    vlist(outv@)[mb as int].0,
                                    vlist(outv@)[omb as int].0,
                                    vlist(outv@)[x].0,
                                );
                            } else {
                                lemma_key_le_refl(vlist(outv@)[mb as int].0);
                            }
                        }
                    }
                } else {
                    proof {
                        if mb == d {
                            lemma_key_le_refl(vlist(outv@)[mb as int].0);
                        }
                    }
                }
                d += 1;
            }
            let ghost cv0 = vlist(outv@);
            let ea = (outv[a].0.clone_key(), outv[a].1);
            let eb = (outv[mb].0.clone_key(), outv[mb].1);
            outv.set(a, eb);
            outv.set(mb, ea);
            proof {
                let cv = vlist(outv@);
                assert(cv.len() == cv0.len());
                assert(cv[a as int] == cv0[mb as int]);
                assert(cv[mb as int] == (if mb == a {
                    cv0[mb as int]
                } else {
                    cv0[a as int]
                }));
                assert forall|x: int|
                    0 <= x < m && x != a && x != mb implies #[trigger] cv[x] == cv0[x] by {
                    assert(cv[x] == (outv@[x].0@, outv@[x].1));
                }
                assert forall|x: int| 0 <= x < m implies es.contains(#[trigger] cv[x]) by {
                    let ox: int = if x == a { mb as int } else if x == mb && mb != a { a as int } else { x };
                    assert(cv[x] == cv0[ox]);
                }
                assert forall|y: int| 0 <= y < m implies cv.contains(#[trigger] es[y]) by {
                    assert(cv0.contains(es[y]));
                    let x = choose|x: int| 0 <= x < cv0.len() && #[trigger] cv0[x] == es[y];
                    let nx: int = if x == a { mb as int } else if x == mb && mb != a { a as int } else { x };
                    assert(cv[nx] == cv0[x]);
                }
                assert forall|x: int| 0 <= x < m implies (#[trigger] cv[x]).0.len() == w by {
                    let ox: int = if x == a { mb as int } else if x == mb && mb != a { a as int } else { x };
                    assert(cv[x] == cv0[ox]);
                }
                assert forall|p: int, q: int|
                    #![trigger cv[p], cv[q]]
                    0 <= p < a + 1 && p < q < m implies key_le(cv[p].0, cv[q].0) by {
                    if p < a {
                        let oq: int = if q == a { mb as int } else if q == mb && mb != a { a as int } else { q };
                        assert(cv[p] == cv0[p]);
                        assert(cv[q] == cv0[oq]);
                    } else {
                        assert(p == a);
                        assert(cv[p] == cv0[mb as int]);
                        let oq: int = if q == mb && mb != a { a as int } else { q };
                        assert(cv[q] == cv0[oq]);
                        assert(key_le(cv0[mb as int].0, cv0[oq].0));
                    }
                }
            }
            a += 1;
        }
        proof {
            assert(relabel_chain(*old(self), *self, sig));
            assert(relabeled(*old(self), *self));
        }
        outv
    }
}

/// Whether index `x` of the list holds a value that also appears elsewhere.
pub open spec fn dup_at(s: Seq<usize>, x: int) -> bool {
    exists|i: int| 0 <= i < s.len() && i != x && s[i] == s[x]
}

/// Whether some element of the index list equals `y`.
spec fn has_src(src: Seq<int>, y: int) -> bool {
    exists|x: int| 0 <= x < src.len() && #[trigger] src[x] == y
}

impl Default for QuantumSim {
    /// A fresh simulator with no qubits, seeded from the operating system.
    fn default() -> (r: Self)
        ensures
            r.inv(),
            r.qubit_count() == 0,
            r.entries().len() == 0,
    {
        QuantumSim::new()
    }
}

/// Whether some element of the sequence equals the integer `v`.
pub open spec fn holds_value(s: Seq<usize>, v: int) -> bool {
    exists|x: int| 0 <= x < s.len() && #[trigger] s[x] as int == v
}

/// A duplicate-free sequence that contains every value below `m` has at
/// least `m` elements.
pub proof fn lemma_distinct_value_bound(s: Seq<usize>, m: nat)
    requires
        s.no_duplicates(),
        forall|v: int| 0 <= v < m ==> #[trigger] holds_value(s, v),
    ensures
        m <= s.len(),
    decreases m,
{
    if m > 0 {
        assert(holds_value(s, m - 1));
        let i = choose|i: int| 0 <= i < s.len() && #[trigger] s[i] as int == m - 1;
        let s2 = s.remove(i);
        assert(s2.len() == s.len() - 1);
        assert(s2.no_duplicates()) by {
            assert forall|x: int, y: int|
                0 <= x < s2.len() && 0 <= y < s2.len() && x != y implies s2[x] != s2[y] by {
                let x1: int = if x < i { x } else { x + 1 };
                let y1: int = if y < i { y } else { y + 1 };
                assert(s2[x] == s[x1] && s2[y] == s[y1]);
            }
        }
        assert forall|v: int| 0 <= v < m - 1 implies #[trigger] holds_value(s2, v) by {
            assert(holds_value(s, v));
            let x = choose|x: int| 0 <= x < s.len() && #[trigger] s[x] as int == v;
            assert(s[x] as int == v);
            assert(x != i);
            if x < i {
                assert(s2[x] == s[x]);
                assert(s2[x] as int == v);
            } else {
                assert(s2[x - 1] == s[x]);
                assert(s2[x - 1] as int == v);
            }
        }
        lemma_distinct_value_bound(s2, (m - 1) as nat);
    }
}

} // verus!
