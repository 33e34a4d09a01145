//! Self-inverse gate transforms.

use vstd::prelude::*;
use num_complex::Complex64;
use crate::index::{
    bit_spec, ctrls_sat, flip_spec, lemma_flip_spec_bits, lemma_flip_spec_involution,
    lemma_parity_single, lemma_set_preserves_ctrls, lemma_swap_bits_involution,
    lemma_swap_bits_spec, parity_spec, swap_bits_spec,
};
use crate::amp::cmul_of;
use crate::sim::{diag_shape, flip_entry, flip_map, flip_phase_shape, none_odd, swap_map};

verus! {

/// The X gate is self-inverse, exactly: applying the controlled bit-flip
/// transform twice, with the same control and target locations, returns
/// every entry of the sparse state unchanged, amplitudes included. This is
/// the transform that `mcx` applies in full; its single run is stated by the
/// `flip_map` equality in `mcx`'s contract.
pub proof fn lemma_x_self_inverse(s: Seq<(Seq<u64>, Complex64)>, cl: Seq<usize>, tl: usize, w: nat)
    requires
        forall|i: int| 0 <= i < s.len() ==> (#[trigger] s[i]).0.len() == w,
        (tl as int) < 64 * w,
        forall|i: int| 0 <= i < cl.len() ==> (#[trigger] cl[i]) != tl,
    ensures
        flip_map(flip_map(s, cl, tl), cl, tl) == s,
{
    let s1 = flip_map(s, cl, tl);
    let s2 = flip_map(s1, cl, tl);
    assert forall|i: int| 0 <= i < s.len() implies #[trigger] s2[i] == s[i] by {
        let e = s[i];
        assert(s1[i] == flip_entry(e, cl, tl));
        assert(s2[i] == flip_entry(s1[i], cl, tl));
        if ctrls_sat(e.0, cl) {
            assert forall|i2: int| 0 <= i2 < cl.len() implies #[trigger] cl[i2] as int
                != tl as int by {
                assert(cl[i2] != tl);
            }
            lemma_set_preserves_ctrls(e.0, tl as int, !bit_spec(e.0, tl as int), cl);
            lemma_flip_spec_involution(e.0, tl as int);
        }
    }
    assert(s2 =~= s);
}

/// Exchanging the state of two qubit locations is self-inverse, exactly:
/// applying the basis swap twice returns every entry unchanged, amplitudes
/// included. A single run of the transform is stated by the `swap_map`
/// equality in `swap_qubit_state`'s contract, which `release` and `dump`
/// rely on.
pub proof fn lemma_swap_state_self_inverse(
    s: Seq<(Seq<u64>, Complex64)>,
    a: usize,
    b: usize,
    w: nat,
)
    requires
        forall|i: int| 0 <= i < s.len() ==> (#[trigger] s[i]).0.len() == w,
        (a as int) < 64 * w,
        (b as int) < 64 * w,
        a != b,
    ensures
        swap_map(swap_map(s, a, b), a, b) == s,
{
    let s1 = swap_map(s, a, b);
    let s2 = swap_map(s1, a, b);
    assert forall|i: int| 0 <= i < s.len() implies #[trigger] s2[i] == s[i] by {
        let e = s[i];
        assert(s1[i] == (swap_bits_spec(e.0, a as int, b as int), e.1));
        lemma_swap_bits_involution(e.0, a as int, b as int);
    }
    assert(s2 =~= s);
}

/// Relabeling two qubit identifiers is self-inverse, exactly: swapping the
/// same pair of locations in the identifier table twice restores it. This
/// is the table update that `swap_qubit_ids`'s contract states.
pub proof fn lemma_swap_ids_self_inverse(ids: Seq<usize>, l1: int, l2: int)
    requires
        0 <= l1 < ids.len(),
        0 <= l2 < ids.len(),
    ensures
        ({
            let once = ids.update(l1, ids[l2] as usize).update(l2, ids[l1] as usize);
            once.update(l1, once[l2] as usize).update(l2, once[l1] as usize) == ids
        }),
{
    let once = ids.update(l1, ids[l2] as usize).update(l2, ids[l1] as usize);
    let twice = once.update(l1, once[l2] as usize).update(l2, once[l1] as usize);
    assert(twice =~= ids);
}

/// After a single-qubit measurement that returned `false`, no stored key
/// has odd parity at the measured location, so the joint probability of
/// that qubit is exactly the zero that `joint_probability` promises: the
/// bit form that `measure` ensures implies the parity form that
/// `joint_probability`'s contract tests.
pub proof fn lemma_measured_zero_probability(s: Seq<(Seq<u64>, Complex64)>, loc: usize)
    requires
        forall|x: int| 0 <= x < s.len() ==> bit_spec((#[trigger] s[x]).0, loc as int) == false,
    ensures
        none_odd(s, seq![loc]),
{
    assert forall|x: int| 0 <= x < s.len() implies !parity_spec((#[trigger] s[x]).0, seq![loc]) by {
        lemma_parity_single(s[x].0, loc);
    }
}

/// The amplitude dataflow of a diagonal gate applied twice (Z twice, S then
/// its adjoint, T then its adjoint): keys and untouched entries are exactly
/// restored, and every controlled one-bit amplitude is exactly the old
/// amplitude multiplied by the first gate's factor and then the second's.
/// With mutually inverse factors the product is the identity rotation; that
/// final floating-point fact is checked by the runtime suite, not stated.
pub proof fn lemma_diag_twice_dataflow(
    s0: Seq<(Seq<u64>, Complex64)>,
    s1: Seq<(Seq<u64>, Complex64)>,
    s2: Seq<(Seq<u64>, Complex64)>,
    cl: Seq<usize>,
    tl: usize,
    ca: Complex64,
    cb: Complex64,
)
    requires
        diag_shape(s0, s1, cl, tl, Option::None, ca),
        diag_shape(s1, s2, cl, tl, Option::None, cb),
    ensures
        s2.len() == s0.len(),
        forall|x: int| 0 <= x < s0.len() ==> (#[trigger] s2[x]).0 == s0[x].0,
        forall|x: int|
            0 <= x < s0.len() && !(ctrls_sat(s0[x].0, cl) && bit_spec(s0[x].0, tl as int))
                ==> s2[x] == #[trigger] s0[x],
        forall|x: int|
            0 <= x < s0.len() && ctrls_sat(s0[x].0, cl) && bit_spec(s0[x].0, tl as int) ==> (
            #[trigger] s2[x]).1 == cmul_of(cmul_of(s0[x].1, ca), cb),
{
    assert forall|x: int| 0 <= x < s0.len() implies (#[trigger] s2[x]).0 == s0[x].0 by {
        assert(s1[x].0 == s0[x].0);
    }
    assert forall|x: int|
        0 <= x < s0.len() && !(ctrls_sat(s0[x].0, cl) && bit_spec(s0[x].0, tl as int)) implies s2[x]
        == #[trigger] s0[x] by {
        assert(s1[x] == s0[x]);
    }
    assert forall|x: int|
        0 <= x < s0.len() && ctrls_sat(s0[x].0, cl) && bit_spec(s0[x].0, tl as int) implies (
    #[trigger] s2[x]).1 == cmul_of(cmul_of(s0[x].1, ca), cb) by {
        assert(s1[x].0 == s0[x].0);
        assert(s1[x].1 == cmul_of(s0[x].1, ca));
        assert(s2[x].1 == cmul_of(s1[x].1, cb));
    }
}

/// The amplitude dataflow of a flip-with-phase gate applied twice (the Y
/// gate): every controlled key is restored exactly, untouched entries pass
/// through whole, and each controlled amplitude is multiplied by the two
/// bit-selected factors in turn — for Y, by the imaginary unit and its
/// negation in one order or the other. That their float product is one is
/// checked by the runtime suite, not stated.
pub proof fn lemma_flip_phase_twice_dataflow(
    s0: Seq<(Seq<u64>, Complex64)>,
    s1: Seq<(Seq<u64>, Complex64)>,
    s2: Seq<(Seq<u64>, Complex64)>,
    cl: Seq<usize>,
    tl: usize,
    c0: Complex64,
    c1: Complex64,
    w: nat,
)
    requires
        forall|i: int| 0 <= i < s0.len() ==> (#[trigger] s0[i]).0.len() == w,
        (tl as int) < 64 * w,
        forall|i: int| 0 <= i < cl.len() ==> (#[trigger] cl[i]) != tl,
        flip_phase_shape(s0, s1, cl, tl, c0, c1),
        flip_phase_shape(s1, s2, cl, tl, c0, c1),
    ensures
        s2.len() == s0.len(),
        forall|x: int| 0 <= x < s0.len() ==> (#[trigger] s2[x]).0 == s0[x].0,
        forall|x: int| 0 <= x < s0.len() && !ctrls_sat(s0[x].0, cl) ==> s2[x] == #[trigger] s0[x],
        forall|x: int|
            0 <= x < s0.len() && ctrls_sat(s0[x].0, cl) ==> (#[trigger] s2[x]).1 == cmul_of(
                cmul_of(
                    s0[x].1,
                    if bit_spec(s0[x].0, tl as int) {
                        c0
                    } else {
                        c1
                    },
                ),
                if bit_spec(s0[x].0, tl as int) {
                    c1
                } else {
                    c0
                },
            ),
{
    assert forall|i2: int| 0 <= i2 < cl.len() implies #[trigger] cl[i2] as int != tl as int by {
        assert(cl[i2] != tl);
    }
    assert forall|x: int|
        0 <= x < s0.len() && !ctrls_sat(s0[x].0, cl) implies s2[x] == #[trigger] s0[x] by {
        assert(s1[x] == s0[x]);
    }
    assert forall|x: int| 0 <= x < s0.len() implies (#[trigger] s2[x]).0 == s0[x].0 && (ctrls_sat(
        s0[x].0,
        cl,
    ) ==> s2[x].1 == cmul_of(
        cmul_of(
            s0[x].1,
            if bit_spec(s0[x].0, tl as int) {
                c0
            } else {
                c1
            },
        ),
        if bit_spec(s0[x].0, tl as int) {
            c1
        } else {
            c0
        },
    )) by {
        let k = s0[x].0;
        if ctrls_sat(k, cl) {
            assert(s1[x].0 == flip_spec(k, tl as int));
            lemma_flip_spec_bits(k, tl as int);
            lemma_set_preserves_ctrls(k, tl as int, !bit_spec(k, tl as int), cl);
            assert(ctrls_sat(s1[x].0, cl));
            assert(bit_spec(s1[x].0, tl as int) == !bit_spec(k, tl as int));
            assert(s2[x].0 == flip_spec(s1[x].0, tl as int));
            lemma_flip_spec_involution(k, tl as int);
            assert(s1[x].1 == cmul_of(
                s0[x].1,
                if bit_spec(k, tl as int) {
                    c0
                } else {
                    c1
                },
            ));
            assert(s2[x].1 == cmul_of(
                s1[x].1,
                if bit_spec(s1[x].0, tl as int) {
                    c0
                } else {
                    c1
                },
            ));
        } else {
            assert(s1[x] == s0[x]);
            assert(s2[x] == s1[x]);
        }
    }
}

} // verus!
