//! Amplitudes and the random sampler.
//!
//! An amplitude is a double-precision complex number of the `num_complex`
//! crate. Verified code treats amplitude values as opaque: every arithmetic
//! step goes through a small trusted wrapper around one outside function,
//! and no contract claims anything about floating-point results beyond what
//! the wrappers state.

use vstd::prelude::*;
use num_complex::Complex64;
use rand::rngs::StdRng;

verus! {

#[verifier::external_type_specification]
#[verifier::external_body]
#[verifier::reject_recursive_types(T)]
pub struct ExComplex<T>(num_complex::Complex<T>);

#[verifier::external_type_specification]
#[verifier::external_body]
pub struct ExStdRng(StdRng);

/// The complex number that `num_traits::FromPrimitive::from_u64` builds from
/// the unsigned integer `n`: it stands for `n + 0i`, a function of `n` alone.
pub uninterp spec fn real_of(n: nat) -> Complex64;

/// The result of `num_complex::Complex::i` scaled by the integer `n`:
/// `imag_of(1)` stands for the imaginary unit `0 + 1i`, the only value of
/// this name any trusted item speaks of.
pub uninterp spec fn imag_of(n: nat) -> Complex64;

/// What `core::ops::Add` for `num_complex::Complex` returns: the complex sum
/// of its arguments, a deterministic function of the two values.
pub uninterp spec fn cadd_of(a: Complex64, b: Complex64) -> Complex64;

/// What `core::ops::Mul` for `num_complex::Complex` returns: the complex
/// product of its arguments.
pub uninterp spec fn cmul_of(a: Complex64, b: Complex64) -> Complex64;

/// What `core::ops::Div` for `num_complex::Complex` returns: the complex
/// quotient of its arguments.
pub uninterp spec fn cdiv_of(a: Complex64, b: Complex64) -> Complex64;

/// What `core::ops::Neg` for `num_complex::Complex` returns: the argument
/// with both components negated.
pub uninterp spec fn cneg_of(a: Complex64) -> Complex64;

/// What `num_complex::Complex::conj` returns: the complex conjugate.
pub uninterp spec fn cconj_of(a: Complex64) -> Complex64;

/// What `num_complex::Complex::sqrt` returns: the principal square root.
pub uninterp spec fn csqrt_of(a: Complex64) -> Complex64;

/// What `num_complex::Complex::exp` returns: the complex exponential.
pub uninterp spec fn cexp_of(a: Complex64) -> Complex64;

/// What `num_complex::Complex::cos` returns: the complex cosine.
pub uninterp spec fn ccos_of(a: Complex64) -> Complex64;

/// What `num_complex::Complex::sin` returns: the complex sine.
pub uninterp spec fn csin_of(a: Complex64) -> Complex64;

/// What `num_complex::Complex::powi` returns: the argument raised to the
/// given signed integer power.
pub uninterp spec fn cpowi_of(a: Complex64, e: i32) -> Complex64;

/// What `num_complex::Complex::norm_sqr` returns, re-embedded as a real
/// complex number: the squared magnitude `re^2 + im^2` with a zero
/// imaginary part.
pub uninterp spec fn cnorm_sqr_of(a: Complex64) -> Complex64;

/// What the `<` order of the double-precision real parts returns: whether
/// the first argument's real part is strictly below the second's.
pub uninterp spec fn lt_re_of(a: Complex64, b: Complex64) -> bool;

/// Whether an amplitude falls to the pruning policy: its squared magnitude
/// lies strictly below the near-zero threshold of `10^-10`.
pub open spec fn negligible_spec(v: Complex64) -> bool {
    lt_re_of(cnorm_sqr_of(v), cpowi_of(real_of(10), -10i32))
}

/// Relies on `num_traits::FromPrimitive::from_u64` for `Complex`, which maps
/// `n` to the real complex number `n + 0i` and never returns `None` for a
/// double-precision component type. The squared magnitude of the embedded
/// one is the embedded one itself, exactly (`1*1 + 0*0` in doubles).
#[verifier::external_body]
pub(crate) fn amp_from_u64(n: u64) -> (r: Complex64)
    ensures
        r == real_of(n as nat),
        n == 1 ==> cnorm_sqr_of(r) == r,
{
    <Complex64 as num_traits::FromPrimitive>::from_u64(n).unwrap()
}

/// Relies on `num_complex::Complex::i`: the imaginary unit `0 + 1i`.
#[verifier::external_body]
pub(crate) fn amp_i() -> (r: Complex64)
    ensures
        r == imag_of(1),
{
    Complex64::i()
}

/// Relies on `core::ops::Add` for `num_complex::Complex`: complex addition.
#[verifier::external_body]
pub(crate) fn amp_add(a: Complex64, b: Complex64) -> (r: Complex64)
    ensures
        r == cadd_of(a, b),
{
    a + b
}

/// Relies on `core::ops::Mul` for `num_complex::Complex`: complex
/// multiplication.
#[verifier::external_body]
pub(crate) fn amp_mul(a: Complex64, b: Complex64) -> (r: Complex64)
    ensures
        r == cmul_of(a, b),
{
    a * b
}

/// Relies on `core::ops::Div` for `num_complex::Complex`: complex division.
/// Division by zero yields non-finite components, not a panic.
#[verifier::external_body]
pub(crate) fn amp_div(a: Complex64, b: Complex64) -> (r: Complex64)
    ensures
        r == cdiv_of(a, b),
{
    a / b
}

/// Relies on `core::ops::Neg` for `num_complex::Complex`: negation of both
/// components.
#[verifier::external_body]
pub(crate) fn amp_neg(a: Complex64) -> (r: Complex64)
    ensures
        r == cneg_of(a),
{
    -a
}

/// Relies on `num_complex::Complex::conj`: the complex conjugate.
#[verifier::external_body]
pub(crate) fn amp_conj(a: Complex64) -> (r: Complex64)
    ensures
        r == cconj_of(a),
{
    a.conj()
}

/// Relies on `num_complex::Complex::sqrt`: the principal square root.
#[verifier::external_body]
pub(crate) fn amp_sqrt(a: Complex64) -> (r: Complex64)
    ensures
        r == csqrt_of(a),
{
    a.sqrt()
}

/// Relies on `num_complex::Complex::exp`: the complex exponential.
#[verifier::external_body]
pub(crate) fn amp_exp(a: Complex64) -> (r: Complex64)
    ensures
        r == cexp_of(a),
{
    a.exp()
}

/// Relies on `num_complex::Complex::cos`: the complex cosine.
#[verifier::external_body]
pub(crate) fn amp_cos(a: Complex64) -> (r: Complex64)
    ensures
        r == ccos_of(a),
{
    a.cos()
}

/// Relies on `num_complex::Complex::sin`: the complex sine.
#[verifier::external_body]
pub(crate) fn amp_sin(a: Complex64) -> (r: Complex64)
    ensures
        r == csin_of(a),
{
    a.sin()
}

/// Relies on `num_complex::Complex::powi`: raising to a signed integer power.
#[verifier::external_body]
pub(crate) fn amp_powi(a: Complex64, e: i32) -> (r: Complex64)
    ensures
        r == cpowi_of(a, e),
{
    a.powi(e)
}

/// Relies on `num_complex::Complex::norm_sqr`: the squared magnitude
/// `re^2 + im^2`, returned as a real complex number. The result is never
/// the negative zero, so adding the embedded zero to it returns it exactly.
#[verifier::external_body]
pub(crate) fn amp_norm_sqr(a: Complex64) -> (r: Complex64)
    ensures
        r == cnorm_sqr_of(a),
        cadd_of(real_of(0), r) == r,
{
    Complex64::from(a.norm_sqr())
}

/// Relies on the `<` order of the double-precision real parts, a
/// deterministic function of the two values (false when either is not a
/// number).
#[verifier::external_body]
pub(crate) fn re_lt(a: Complex64, b: Complex64) -> (r: bool)
    ensures
        r == lt_re_of(a, b),
{
    a.re < b.re
}

/// Relies on `rand::SeedableRng::from_entropy` for `StdRng`: a fresh
/// generator seeded from the operating system. Panics only if the operating
/// system's entropy source fails.
#[verifier::external_body]
pub(crate) fn rng_from_entropy() -> StdRng {
    <StdRng as rand::SeedableRng>::from_entropy()
}

/// Relies on `rand::SeedableRng::seed_from_u64` for `StdRng`: a generator
/// with a caller-chosen seed, for reproducible runs.
#[verifier::external_body]
pub(crate) fn rng_seeded(seed: u64) -> StdRng {
    <StdRng as rand::SeedableRng>::seed_from_u64(seed)
}

/// Relies on `rand::Rng::gen` with the `Standard` distribution: one uniform
/// sample in `[0, 1)`, returned as a real complex number. The value depends
/// on the generator's state; what is promised holds of every outcome: the
/// sample is at least the real zero and strictly below the real one, under
/// the `<` order of real parts.
#[verifier::external_body]
pub(crate) fn sample_unit(rng: &mut StdRng) -> (r: Complex64)
    ensures
        !lt_re_of(r, real_of(0)),
        lt_re_of(r, real_of(1)),
{
    Complex64::new(rand::Rng::gen(rng), num_traits::Zero::zero())
}

/// The near-zero pruning threshold: a squared magnitude below `10^-10`
/// counts as zero and is dropped from the sparse state.
pub(crate) fn near_zero_eps() -> (r: Complex64)
    ensures
        r == cpowi_of(real_of(10), -10i32),
{
    amp_powi(amp_from_u64(10), -10)
}

/// Whether an amplitude is negligible under the pruning policy: its squared
/// magnitude lies strictly below the near-zero threshold.
pub(crate) fn is_negligible(v: Complex64) -> (r: bool)
    ensures
        r == negligible_spec(v),
{
    re_lt(amp_norm_sqr(v), near_zero_eps())
}

} // verus!
