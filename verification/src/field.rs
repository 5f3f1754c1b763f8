//! Integers modulo the prime order of the curve's scalar group, in spec code.
use vstd::arithmetic::div_mod::{
    lemma_add_mod_noop, lemma_mod_multiples_vanish, lemma_mul_mod_noop, lemma_small_mod,
    lemma_sub_mod_noop,
};
use vstd::prelude::*;

verus! {

/// The order of the scalar group, 2^252 + 27742317777372353535851937790883648493.
#[verifier::opaque]
pub open spec fn ell() -> int {
    0x1000000000000000000000000000000014def9dea2f79cd65812631a5cf5d3edint
}

/// Two integers that stand for the same field element.
pub open spec fn cong(a: int, b: int) -> bool {
    a % ell() == b % ell()
}

/// Whether `d` has a multiplicative inverse.
pub open spec fn is_unit(d: int) -> bool {
    exists|w: int| is_inverse(d, w)
}

/// Whether `w` is the reduced multiplicative inverse of `d`.
pub open spec fn is_inverse(d: int, w: int) -> bool {
    &&& 0 <= w < ell()
    &&& (d * w) % ell() == 1
}

/// The multiplicative inverse of a unit.
pub open spec fn inverse(d: int) -> int {
    choose|w: int| is_inverse(d, w)
}

pub proof fn lemma_ell()
    ensures
        ell() > 0x10000000000000000int,
{
    reveal(ell);
}

pub proof fn lemma_mod_range(a: int)
    ensures
        0 <= a % ell() < ell(),
        cong(a % ell(), a),
{
    lemma_ell();
    lemma_small_mod((a % ell()) as nat, ell() as nat);
}

pub proof fn lemma_reduced(a: int)
    requires
        0 <= a < ell(),
    ensures
        a % ell() == a,
{
    lemma_ell();
    lemma_small_mod(a as nat, ell() as nat);
}

/// Congruent integers that are both reduced are equal.
pub proof fn lemma_cong_reduced(a: int, b: int)
    requires
        cong(a, b),
        0 <= a < ell(),
        0 <= b < ell(),
    ensures
        a == b,
{
    lemma_reduced(a);
    lemma_reduced(b);
}

pub proof fn lemma_cong_add(a: int, b: int, c: int, d: int)
    requires
        cong(a, b),
        cong(c, d),
    ensures
        cong(a + c, b + d),
{
    lemma_ell();
    lemma_add_mod_noop(a, c, ell());
    lemma_add_mod_noop(b, d, ell());
}

pub proof fn lemma_cong_sub(a: int, b: int, c: int, d: int)
    requires
        cong(a, b),
        cong(c, d),
    ensures
        cong(a - c, b - d),
{
    lemma_ell();
    lemma_sub_mod_noop(a, c, ell());
    lemma_sub_mod_noop(b, d, ell());
}

pub proof fn lemma_cong_mul(a: int, b: int, c: int, d: int)
    requires
        cong(a, b),
        cong(c, d),
    ensures
        cong(a * c, b * d),
{
    lemma_ell();
    lemma_mul_mod_noop(a, c, ell());
    lemma_mul_mod_noop(b, d, ell());
}

/// A difference is zero in the field exactly when the two sides agree.
pub proof fn lemma_cong_zero(a: int, b: int)
    ensures
        cong(a - b, 0) <==> cong(a, b),
{
    lemma_ell();
    if cong(a - b, 0) {
        lemma_cong_add(a - b, 0, b, b);
    }
    if cong(a, b) {
        lemma_cong_sub(a, b, b, b);
    }
}

/// Congruence as a difference that the modulus divides.
pub proof fn lemma_difference(a: int, b: int)
    ensures
        cong(a, b) <==> (a - b) % ell() == 0,
{
    lemma_ell();
    lemma_cong_zero(a, b);
    lemma_reduced(0);
}

/// The reduced inverse of a unit is unique.
pub proof fn lemma_inverse_unique(d: int, v: int, w: int)
    requires
        is_inverse(d, v),
        is_inverse(d, w),
    ensures
        v == w,
{
    lemma_ell();
    lemma_reduced(1);
    // v == v * (d * w) == (d * v) * w == w
    lemma_cong_mul(v, v, d * w, 1);
    lemma_cong_mul(d * v, 1, w, w);
    assert(v * (d * w) == (d * v) * w) by (nonlinear_arith);
    lemma_cong_reduced(v, w);
}

/// A unit can be cancelled.
pub proof fn lemma_unit_cancel(d: int, x: int, y: int)
    requires
        is_unit(d),
        cong(d * x, d * y),
    ensures
        cong(x, y),
{
    let w = inverse(d);
    lemma_ell();
    lemma_reduced(1);
    lemma_cong_mul(w, w, d * x, d * y);
    assert(w * (d * x) == (d * w) * x) by (nonlinear_arith);
    assert(w * (d * y) == (d * w) * y) by (nonlinear_arith);
    lemma_cong_mul(d * w, 1, x, x);
    lemma_cong_mul(d * w, 1, y, y);
}

/// Multiplying `n` by the inverse of a unit `d` solves `d * x == n`.
pub proof fn lemma_unit_solves(d: int, n: int)
    requires
        is_unit(d),
    ensures
        cong(d * (n * inverse(d)), n),
{
    let w = inverse(d);
    lemma_ell();
    lemma_reduced(1);
    assert(d * (n * w) == (d * w) * n) by (nonlinear_arith);
    lemma_cong_mul(d * w, 1, n, n);
}

/// Being a unit depends on the field element alone.
pub proof fn lemma_unit_cong(d: int, e: int)
    requires
        is_unit(d),
        cong(d, e),
    ensures
        is_unit(e),
        inverse(d) == inverse(e),
{
    let w = inverse(d);
    lemma_cong_mul(d, e, w, w);
    assert(is_inverse(e, w));
    lemma_inverse_unique(e, w, inverse(e));
}

/// Products of units are units.
pub proof fn lemma_unit_product(d: int, e: int)
    requires
        is_unit(d),
        is_unit(e),
    ensures
        is_unit(d * e),
{
    let v = inverse(d);
    let w = inverse(e);
    let x = (v * w) % ell();
    lemma_ell();
    lemma_reduced(1);
    lemma_mod_range(v * w);
    lemma_cong_mul(d * v, 1, e * w, 1);
    assert((d * e) * (v * w) == (d * v) * (e * w)) by (nonlinear_arith);
    lemma_cong_mul(d * e, d * e, x, v * w);
    assert(is_inverse(d * e, x));
}

/// One is its own inverse, and minus one likewise.
pub proof fn lemma_unit_one()
    ensures
        is_unit(1),
        inverse(1) == 1,
        is_unit(-1),
        inverse(-1) == ell() - 1,
{
    lemma_ell();
    lemma_reduced(1);
    assert(is_inverse(1, 1));
    lemma_inverse_unique(1, 1, inverse(1));
    lemma_mod_multiples_vanish(-1, 1, ell());
    assert((-1) * (ell() - 1) == ell() * (-1) + 1) by (nonlinear_arith);
    assert(is_inverse(-1, ell() - 1));
    lemma_inverse_unique(-1, ell() - 1, inverse(-1));
}

/// Zero has no inverse.
pub proof fn lemma_zero_not_unit(d: int)
    requires
        cong(d, 0),
    ensures
        !is_unit(d),
{
    if is_unit(d) {
        let w = inverse(d);
        lemma_ell();
        lemma_cong_mul(d, 0, w, w);
        lemma_reduced(0);
    }
}

} // verus!
