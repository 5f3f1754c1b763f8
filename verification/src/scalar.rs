//! Field elements, computed by curve25519-dalek and kept as their canonical bytes.
use crate::field::{
    cong, ell, inverse, is_inverse, is_unit, lemma_ell, lemma_inverse_unique, lemma_mod_range,
    lemma_reduced,
};
use vstd::prelude::*;

verus! {

/// The integer that a byte string stands for, least significant byte first.
pub open spec fn le_value(bytes: Seq<u8>) -> int
    decreases bytes.len(),
{
    if bytes.len() == 0 {
        0
    } else {
        bytes[0] as int + 256 * le_value(bytes.skip(1))
    }
}

pub proof fn lemma_le_value_nonnegative(bytes: Seq<u8>)
    ensures
        le_value(bytes) >= 0,
    decreases bytes.len(),
{
    if bytes.len() > 0 {
        lemma_le_value_nonnegative(bytes.skip(1));
    }
}

/// `Scalar + Scalar` of curve25519-dalek, on byte encodings: the sum of the two
/// integers modulo the group order, in canonical form.
#[verifier::external_body]
fn dalek_add(a: &[u8; 32], b: &[u8; 32]) -> (r: [u8; 32])
    ensures
        le_value(r@) == (le_value(a@) + le_value(b@)) % ell(),
{
    let x = curve25519_dalek::Scalar::from_bytes_mod_order(*a);
    let y = curve25519_dalek::Scalar::from_bytes_mod_order(*b);
    (x + y).to_bytes()
}

/// `Scalar - Scalar` of curve25519-dalek, on byte encodings: the difference of the
/// two integers modulo the group order, in canonical form.
#[verifier::external_body]
fn dalek_sub(a: &[u8; 32], b: &[u8; 32]) -> (r: [u8; 32])
    ensures
        le_value(r@) == (le_value(a@) - le_value(b@)) % ell(),
{
    let x = curve25519_dalek::Scalar::from_bytes_mod_order(*a);
    let y = curve25519_dalek::Scalar::from_bytes_mod_order(*b);
    (x - y).to_bytes()
}

/// `Scalar * Scalar` of curve25519-dalek, on byte encodings: the product of the two
/// integers modulo the group order, in canonical form.
#[verifier::external_body]
fn dalek_mul(a: &[u8; 32], b: &[u8; 32]) -> (r: [u8; 32])
    ensures
        le_value(r@) == (le_value(a@) * le_value(b@)) % ell(),
{
    let x = curve25519_dalek::Scalar::from_bytes_mod_order(*a);
    let y = curve25519_dalek::Scalar::from_bytes_mod_order(*b);
    (x * y).to_bytes()
}

/// `Scalar::invert` of curve25519-dalek, on a byte encoding of a nonzero element:
/// the canonical multiplicative inverse.
#[verifier::external_body]
fn dalek_invert(a: &[u8; 32]) -> (r: [u8; 32])
    requires
        le_value(a@) % ell() != 0,
    ensures
        is_inverse(le_value(a@), le_value(r@)),
{
    curve25519_dalek::Scalar::from_bytes_mod_order(*a).invert().to_bytes()
}

/// `==` on curve25519-dalek's `Scalar`, on byte encodings: whether both stand for one
/// field element. The group order is prime, so where they differ their difference
/// has an inverse.
#[verifier::external_body]
fn dalek_eq(a: &[u8; 32], b: &[u8; 32]) -> (r: bool)
    ensures
        r == cong(le_value(a@), le_value(b@)),
        !r ==> is_unit(le_value(a@) - le_value(b@)),
{
    curve25519_dalek::Scalar::from_bytes_mod_order(*a) == curve25519_dalek::Scalar::from_bytes_mod_order(*b)
}

/// `Scalar::from(u64)` of curve25519-dalek: the canonical encoding of the integer.
#[verifier::external_body]
fn dalek_from_u64(x: u64) -> (r: [u8; 32])
    ensures
        le_value(r@) == x as int,
{
    curve25519_dalek::Scalar::from(x).to_bytes()
}

/// `Scalar::from_canonical_bytes` of curve25519-dalek: whether it accepts the bytes,
/// which it does exactly when they stand for an integer below the group order.
#[verifier::external_body]
fn dalek_is_canonical(bytes: &[u8; 32]) -> (r: bool)
    ensures
        r == (le_value(bytes@) < ell()),
{
    bool::from(curve25519_dalek::Scalar::from_canonical_bytes(*bytes).is_some())
}

/// `Scalar::from_bytes_mod_order_wide` of curve25519-dalek: the canonical encoding of a
/// 512-bit integer modulo the group order.
#[verifier::external_body]
fn dalek_reduce_wide(bytes: &[u8; 64]) -> (r: [u8; 32])
    ensures
        le_value(r@) == le_value(bytes@) % ell(),
{
    curve25519_dalek::Scalar::from_bytes_mod_order_wide(bytes).to_bytes()
}

/// An element of the scalar field.
#[derive(Clone, Copy, Debug, PartialEq, Eq)]
pub struct Scalar {
    bytes: [u8; 32],
}

impl View for Scalar {
    type V = int;

    /// The integer that represents the element, between zero and the group order.
    closed spec fn view(&self) -> int {
        le_value(self.bytes@) % ell()
    }
}

/// The integers that a sequence of elements stands for.
pub open spec fn values(s: Seq<Scalar>) -> Seq<int> {
    Seq::new(s.len(), |i: int| s[i]@)
}

pub broadcast proof fn lemma_scalar_range(s: Scalar)
    ensures
        0 <= #[trigger] s@ < ell(),
{
    lemma_mod_range(le_value(s.bytes@));
}

impl Scalar {
    #[verifier::type_invariant]
    spec fn canonical(self) -> bool {
        le_value(self.bytes@) < ell()
    }

    proof fn lemma_canonical(bytes: Seq<u8>)
        requires
            le_value(bytes) < ell(),
        ensures
            le_value(bytes) % ell() == le_value(bytes),
    {
        lemma_le_value_nonnegative(bytes);
        lemma_reduced(le_value(bytes));
    }

    /// Wraps an encoding that is known to be canonical.
    fn wrap(bytes: [u8; 32]) -> (r: Scalar)
        requires
            le_value(bytes@) < ell(),
        ensures
            r@ == le_value(bytes@),
    {
        proof {
            Self::lemma_canonical(bytes@);
        }
        Scalar { bytes }
    }

    /// The element of a small integer.
    pub fn from_u64(x: u64) -> (r: Scalar)
        ensures
            r@ == x as int,
    {
        proof {
            lemma_ell();
        }
        Scalar::wrap(dalek_from_u64(x))
    }

    pub fn zero() -> (r: Scalar)
        ensures
            r@ == 0,
    {
        Scalar::from_u64(0)
    }

    pub fn one() -> (r: Scalar)
        ensures
            r@ == 1,
    {
        Scalar::from_u64(1)
    }

    /// Reads a canonical encoding; anything else is refused.
    pub fn from_canonical_bytes(bytes: [u8; 32]) -> (r: Option<Scalar>)
        ensures
            r is Some <==> le_value(bytes@) < ell(),
            r matches Some(s) ==> s@ == le_value(bytes@),
    {
        if dalek_is_canonical(&bytes) {
            Some(Scalar::wrap(bytes))
        } else {
            None
        }
    }

    /// Reduces a 512-bit integer.
    pub fn from_bytes_mod_order_wide(bytes: &[u8; 64]) -> (r: Scalar)
        ensures
            r@ == le_value(bytes@) % ell(),
    {
        proof {
            lemma_mod_range(le_value(bytes@));
        }
        Scalar::wrap(dalek_reduce_wide(bytes))
    }

    /// The canonical encoding.
    pub fn to_bytes(&self) -> (r: [u8; 32])
        ensures
            le_value(r@) == self@,
    {
        proof {
            use_type_invariant(self);
            Self::lemma_canonical(self.bytes@);
        }
        self.bytes
    }

    pub fn plus(&self, other: &Scalar) -> (r: Scalar)
        ensures
            r@ == (self@ + other@) % ell(),
    {
        proof {
            use_type_invariant(self);
            use_type_invariant(other);
            Self::lemma_canonical(self.bytes@);
            Self::lemma_canonical(other.bytes@);
            lemma_mod_range(self@ + other@);
        }
        Scalar::wrap(dalek_add(&self.bytes, &other.bytes))
    }

    pub fn minus(&self, other: &Scalar) -> (r: Scalar)
        ensures
            r@ == (self@ - other@) % ell(),
    {
        proof {
            use_type_invariant(self);
            use_type_invariant(other);
            Self::lemma_canonical(self.bytes@);
            Self::lemma_canonical(other.bytes@);
            lemma_mod_range(self@ - other@);
        }
        Scalar::wrap(dalek_sub(&self.bytes, &other.bytes))
    }

    pub fn times(&self, other: &Scalar) -> (r: Scalar)
        ensures
            r@ == (self@ * other@) % ell(),
    {
        proof {
            use_type_invariant(self);
            use_type_invariant(other);
            Self::lemma_canonical(self.bytes@);
            Self::lemma_canonical(other.bytes@);
            lemma_mod_range(self@ * other@);
        }
        Scalar::wrap(dalek_mul(&self.bytes, &other.bytes))
    }

    /// The multiplicative inverse of a nonzero element.
    pub fn invert(&self) -> (r: Scalar)
        requires
            self@ != 0,
        ensures
            is_unit(self@),
            r@ == inverse(self@),
    {
        proof {
            use_type_invariant(self);
            Self::lemma_canonical(self.bytes@);
        }
        let bytes = dalek_invert(&self.bytes);
        let r = Scalar::wrap(bytes);
        proof {
            lemma_inverse_unique(self@, r@, inverse(self@));
        }
        r
    }

    /// Whether two elements are equal. Where they are not, their difference is a unit.
    pub fn same(&self, other: &Scalar) -> (r: bool)
        ensures
            r == (self@ == other@),
            !r ==> is_unit(self@ - other@),
    {
        proof {
            use_type_invariant(self);
            use_type_invariant(other);
            Self::lemma_canonical(self.bytes@);
            Self::lemma_canonical(other.bytes@);
        }
        dalek_eq(&self.bytes, &other.bytes)
    }

    /// Whether the element is zero. Where it is not, it is a unit.
    pub fn is_zero(&self) -> (r: bool)
        ensures
            r == (self@ == 0),
            r == !is_unit(self@),
    {
        let zero = Scalar::zero();
        let r = self.same(&zero);
        proof {
            if r {
                crate::field::lemma_zero_not_unit(self@);
            }
        }
        r
    }
}

/// Whether two sequences of elements are equal.
pub fn same_scalars(a: &[Scalar], b: &[Scalar]) -> (r: bool)
    ensures
        r == (values(a@) == values(b@)),
{
    if a.len() != b.len() {
        assert(values(a@).len() != values(b@).len());
        return false;
    }
    let n: usize = a.len();
    let mut i: usize = 0;
    while i < n
        invariant
            n == a@.len(),
            n == b@.len(),
            i <= n,
            forall|j: int| 0 <= j < i ==> a@[j]@ == b@[j]@,
        decreases n - i,
    {
        if !a[i].same(&b[i]) {
            assert(values(a@)[i as int] != values(b@)[i as int]);
            return false;
        }
        i += 1;
    }
    assert(values(a@) =~= values(b@));
    true
}

} // verus!
