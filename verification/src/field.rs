//! Binary fields: what the transforms need to know of their scalars.
use vstd::arithmetic::div_mod::*;
use vstd::arithmetic::power2::*;
use vstd::prelude::*;

use crate::arith::{lemma_digits, low_half};

verus! {

/// A finite field of characteristic two.
///
/// The spec functions `f_zero`, `f_one`, `f_add`, `f_mul` and `f_inv` are the field operations,
/// and the proof functions are the field axioms. As a vector space over the field of two
/// elements the field has the dimension `n_bits` and the canonical basis `f_basis`;
/// `f_coord(i)` is the coordinate with respect to the `i`-th basis element.
pub trait BinaryField: Copy + Sized {
    /// The additive identity.
    spec fn f_zero() -> Self;

    /// The multiplicative identity.
    spec fn f_one() -> Self;

    /// The sum of two elements.
    spec fn f_add(self, rhs: Self) -> Self;

    /// The product of two elements.
    spec fn f_mul(self, rhs: Self) -> Self;

    /// The multiplicative inverse of a nonzero element.
    spec fn f_inv(self) -> Self;

    /// The degree of the field over the field of two elements.
    spec fn n_bits() -> nat;

    /// The `i`-th element of the canonical basis.
    spec fn f_basis(i: nat) -> Self;

    /// The coordinate at the `i`-th element of the canonical basis.
    spec fn f_coord(self, i: nat) -> bool;

    /// The coordinates of a sum are the sums of the coordinates.
    proof fn law_coord_add(a: Self, b: Self, i: nat)
        ensures
            a.f_add(b).f_coord(i) == (a.f_coord(i) != b.f_coord(i)),
    ;

    /// Zero has only zero coordinates.
    proof fn law_coord_zero(i: nat)
        ensures
            !Self::f_zero().f_coord(i),
    ;

    /// There are no coordinates past the degree.
    proof fn law_coord_range(a: Self, i: nat)
        requires
            i >= Self::n_bits(),
        ensures
            !a.f_coord(i),
    ;

    /// The basis is dual to the coordinates.
    proof fn law_coord_basis(i: nat, j: nat)
        requires
            i < Self::n_bits(),
        ensures
            Self::f_basis(i).f_coord(j) == (i == j),
    ;

    /// An element is determined by its coordinates.
    proof fn law_coord_ext(a: Self, b: Self)
        requires
            forall|i: nat| a.f_coord(i) == b.f_coord(i),
        ensures
            a == b,
    ;

    /// Multiplication commutes.
    proof fn law_mul_comm(a: Self, b: Self)
        ensures
            a.f_mul(b) == b.f_mul(a),
    ;

    /// Multiplication associates.
    proof fn law_mul_assoc(a: Self, b: Self, c: Self)
        ensures
            a.f_mul(b).f_mul(c) == a.f_mul(b.f_mul(c)),
    ;

    /// Multiplication distributes over addition.
    proof fn law_mul_add(a: Self, b: Self, c: Self)
        ensures
            a.f_mul(b.f_add(c)) == a.f_mul(b).f_add(a.f_mul(c)),
    ;

    /// One is neutral for multiplication.
    proof fn law_mul_one(a: Self)
        ensures
            a.f_mul(Self::f_one()) == a,
    ;

    /// One differs from zero.
    proof fn law_one_nonzero()
        ensures
            Self::f_one() != Self::f_zero(),
    ;

    /// Every nonzero element has an inverse.
    proof fn law_inv(a: Self)
        requires
            a != Self::f_zero(),
        ensures
            a.f_mul(a.f_inv()) == Self::f_one(),
    ;

    /// Returns the additive identity.
    fn zero() -> (r: Self)
        ensures
            r == Self::f_zero(),
    ;

    /// Returns the multiplicative identity.
    fn one() -> (r: Self)
        ensures
            r == Self::f_one(),
    ;

    /// Adds two elements.
    fn add(self, rhs: Self) -> (r: Self)
        ensures
            r == self.f_add(rhs),
    ;

    /// Multiplies two elements.
    fn mul(self, rhs: Self) -> (r: Self)
        ensures
            r == self.f_mul(rhs),
    ;

    /// Returns the inverse, or `None` exactly on zero.
    fn invert(self) -> (r: Option<Self>)
        ensures
            self == Self::f_zero() ==> r == None::<Self>,
            self != Self::f_zero() ==> r == Some(self.f_inv()),
    ;

    /// Returns the degree of the field over the field of two elements.
    fn degree() -> (r: usize)
        requires
            Self::n_bits() <= usize::MAX,
        ensures
            r == Self::n_bits(),
    ;

    /// Returns the `i`-th element of the canonical basis.
    fn basis(i: usize) -> (r: Self)
        requires
            i < Self::n_bits() <= usize::MAX,
        ensures
            r == Self::f_basis(i as nat),
    ;
}

/// The coordinates of a sum, as a rewriting rule.
pub broadcast proof fn lemma_coord_add<F: BinaryField>(a: F, b: F, i: nat)
    ensures
        #[trigger] a.f_add(b).f_coord(i) == (a.f_coord(i) != b.f_coord(i)),
{
    F::law_coord_add(a, b, i);
}

/// The coordinates of zero, as a rewriting rule.
pub broadcast proof fn lemma_coord_zero<F: BinaryField>(i: nat)
    ensures
        !(#[trigger] F::f_zero().f_coord(i)),
{
    F::law_coord_zero(i);
}

pub broadcast group group_coord {
    lemma_coord_add,
    lemma_coord_zero,
}

/// Addition is a commutative group of exponent two.
pub proof fn lemma_add_group<F: BinaryField>(a: F, b: F, c: F)
    ensures
        a.f_add(b) == b.f_add(a),
        a.f_add(b).f_add(c) == a.f_add(b.f_add(c)),
        a.f_add(F::f_zero()) == a,
        F::f_zero().f_add(a) == a,
        a.f_add(a) == F::f_zero(),
        a.f_add(b).f_add(b) == a,
        a.f_add(a.f_add(b)) == b,
{
    broadcast use group_coord;

    F::law_coord_ext(a.f_add(b), b.f_add(a));
    F::law_coord_ext(a.f_add(b).f_add(c), a.f_add(b.f_add(c)));
    F::law_coord_ext(a.f_add(F::f_zero()), a);
    F::law_coord_ext(F::f_zero().f_add(a), a);
    F::law_coord_ext(a.f_add(a), F::f_zero());
    F::law_coord_ext(a.f_add(b).f_add(b), a);
    F::law_coord_ext(a.f_add(a.f_add(b)), b);
}

/// Two sums of four terms that differ in the order of the terms are equal.
pub proof fn lemma_add_swap<F: BinaryField>(a: F, b: F, c: F, d: F)
    ensures
        a.f_add(b).f_add(c.f_add(d)) == a.f_add(c).f_add(b.f_add(d)),
{
    broadcast use group_coord;

    F::law_coord_ext(a.f_add(b).f_add(c.f_add(d)), a.f_add(c).f_add(b.f_add(d)));
}

/// Multiplication distributes from the right too.
pub proof fn lemma_add_mul<F: BinaryField>(a: F, b: F, c: F)
    ensures
        a.f_add(b).f_mul(c) == a.f_mul(c).f_add(b.f_mul(c)),
{
    F::law_mul_comm(a.f_add(b), c);
    F::law_mul_add(c, a, b);
    F::law_mul_comm(c, a);
    F::law_mul_comm(c, b);
}

/// Two products of four factors that differ in the order of the factors are equal.
pub proof fn lemma_mul_swap<F: BinaryField>(a: F, b: F, c: F, d: F)
    ensures
        a.f_mul(b).f_mul(c.f_mul(d)) == a.f_mul(c).f_mul(b.f_mul(d)),
{
    F::law_mul_assoc(a, b, c.f_mul(d));
    F::law_mul_assoc(b, c, d);
    F::law_mul_comm(b, c);
    F::law_mul_assoc(c, b, d);
    F::law_mul_assoc(a, c, b.f_mul(d));
}

/// Zero annihilates.
pub proof fn lemma_mul_zero<F: BinaryField>(a: F)
    ensures
        a.f_mul(F::f_zero()) == F::f_zero(),
        F::f_zero().f_mul(a) == F::f_zero(),
{
    let z = F::f_zero();
    lemma_add_group(z, z, z);
    F::law_mul_add(a, z, z);
    lemma_add_group(a.f_mul(z), z, z);
    F::law_mul_comm(a, z);
}

/// A field has no zero divisors.
pub proof fn lemma_mul_nonzero<F: BinaryField>(a: F, b: F)
    ensures
        a.f_mul(b) == F::f_zero() <==> a == F::f_zero() || b == F::f_zero(),
{
    lemma_mul_zero(a);
    lemma_mul_zero(b);
    if a.f_mul(b) == F::f_zero() && a != F::f_zero() {
        let i = a.f_inv();
        F::law_inv(a);
        F::law_mul_comm(a, i);
        F::law_mul_assoc(i, a, b);
        lemma_mul_zero(i);
        F::law_mul_comm(F::f_one(), b);
        F::law_mul_one(b);
    }
}

/// Squaring is additive.
pub proof fn lemma_square_add<F: BinaryField>(a: F, b: F)
    ensures
        a.f_add(b).f_mul(a.f_add(b)) == a.f_mul(a).f_add(b.f_mul(b)),
{
    broadcast use group_coord;

    let s = a.f_add(b);
    lemma_add_mul(a, b, s);
    F::law_mul_add(a, a, b);
    F::law_mul_add(b, a, b);
    F::law_mul_comm(a, b);
    F::law_coord_ext(s.f_mul(s), a.f_mul(a).f_add(b.f_mul(b)));
}

/// Returns the element whose coordinates are the binary digits of `bits`.
pub fn from_bits<F: BinaryField>(bits: u128) -> (r: F)
    requires
        F::n_bits() <= usize::MAX,
    ensures
        forall|i: nat|
            #[trigger] r.f_coord(i) == (i < F::n_bits() && !low_half(bits as int, pow2(i) as int)),
{
    let n = F::degree();
    let mut acc = F::zero();
    let mut rest: u128 = bits;
    let mut i: usize = 0;
    proof {
        lemma2_to64();
        lemma_digits(bits as int, 1, 0);
        assert forall|j: nat| !(#[trigger] acc.f_coord(j)) by {
            F::law_coord_zero(j);
        }
    }
    while i < n && rest > 0
        invariant
            i <= n,
            n == F::n_bits(),
            n <= usize::MAX,
            rest == bits as int / pow2(i as nat) as int,
            forall|j: nat|
                #[trigger] acc.f_coord(j) == (j < i && !low_half(bits as int, pow2(j) as int)),
        decreases n - i,
    {
        let ghost before = acc;
        if rest % 2 == 1 {
            acc = acc.add(F::basis(i));
        }
        proof {
            lemma_pow2_pos(i as nat);
            lemma_pow2_unfold((i + 1) as nat);
            lemma_div_denominator(bits as int, pow2(i as nat) as int, 2);
            assert forall|j: nat| #[trigger] acc.f_coord(j) == (j < i + 1 && !low_half(
                bits as int,
                pow2(j) as int,
            )) by {
                F::law_coord_basis(i as nat, j);
                F::law_coord_add(before, F::f_basis(i as nat), j);
                assert(before.f_coord(j) == (j < i && !low_half(bits as int, pow2(j) as int)));
            }
        }
        rest = rest / 2;
        i = i + 1;
    }
    proof {
        assert forall|j: nat| #[trigger] acc.f_coord(j) == (j < F::n_bits() && !low_half(
            bits as int,
            pow2(j) as int,
        )) by {
            if i <= j < n {
                // The digits from number i on are zero.
                let g = pow2((j - i) as nat) as int;
                lemma_pow2_pos(i as nat);
                lemma_pow2_pos((j - i) as nat);
                lemma_pow2_adds(i as nat, (j - i) as nat);
                lemma_div_denominator(bits as int, pow2(i as nat) as int, g);
                lemma_digits(0, g, 0);
            }
        }
    }
    acc
}

/// An embedding of the field `D` into a field.
pub trait FieldEmbedding<D: BinaryField>: BinaryField {
    /// The image of an element.
    spec fn f_embed(d: D) -> Self;

    /// The embedding is additive.
    proof fn law_embed_add(a: D, b: D)
        ensures
            Self::f_embed(a.f_add(b)) == Self::f_embed(a).f_add(Self::f_embed(b)),
    ;

    /// The embedding is multiplicative.
    proof fn law_embed_mul(a: D, b: D)
        ensures
            Self::f_embed(a.f_mul(b)) == Self::f_embed(a).f_mul(Self::f_embed(b)),
    ;

    /// The embedding keeps one.
    proof fn law_embed_one()
        ensures
            Self::f_embed(D::f_one()) == Self::f_one(),
    ;

    /// The embedding keeps the coordinates.
    proof fn law_embed_coord(d: D, i: nat)
        ensures
            Self::f_embed(d).f_coord(i) == d.f_coord(i),
    ;

    /// Returns the image of an element.
    fn embed(d: D) -> (r: Self)
        ensures
            r == Self::f_embed(d),
    ;
}

/// A tower field: a binary field over which a further quadratic extension can be built.
///
/// The extension adjoins a root of `X^2 + alpha X + 1`; that this polynomial has no root yet is
/// seen from the absolute trace, which is one on the inverse of `alpha`.
pub trait TowerField: BinaryField {
    /// The field of the canonical tower that is isomorphic to this one.
    type Canonical: BinaryField;

    /// The canonical field has the same degree.
    proof fn law_canonical()
        ensures
            <Self::Canonical as BinaryField>::n_bits() == Self::n_bits(),
    ;

    /// The middle coefficient of the polynomial that defines the next extension.
    spec fn f_alpha() -> Self;

    /// The inverse of `f_alpha`.
    spec fn f_alpha_inv() -> Self;

    /// The absolute trace.
    spec fn f_trace(self) -> bool;

    /// The trace is additive.
    proof fn law_trace_add(a: Self, b: Self)
        ensures
            a.f_add(b).f_trace() == (a.f_trace() != b.f_trace()),
    ;

    /// The trace does not tell an element from its square.
    proof fn law_trace_square(a: Self)
        ensures
            a.f_mul(a).f_trace() == a.f_trace(),
    ;

    /// `f_alpha` is a unit, and both it and its inverse have trace one.
    proof fn law_alpha()
        ensures
            Self::f_alpha().f_mul(Self::f_alpha_inv()) == Self::f_one(),
            Self::f_alpha().f_trace(),
            Self::f_alpha_inv().f_trace(),
    ;

    /// Returns the middle coefficient of the polynomial that defines the next extension.
    fn alpha() -> (r: Self)
        ensures
            r == Self::f_alpha(),
    ;
}

} // verus!
