//! What the tower fields, their embeddings and the packed vectors are.
use vstd::arithmetic::div_mod::*;
use vstd::arithmetic::power2::*;
use vstd::prelude::*;

use crate::arith::low_half;
use crate::field::{lemma_add_group, lemma_mul_zero, BinaryField, FieldEmbedding, TowerField};
use crate::packed::{
    flat, interleaved_first, interleaved_second, lane_products, lane_sums, lemma_flat, Doubled,
    PackedField,
};
use crate::tower::{BinaryField1b, Quadratic};

verus! {

/// The field of two elements: addition is exclusive or, and multiplication is conjunction.
pub proof fn law_one_bit(a: BinaryField1b, b: BinaryField1b)
    ensures
        BinaryField1b::n_bits() == 1,
        BinaryField1b::f_zero() == BinaryField1b(false),
        BinaryField1b::f_one() == BinaryField1b(true),
        a.f_add(b) == BinaryField1b(a.0 != b.0),
        a.f_mul(b) == BinaryField1b(a.0 && b.0),
        a.f_coord(0) == a.0,
        BinaryField1b::f_basis(0) == BinaryField1b(true),
        BinaryField1b::f_alpha() == BinaryField1b(true),
{
}

/// The extension has twice the degree. The coordinates of `lo + hi X` are those of `lo`, followed
/// by those of `hi`, and addition is that of the two parts.
pub proof fn law_extension<B: TowerField>(a: Quadratic<B>, b: Quadratic<B>, i: nat)
    ensures
        Quadratic::<B>::n_bits() == 2 * B::n_bits(),
        i < B::n_bits() ==> a.f_coord(i) == a.lo.f_coord(i),
        a.f_coord(B::n_bits() + i) == a.hi.f_coord(i),
        a.f_add(b).lo == a.lo.f_add(b.lo),
        a.f_add(b).hi == a.hi.f_add(b.hi),
        Quadratic::<B>::f_zero() == (Quadratic { lo: B::f_zero(), hi: B::f_zero() }),
        Quadratic::<B>::f_one() == (Quadratic { lo: B::f_one(), hi: B::f_zero() }),
{
}

/// The basis of the extension: that of the smaller field, and its multiples by `X`.
pub proof fn law_extension_basis<B: TowerField>(i: nat)
    requires
        i < B::n_bits(),
    ensures
        Quadratic::<B>::f_basis(i) == (Quadratic { lo: B::f_basis(i), hi: B::f_zero() }),
        Quadratic::<B>::f_basis(B::n_bits() + i) == (Quadratic {
            lo: B::f_zero(),
            hi: B::f_basis(i),
        }),
{
}

/// Multiplication in the extension: elements of the smaller field are multiplied there, they scale
/// multiples of `X`, and `X^2` is `alpha X + 1`, where `alpha` is the generator of the smaller
/// field. Every element is the sum of one of each kind.
pub proof fn law_extension_product<B: TowerField>(x: B, y: B)
    ensures
        ({
            let z = B::f_zero();
            let x0 = Quadratic { lo: x, hi: z };
            let y0 = Quadratic { lo: y, hi: z };
            let x1 = Quadratic { lo: z, hi: x };
            let y1 = Quadratic { lo: z, hi: y };
            &&& x0.f_mul(y0) == Quadratic { lo: x.f_mul(y), hi: z }
            &&& x0.f_mul(y1) == Quadratic { lo: z, hi: x.f_mul(y) }
            &&& x1.f_mul(y1) == Quadratic { lo: x.f_mul(y), hi: x.f_mul(y).f_mul(B::f_alpha()) }
            &&& x0.f_add(y1) == Quadratic { lo: x, hi: y }
        }),
        Quadratic::<B>::f_alpha() == (Quadratic { lo: B::f_zero(), hi: B::f_one() }),
{
    let z = B::f_zero();
    lemma_mul_zero(x);
    lemma_mul_zero(y);
    lemma_mul_zero(z);
    lemma_mul_zero(B::f_alpha());
    lemma_add_group(z, z, z);
    lemma_add_group(x, z, z);
    lemma_add_group(y, z, z);
    lemma_add_group(x.f_mul(y), z, z);
    lemma_add_group(x.f_mul(y).f_mul(B::f_alpha()), z, z);
}

/// An embedding takes the canonical basis to the canonical basis.
pub proof fn law_embed_basis<D: BinaryField, F: FieldEmbedding<D>>(i: nat)
    requires
        i < D::n_bits(),
        i < F::n_bits(),
    ensures
        F::f_embed(D::f_basis(i)) == F::f_basis(i),
{
    assert forall|j: nat| F::f_embed(D::f_basis(i)).f_coord(j) == F::f_basis(i).f_coord(j) by {
        F::law_embed_coord(D::f_basis(i), j);
        D::law_coord_basis(i, j);
        F::law_coord_basis(i, j);
    }
    F::law_coord_ext(F::f_embed(D::f_basis(i)), F::f_basis(i));
}

/// Embedding a field in itself changes nothing.
pub proof fn law_embed_identity<F: BinaryField>(d: F)
    ensures
        <F as FieldEmbedding<F>>::f_embed(d) == d,
{
    assert forall|j: nat| <F as FieldEmbedding<F>>::f_embed(d).f_coord(j) == d.f_coord(j) by {
        <F as FieldEmbedding<F>>::law_embed_coord(d, j);
    }
    F::law_coord_ext(<F as FieldEmbedding<F>>::f_embed(d), d);
}

/// Embedding by way of a field in between is embedding at once.
pub proof fn law_embed_compose<D, E, F>(d: D) where
    D: BinaryField,
    E: FieldEmbedding<D>,
    F: FieldEmbedding<D> + FieldEmbedding<E>,

    ensures
        <F as FieldEmbedding<E>>::f_embed(<E as FieldEmbedding<D>>::f_embed(d))
            == <F as FieldEmbedding<D>>::f_embed(d),
{
    let e = <E as FieldEmbedding<D>>::f_embed(d);
    let l = <F as FieldEmbedding<E>>::f_embed(e);
    let r = <F as FieldEmbedding<D>>::f_embed(d);
    assert forall|j: nat| l.f_coord(j) == r.f_coord(j) by {
        <F as FieldEmbedding<E>>::law_embed_coord(e, j);
        <E as FieldEmbedding<D>>::law_embed_coord(d, j);
        <F as FieldEmbedding<D>>::law_embed_coord(d, j);
    }
    F::law_coord_ext(l, r);
}

/// A scalar is its only lane.
pub proof fn law_scalar_lanes<F: BinaryField>(a: F)
    ensures
        <F as PackedField>::log_w() == 0,
        <F as PackedField>::lanes(a) == seq![a],
{
}

/// The lanes of a doubled vector are those of its two halves.
pub proof fn law_doubled_lanes<P: PackedField>(v: Doubled<P>, l: int)
    requires
        0 <= l < pow2(P::log_w()),
    ensures
        Doubled::<P>::log_w() == P::log_w() + 1,
        v.lanes().len() == 2 * pow2(P::log_w()),
        v.lanes()[l] == v.lo.lanes()[l],
        v.lanes()[pow2(P::log_w()) + l] == v.hi.lanes()[l],
{
    v.lo.law_lanes();
    v.hi.law_lanes();
    assert(v.lanes() == v.lo.lanes() + v.hi.lanes());
}

/// Vectors are added and multiplied lane by lane.
pub proof fn law_lane_arithmetic<F: BinaryField>(a: Seq<F>, b: Seq<F>, l: int)
    requires
        a.len() == b.len(),
        0 <= l < a.len(),
    ensures
        lane_sums(a, b).len() == a.len(),
        lane_products(a, b).len() == a.len(),
        lane_sums(a, b)[l] == a[l].f_add(b[l]),
        lane_products(a, b)[l] == a[l].f_mul(b[l]),
{
}

/// Interleaving exchanges the odd blocks of length `h` of the first vector with the even blocks of
/// the second.
pub proof fn law_interleaved<F>(a: Seq<F>, b: Seq<F>, h: int, l: int)
    requires
        a.len() == b.len(),
        0 < h,
        a.len() as int % (2 * h) == 0,
        0 <= l < a.len(),
    ensures
        interleaved_first(a, b, h).len() == a.len(),
        interleaved_second(a, b, h).len() == a.len(),
        (l / h) % 2 == 0 ==> {
            &&& l + h < a.len()
            &&& interleaved_first(a, b, h)[l] == a[l]
            &&& interleaved_first(a, b, h)[l + h] == b[l]
            &&& interleaved_second(a, b, h)[l] == a[l + h]
            &&& interleaved_second(a, b, h)[l + h] == b[l + h]
        },
        (l / h) % 2 != 0 ==> l >= h,
{
    let q = l / h;
    let r = l % h;
    lemma_fundamental_div_mod(l, h);
    lemma_mod_bound(l, h);
    let c = a.len() as int / (2 * h);
    lemma_fundamental_div_mod(a.len() as int, 2 * h);
    assert(q < 2 * c && q >= 0) by (nonlinear_arith)
        requires
            l == h * q + r,
            0 <= r < h,
            0 <= l < (2 * h) * c,
    ;
    if q % 2 == 0 {
        assert(h * (q + 1) + r < (2 * h) * c) by (nonlinear_arith)
            requires
                q + 2 <= 2 * c,
                0 <= r < h,
        ;
        assert(h * (q + 1) == h * q + h) by (nonlinear_arith);
        lemma_fundamental_div_mod_converse(l + h, h, q + 1, r);
    } else {
        assert(h * q >= h) by (nonlinear_arith)
            requires
                q >= 1,
                h > 0,
        ;
    }
}

/// The scalars of vectors: lane `l` of vector `e` is scalar number `e 2^log_w + l`.
pub proof fn law_flat_lanes<P: PackedField>(s: Seq<P>, e: int, l: int)
    requires
        0 <= e < s.len(),
        0 <= l < pow2(P::log_w()),
    ensures
        flat(s).len() == s.len() * pow2(P::log_w()),
        s[e].lanes().len() == pow2(P::log_w()),
        0 <= e * pow2(P::log_w()) + l < s.len() * pow2(P::log_w()),
        flat(s)[e * pow2(P::log_w()) + l] == s[e].lanes()[l],
{
    lemma_flat(s, e, l);
    s[e].law_lanes();
}

/// The lower half of a block of length `2 h`, and the binary digits of a number.
pub proof fn law_low_half(l: int, h: int)
    ensures
        low_half(l, h) == ((l / h) % 2 == 0),
{
}

} // verus!
