//! The canonical tower of binary fields.
//!
//! The tower starts with the field of two elements. Each further level adjoins a root `X` of
//! `X^2 + alpha X + 1` to the level below, where `alpha` is the root that the level below
//! adjoined (and one at the bottom).
use vstd::prelude::*;

use crate::field::{
    group_coord, lemma_add_group, lemma_add_mul, lemma_mul_nonzero, lemma_mul_swap, lemma_mul_zero,
    BinaryField, FieldEmbedding, TowerField,
};

verus! {

/// The field of two elements.
#[derive(Clone, Copy, Debug, PartialEq, Eq)]
pub struct BinaryField1b(pub bool);

impl BinaryField for BinaryField1b {
    open spec fn f_zero() -> Self {
        BinaryField1b(false)
    }

    open spec fn f_one() -> Self {
        BinaryField1b(true)
    }

    open spec fn f_add(self, rhs: Self) -> Self {
        BinaryField1b(self.0 != rhs.0)
    }

    open spec fn f_mul(self, rhs: Self) -> Self {
        BinaryField1b(self.0 && rhs.0)
    }

    open spec fn f_inv(self) -> Self {
        self
    }

    open spec fn n_bits() -> nat {
        1
    }

    open spec fn f_basis(i: nat) -> Self {
        BinaryField1b(true)
    }

    open spec fn f_coord(self, i: nat) -> bool {
        i == 0 && self.0
    }

    proof fn law_coord_add(a: Self, b: Self, i: nat) {
    }

    proof fn law_coord_zero(i: nat) {
    }

    proof fn law_coord_range(a: Self, i: nat) {
    }

    proof fn law_coord_basis(i: nat, j: nat) {
    }

    proof fn law_coord_ext(a: Self, b: Self) {
        assert(a.f_coord(0) == b.f_coord(0));
    }

    proof fn law_mul_comm(a: Self, b: Self) {
    }

    proof fn law_mul_assoc(a: Self, b: Self, c: Self) {
    }

    proof fn law_mul_add(a: Self, b: Self, c: Self) {
    }

    proof fn law_mul_one(a: Self) {
    }

    proof fn law_one_nonzero() {
    }

    proof fn law_inv(a: Self) {
    }

    fn zero() -> (r: Self) {
        BinaryField1b(false)
    }

    fn one() -> (r: Self) {
        BinaryField1b(true)
    }

    fn add(self, rhs: Self) -> (r: Self) {
        BinaryField1b(self.0 != rhs.0)
    }

    fn mul(self, rhs: Self) -> (r: Self) {
        BinaryField1b(self.0 && rhs.0)
    }

    fn invert(self) -> (r: Option<Self>) {
        if self.0 {
            Some(self)
        } else {
            None
        }
    }

    fn degree() -> (r: usize) {
        1
    }

    fn basis(i: usize) -> (r: Self) {
        BinaryField1b(true)
    }
}

impl TowerField for BinaryField1b {
    type Canonical = BinaryField1b;

    proof fn law_canonical() {
    }

    open spec fn f_alpha() -> Self {
        BinaryField1b(true)
    }

    open spec fn f_alpha_inv() -> Self {
        BinaryField1b(true)
    }

    open spec fn f_trace(self) -> bool {
        self.0
    }

    proof fn law_trace_add(a: Self, b: Self) {
    }

    proof fn law_trace_square(a: Self) {
    }

    proof fn law_alpha() {
    }

    fn alpha() -> (r: Self) {
        BinaryField1b(true)
    }
}

/// The quadratic extension `lo + hi X` of the tower field `B`, with `X^2 = alpha X + 1`.
#[derive(Debug, PartialEq, Eq)]
pub struct Quadratic<B> {
    pub lo: B,
    pub hi: B,
}

impl<B: Copy> Copy for Quadratic<B> {

}

impl<B: Copy> Clone for Quadratic<B> {
    fn clone(&self) -> (r: Self)
        ensures
            r == *self,
    {
        *self
    }
}

/// The norm of `lo + hi X`: its product with the conjugate `lo + hi alpha + hi X`.
pub open spec fn norm<B: TowerField>(a: Quadratic<B>) -> B {
    a.lo.f_mul(a.lo).f_add(a.lo.f_mul(a.hi).f_mul(B::f_alpha())).f_add(a.hi.f_mul(a.hi))
}

/// The conjugate of `lo + hi X`.
pub open spec fn conjugate<B: TowerField>(a: Quadratic<B>) -> Quadratic<B> {
    Quadratic { lo: a.lo.f_add(a.hi.f_mul(B::f_alpha())), hi: a.hi }
}

/// An element times its conjugate is its norm.
proof fn lemma_norm<B: TowerField>(a: Quadratic<B>)
    ensures
        a.f_mul(conjugate(a)) == (Quadratic { lo: norm(a), hi: B::f_zero() }),
{
    broadcast use group_coord;

    let al = B::f_alpha();
    let ha = a.hi.f_mul(al);
    let c = conjugate(a);
    B::law_mul_add(a.lo, a.lo, ha);
    B::law_mul_assoc(a.lo, a.hi, al);
    B::law_coord_ext(a.f_mul(c).lo, norm(a));
    B::law_mul_add(a.hi, a.lo, ha);
    B::law_mul_comm(a.lo, a.hi);
    B::law_mul_assoc(a.hi, a.hi, al);
    B::law_coord_ext(a.f_mul(c).hi, B::f_zero());
}

/// Only zero has the norm zero: `X^2 + alpha X + 1` has no root in `B`.
proof fn lemma_norm_nonzero<B: TowerField>(a: Quadratic<B>)
    ensures
        norm(a) == B::f_zero() <==> a == Quadratic::<B>::f_zero(),
{
    let z = B::f_zero();
    let al = B::f_alpha();
    lemma_mul_zero(z);
    lemma_mul_zero(al);
    lemma_add_group(z, z, z);
    if norm(a) == z && a.hi == z {
        lemma_mul_zero(a.lo);
        lemma_add_group(a.lo.f_mul(a.lo), z, z);
        lemma_mul_nonzero(a.lo, a.lo);
    } else if a.hi != z {
        lemma_no_root(a);
    }
}

/// A zero of the norm off the base field would give `1 / alpha` the trace zero.
proof fn lemma_no_root<B: TowerField>(a: Quadratic<B>)
    requires
        a.hi != B::f_zero(),
    ensures
        norm(a) != B::f_zero(),
{
    let z = B::f_zero();
    let one = B::f_one();
    let al = B::f_alpha();
    let ai = B::f_alpha_inv();
    let hi = a.hi.f_inv();
    B::law_inv(a.hi);
    B::law_alpha();
    // Scaled by g^2, where g = 1 / (hi alpha), the norm becomes s^2 + s + (1 / alpha)^2.
    let g = hi.f_mul(ai);
    let gg = g.f_mul(g);
    let s = a.lo.f_mul(g);
    let n0 = a.lo.f_mul(a.lo);
    let n1 = a.lo.f_mul(a.hi).f_mul(al);
    let n2 = a.hi.f_mul(a.hi);
    lemma_add_mul(n0.f_add(n1), n2, gg);
    lemma_add_mul(n0, n1, gg);
    lemma_mul_zero(gg);
    lemma_mul_swap(a.lo, a.lo, g, g);
    assert(n0.f_mul(gg) == s.f_mul(s));
    let hal = a.hi.f_mul(al);
    assert(hal.f_mul(g) == one) by {
        lemma_mul_swap(a.hi, al, hi, ai);
        B::law_mul_one(one);
    }
    assert(n1.f_mul(gg) == s) by {
        B::law_mul_assoc(a.lo, a.hi, al);
        lemma_mul_swap(a.lo, hal, g, g);
        B::law_mul_one(s);
    }
    assert(a.hi.f_mul(g) == ai) by {
        B::law_mul_assoc(a.hi, hi, ai);
        B::law_mul_comm(one, ai);
        B::law_mul_one(ai);
    }
    lemma_mul_swap(a.hi, a.hi, g, g);
    assert(n2.f_mul(gg) == ai.f_mul(ai));
    assert(norm(a).f_mul(gg) == s.f_mul(s).f_add(s).f_add(ai.f_mul(ai)));
    B::law_trace_add(s.f_mul(s), s);
    B::law_trace_add(s.f_mul(s).f_add(s), ai.f_mul(ai));
    B::law_trace_square(s);
    B::law_trace_square(ai);
    B::law_trace_add(z, z);
    lemma_add_group(z, z, z);
}

impl<B: TowerField> BinaryField for Quadratic<B> {
    open spec fn f_zero() -> Self {
        Quadratic { lo: B::f_zero(), hi: B::f_zero() }
    }

    open spec fn f_one() -> Self {
        Quadratic { lo: B::f_one(), hi: B::f_zero() }
    }

    open spec fn f_add(self, rhs: Self) -> Self {
        Quadratic { lo: self.lo.f_add(rhs.lo), hi: self.hi.f_add(rhs.hi) }
    }

    open spec fn f_mul(self, rhs: Self) -> Self {
        Quadratic {
            lo: self.lo.f_mul(rhs.lo).f_add(self.hi.f_mul(rhs.hi)),
            hi: self.lo.f_mul(rhs.hi).f_add(self.hi.f_mul(rhs.lo)).f_add(
                self.hi.f_mul(rhs.hi).f_mul(B::f_alpha()),
            ),
        }
    }

    open spec fn f_inv(self) -> Self {
        let c = conjugate(self);
        let n = norm(self).f_inv();
        Quadratic { lo: c.lo.f_mul(n), hi: c.hi.f_mul(n) }
    }

    open spec fn n_bits() -> nat {
        2 * B::n_bits()
    }

    open spec fn f_basis(i: nat) -> Self {
        if i < B::n_bits() {
            Quadratic { lo: B::f_basis(i), hi: B::f_zero() }
        } else {
            Quadratic { lo: B::f_zero(), hi: B::f_basis((i - B::n_bits()) as nat) }
        }
    }

    open spec fn f_coord(self, i: nat) -> bool {
        if i < B::n_bits() {
            self.lo.f_coord(i)
        } else {
            self.hi.f_coord((i - B::n_bits()) as nat)
        }
    }

    proof fn law_coord_add(a: Self, b: Self, i: nat) {
        if i < B::n_bits() {
            B::law_coord_add(a.lo, b.lo, i);
        } else {
            B::law_coord_add(a.hi, b.hi, (i - B::n_bits()) as nat);
        }
    }

    proof fn law_coord_zero(i: nat) {
        if i < B::n_bits() {
            B::law_coord_zero(i);
        } else {
            B::law_coord_zero((i - B::n_bits()) as nat);
        }
    }

    proof fn law_coord_range(a: Self, i: nat) {
        B::law_coord_range(a.hi, (i - B::n_bits()) as nat);
    }

    proof fn law_coord_basis(i: nat, j: nat) {
        broadcast use group_coord;

        let n = B::n_bits();
        if i < n {
            B::law_coord_basis(i, j);
        } else if j >= n {
            B::law_coord_basis((i - n) as nat, (j - n) as nat);
        }
    }

    proof fn law_coord_ext(a: Self, b: Self) {
        let n = B::n_bits();
        assert forall|i: nat| a.lo.f_coord(i) == b.lo.f_coord(i) by {
            assert(a.f_coord(i) == b.f_coord(i));
            if i >= n {
                B::law_coord_range(a.lo, i);
                B::law_coord_range(b.lo, i);
            }
        }
        assert forall|i: nat| a.hi.f_coord(i) == b.hi.f_coord(i) by {
            assert(a.f_coord(i + n) == b.f_coord(i + n));
        }
        B::law_coord_ext(a.lo, b.lo);
        B::law_coord_ext(a.hi, b.hi);
    }

    proof fn law_mul_comm(a: Self, b: Self) {
        B::law_mul_comm(a.lo, b.lo);
        B::law_mul_comm(a.hi, b.hi);
        B::law_mul_comm(a.lo, b.hi);
        B::law_mul_comm(a.hi, b.lo);
        lemma_add_group(a.lo.f_mul(b.hi), a.hi.f_mul(b.lo), B::f_zero());
    }

    proof fn law_mul_assoc(a: Self, b: Self, c: Self) {
        lemma_quadratic_assoc(a, b, c);
    }

    proof fn law_mul_add(a: Self, b: Self, c: Self) {
        broadcast use group_coord;

        let s = b.f_add(c);
        let al = B::f_alpha();
        B::law_mul_add(a.lo, b.lo, c.lo);
        B::law_mul_add(a.lo, b.hi, c.hi);
        B::law_mul_add(a.hi, b.lo, c.lo);
        B::law_mul_add(a.hi, b.hi, c.hi);
        lemma_add_mul(a.hi.f_mul(b.hi), a.hi.f_mul(c.hi), al);
        let l = a.f_mul(s);
        let r = a.f_mul(b).f_add(a.f_mul(c));
        B::law_coord_ext(l.lo, r.lo);
        B::law_coord_ext(l.hi, r.hi);
    }

    proof fn law_mul_one(a: Self) {
        broadcast use group_coord;

        B::law_mul_one(a.lo);
        B::law_mul_one(a.hi);
        lemma_mul_zero(a.lo);
        lemma_mul_zero(a.hi);
        lemma_mul_zero(B::f_alpha());
        let r = a.f_mul(Self::f_one());
        B::law_coord_ext(r.lo, a.lo);
        B::law_coord_ext(r.hi, a.hi);
    }

    proof fn law_one_nonzero() {
        B::law_one_nonzero();
    }

    proof fn law_inv(a: Self) {
        lemma_norm(a);
        lemma_norm_nonzero(a);
        let n = norm(a).f_inv();
        B::law_inv(norm(a));
        // A factor in the base field scales both coordinates.
        let k = Quadratic { lo: n, hi: B::f_zero() };
        let c = conjugate(a);
        lemma_scale(c, n);
        lemma_quadratic_assoc(a, c, k);
        lemma_scale(a.f_mul(c), n);
        lemma_mul_zero(n);
    }

    fn zero() -> (r: Self) {
        Quadratic { lo: B::zero(), hi: B::zero() }
    }

    fn one() -> (r: Self) {
        Quadratic { lo: B::one(), hi: B::zero() }
    }

    fn add(self, rhs: Self) -> (r: Self) {
        Quadratic { lo: self.lo.add(rhs.lo), hi: self.hi.add(rhs.hi) }
    }

    fn mul(self, rhs: Self) -> (r: Self) {
        let hh = self.hi.mul(rhs.hi);
        Quadratic {
            lo: self.lo.mul(rhs.lo).add(hh),
            hi: self.lo.mul(rhs.hi).add(self.hi.mul(rhs.lo)).add(hh.mul(B::alpha())),
        }
    }

    fn invert(self) -> (r: Option<Self>) {
        let al = B::alpha();
        let n = self.lo.mul(self.lo).add(self.lo.mul(self.hi).mul(al)).add(self.hi.mul(self.hi));
        proof {
            lemma_norm_nonzero(self);
        }
        match n.invert() {
            None => None,
            Some(i) => Some(
                Quadratic { lo: self.lo.add(self.hi.mul(al)).mul(i), hi: self.hi.mul(i) },
            ),
        }
    }

    fn degree() -> (r: usize) {
        2 * B::degree()
    }

    fn basis(i: usize) -> (r: Self) {
        let n = B::degree();
        if i < n {
            Quadratic { lo: B::basis(i), hi: B::zero() }
        } else {
            Quadratic { lo: B::zero(), hi: B::basis(i - n) }
        }
    }
}

/// A factor from the base field scales both coordinates.
proof fn lemma_scale<B: TowerField>(a: Quadratic<B>, n: B)
    ensures
        a.f_mul(Quadratic { lo: n, hi: B::f_zero() }) == (Quadratic {
            lo: a.lo.f_mul(n),
            hi: a.hi.f_mul(n),
        }),
{
    broadcast use group_coord;

    lemma_mul_zero(a.lo);
    lemma_mul_zero(a.hi);
    lemma_mul_zero(B::f_alpha());
    let r = a.f_mul(Quadratic { lo: n, hi: B::f_zero() });
    B::law_coord_ext(r.lo, a.lo.f_mul(n));
    B::law_coord_ext(r.hi, a.hi.f_mul(n));
}

/// Multiplication in the extension associates.
proof fn lemma_quadratic_assoc<B: TowerField>(a: Quadratic<B>, b: Quadratic<B>, c: Quadratic<B>)
    ensures
        a.f_mul(b).f_mul(c) == a.f_mul(b.f_mul(c)),
{
    broadcast use group_coord;

    let al = B::f_alpha();
    let ab = a.f_mul(b);
    let bc = b.f_mul(c);
    let l = ab.f_mul(c);
    let r = a.f_mul(bc);
    // The products of three coordinates, each associated to the left.
    lemma_expand_left(a, b, c.lo);
    lemma_expand_left(a, b, c.hi);
    lemma_expand_right(a.lo, b, c);
    lemma_expand_right(a.hi, b, c);
    lemma_last_two(a.hi.f_mul(b.hi), al, c.lo);
    lemma_last_two(a.hi.f_mul(b.hi), al, c.hi);
    let m0 = a.lo.f_mul(b.hi).f_mul(c.hi);
    let m1 = a.hi.f_mul(b.lo).f_mul(c.hi);
    let m2 = a.hi.f_mul(b.hi).f_mul(c.hi).f_mul(al);
    // l.hi ends in (ab.hi c.hi) alpha, and r.hi in (a.hi bc.hi) alpha.
    lemma_add_mul(m0.f_add(m1), m2, al);
    lemma_add_mul(m0, m1, al);
    let k0 = a.hi.f_mul(b.lo).f_mul(c.hi);
    let k1 = a.hi.f_mul(b.hi).f_mul(c.lo);
    lemma_add_mul(k0.f_add(k1), m2, al);
    lemma_add_mul(k0, k1, al);
    B::law_coord_ext(l.lo, r.lo);
    B::law_coord_ext(l.hi, r.hi);
}

/// In a product of three factors the last two may be exchanged.
proof fn lemma_last_two<B: BinaryField>(a: B, b: B, c: B)
    ensures
        a.f_mul(b).f_mul(c) == a.f_mul(c).f_mul(b),
{
    B::law_mul_assoc(a, b, c);
    B::law_mul_comm(b, c);
    B::law_mul_assoc(a, c, b);
}

/// The coordinates of `a b`, times an element of the base field, multiplied out.
proof fn lemma_expand_left<B: TowerField>(a: Quadratic<B>, b: Quadratic<B>, x: B)
    ensures
        a.f_mul(b).lo.f_mul(x) == a.lo.f_mul(b.lo).f_mul(x).f_add(a.hi.f_mul(b.hi).f_mul(x)),
        a.f_mul(b).hi.f_mul(x) == a.lo.f_mul(b.hi).f_mul(x).f_add(
            a.hi.f_mul(b.lo).f_mul(x),
        ).f_add(a.hi.f_mul(b.hi).f_mul(x).f_mul(B::f_alpha())),
{
    let al = B::f_alpha();
    lemma_add_mul(a.lo.f_mul(b.lo), a.hi.f_mul(b.hi), x);
    let p = a.lo.f_mul(b.hi);
    let q = a.hi.f_mul(b.lo);
    let s = a.hi.f_mul(b.hi);
    lemma_add_mul(p.f_add(q), s.f_mul(al), x);
    lemma_add_mul(p, q, x);
    lemma_last_two(s, al, x);
}

/// An element of the base field times the coordinates of `b c`, multiplied out.
proof fn lemma_expand_right<B: TowerField>(x: B, b: Quadratic<B>, c: Quadratic<B>)
    ensures
        x.f_mul(b.f_mul(c).lo) == x.f_mul(b.lo).f_mul(c.lo).f_add(x.f_mul(b.hi).f_mul(c.hi)),
        x.f_mul(b.f_mul(c).hi) == x.f_mul(b.lo).f_mul(c.hi).f_add(
            x.f_mul(b.hi).f_mul(c.lo),
        ).f_add(x.f_mul(b.hi).f_mul(c.hi).f_mul(B::f_alpha())),
{
    let al = B::f_alpha();
    B::law_mul_assoc(x, b.lo, c.lo);
    B::law_mul_assoc(x, b.hi, c.hi);
    B::law_mul_assoc(x, b.lo, c.hi);
    B::law_mul_assoc(x, b.hi, c.lo);
    B::law_mul_add(x, b.lo.f_mul(c.lo), b.hi.f_mul(c.hi));
    let p = b.lo.f_mul(c.hi);
    let q = b.hi.f_mul(c.lo);
    let s = b.hi.f_mul(c.hi);
    B::law_mul_add(x, p.f_add(q), s.f_mul(al));
    B::law_mul_add(x, p, q);
    B::law_mul_assoc(x, s, al);
}

impl<B: TowerField> TowerField for Quadratic<B> {
    type Canonical = Quadratic<B>;

    proof fn law_canonical() {
    }

    open spec fn f_alpha() -> Self {
        Quadratic { lo: B::f_zero(), hi: B::f_one() }
    }

    open spec fn f_alpha_inv() -> Self {
        Quadratic { lo: B::f_alpha(), hi: B::f_one() }
    }

    open spec fn f_trace(self) -> bool {
        self.hi.f_mul(B::f_alpha()).f_trace()
    }

    proof fn law_trace_add(a: Self, b: Self) {
        let al = B::f_alpha();
        lemma_add_mul(a.hi, b.hi, al);
        B::law_trace_add(a.hi.f_mul(al), b.hi.f_mul(al));
    }

    proof fn law_trace_square(a: Self) {
        broadcast use group_coord;

        // The square has the upper coordinate hi^2 alpha.
        let al = B::f_alpha();
        let s = a.hi.f_mul(a.hi).f_mul(al);
        B::law_mul_comm(a.lo, a.hi);
        B::law_coord_ext(a.f_mul(a).hi, s);
        B::law_mul_assoc(a.hi.f_mul(a.hi), al, al);
        lemma_mul_swap(a.hi, a.hi, al, al);
        B::law_trace_square(a.hi.f_mul(al));
    }

    proof fn law_alpha() {
        broadcast use group_coord;

        let al = B::f_alpha();
        let one = B::f_one();
        B::law_alpha();
        B::law_mul_one(one);
        B::law_mul_one(al);
        B::law_mul_comm(one, al);
        lemma_mul_zero(al);
        lemma_mul_zero(one);
        let r = Self::f_alpha().f_mul(Self::f_alpha_inv());
        B::law_coord_ext(r.lo, one);
        B::law_coord_ext(r.hi, B::f_zero());
    }

    fn alpha() -> (r: Self) {
        Quadratic { lo: B::zero(), hi: B::one() }
    }
}

/// A level of the tower embeds into the next one.
impl<B: TowerField> FieldEmbedding<B> for Quadratic<B> {
    open spec fn f_embed(d: B) -> Self {
        Quadratic { lo: d, hi: B::f_zero() }
    }

    proof fn law_embed_add(a: B, b: B) {
        lemma_add_group(B::f_zero(), B::f_zero(), B::f_zero());
    }

    proof fn law_embed_mul(a: B, b: B) {
        lemma_scale(Self::f_embed(a), b);
        lemma_mul_zero(b);
    }

    proof fn law_embed_one() {
    }

    proof fn law_embed_coord(d: B, i: nat) {
        if i >= B::n_bits() {
            B::law_coord_zero((i - B::n_bits()) as nat);
            B::law_coord_range(d, i);
        }
    }

    fn embed(d: B) -> (r: Self) {
        Quadratic { lo: d, hi: B::zero() }
    }
}

/// The extension of `B` by two levels of the tower.
pub type Up2<B> = Quadratic<Quadratic<B>>;

/// The extension of `B` by three levels of the tower.
pub type Up3<B> = Quadratic<Up2<B>>;

/// The extension of `B` by four levels of the tower.
pub type Up4<B> = Quadratic<Up3<B>>;

/// The extension of `B` by five levels of the tower.
pub type Up5<B> = Quadratic<Up4<B>>;

/// The extension of `B` by six levels of the tower.
pub type Up6<B> = Quadratic<Up5<B>>;

/// The extension of `B` by seven levels of the tower.
pub type Up7<B> = Quadratic<Up6<B>>;

/// A level of the tower embeds into the one two levels up.
impl<B: TowerField> FieldEmbedding<B> for Up2<B> {
    open spec fn f_embed(d: B) -> Self {
        Quadratic { lo: <Quadratic<B>>::f_embed(d), hi: <Quadratic<B>>::f_zero() }
    }

    proof fn law_embed_add(a: B, b: B) {
        <Quadratic<B>>::law_embed_add(a, b);
        Self::law_embed_add(<Quadratic<B>>::f_embed(a), <Quadratic<B>>::f_embed(b));
    }

    proof fn law_embed_mul(a: B, b: B) {
        <Quadratic<B>>::law_embed_mul(a, b);
        Self::law_embed_mul(<Quadratic<B>>::f_embed(a), <Quadratic<B>>::f_embed(b));
    }

    proof fn law_embed_one() {
        <Quadratic<B> as FieldEmbedding<B>>::law_embed_one();
    }

    proof fn law_embed_coord(d: B, i: nat) {
        if i < <Quadratic<B>>::n_bits() {
            <Quadratic<B> as FieldEmbedding<B>>::law_embed_coord(d, i);
        } else {
            <Quadratic<B>>::law_coord_zero((i - <Quadratic<B>>::n_bits()) as nat);
            B::law_coord_range(d, i);
        }
    }

    fn embed(d: B) -> (r: Self) {
        Quadratic { lo: <Quadratic<B>>::embed(d), hi: <Quadratic<B>>::zero() }
    }
}

/// A level of the tower embeds into the one three levels up.
impl<B: TowerField> FieldEmbedding<B> for Up3<B> {
    open spec fn f_embed(d: B) -> Self {
        Quadratic { lo: <Up2<B>>::f_embed(d), hi: <Up2<B>>::f_zero() }
    }

    proof fn law_embed_add(a: B, b: B) {
        <Up2<B>>::law_embed_add(a, b);
        Self::law_embed_add(<Up2<B>>::f_embed(a), <Up2<B>>::f_embed(b));
    }

    proof fn law_embed_mul(a: B, b: B) {
        <Up2<B>>::law_embed_mul(a, b);
        Self::law_embed_mul(<Up2<B>>::f_embed(a), <Up2<B>>::f_embed(b));
    }

    proof fn law_embed_one() {
        <Up2<B> as FieldEmbedding<B>>::law_embed_one();
    }

    proof fn law_embed_coord(d: B, i: nat) {
        if i < <Up2<B>>::n_bits() {
            <Up2<B> as FieldEmbedding<B>>::law_embed_coord(d, i);
        } else {
            <Up2<B>>::law_coord_zero((i - <Up2<B>>::n_bits()) as nat);
            B::law_coord_range(d, i);
        }
    }

    fn embed(d: B) -> (r: Self) {
        Quadratic { lo: <Up2<B>>::embed(d), hi: <Up2<B>>::zero() }
    }
}

/// A level of the tower embeds into the one four levels up.
impl<B: TowerField> FieldEmbedding<B> for Up4<B> {
    open spec fn f_embed(d: B) -> Self {
        Quadratic { lo: <Up3<B>>::f_embed(d), hi: <Up3<B>>::f_zero() }
    }

    proof fn law_embed_add(a: B, b: B) {
        <Up3<B>>::law_embed_add(a, b);
        Self::law_embed_add(<Up3<B>>::f_embed(a), <Up3<B>>::f_embed(b));
    }

    proof fn law_embed_mul(a: B, b: B) {
        <Up3<B>>::law_embed_mul(a, b);
        Self::law_embed_mul(<Up3<B>>::f_embed(a), <Up3<B>>::f_embed(b));
    }

    proof fn law_embed_one() {
        <Up3<B> as FieldEmbedding<B>>::law_embed_one();
    }

    proof fn law_embed_coord(d: B, i: nat) {
        if i < <Up3<B>>::n_bits() {
            <Up3<B> as FieldEmbedding<B>>::law_embed_coord(d, i);
        } else {
            <Up3<B>>::law_coord_zero((i - <Up3<B>>::n_bits()) as nat);
            B::law_coord_range(d, i);
        }
    }

    fn embed(d: B) -> (r: Self) {
        Quadratic { lo: <Up3<B>>::embed(d), hi: <Up3<B>>::zero() }
    }
}

/// A level of the tower embeds into the one five levels up.
impl<B: TowerField> FieldEmbedding<B> for Up5<B> {
    open spec fn f_embed(d: B) -> Self {
        Quadratic { lo: <Up4<B>>::f_embed(d), hi: <Up4<B>>::f_zero() }
    }

    proof fn law_embed_add(a: B, b: B) {
        <Up4<B>>::law_embed_add(a, b);
        Self::law_embed_add(<Up4<B>>::f_embed(a), <Up4<B>>::f_embed(b));
    }

    proof fn law_embed_mul(a: B, b: B) {
        <Up4<B>>::law_embed_mul(a, b);
        Self::law_embed_mul(<Up4<B>>::f_embed(a), <Up4<B>>::f_embed(b));
    }

    proof fn law_embed_one() {
        <Up4<B> as FieldEmbedding<B>>::law_embed_one();
    }

    proof fn law_embed_coord(d: B, i: nat) {
        if i < <Up4<B>>::n_bits() {
            <Up4<B> as FieldEmbedding<B>>::law_embed_coord(d, i);
        } else {
            <Up4<B>>::law_coord_zero((i - <Up4<B>>::n_bits()) as nat);
            B::law_coord_range(d, i);
        }
    }

    fn embed(d: B) -> (r: Self) {
        Quadratic { lo: <Up4<B>>::embed(d), hi: <Up4<B>>::zero() }
    }
}

/// A level of the tower embeds into the one six levels up.
impl<B: TowerField> FieldEmbedding<B> for Up6<B> {
    open spec fn f_embed(d: B) -> Self {
        Quadratic { lo: <Up5<B>>::f_embed(d), hi: <Up5<B>>::f_zero() }
    }

    proof fn law_embed_add(a: B, b: B) {
        <Up5<B>>::law_embed_add(a, b);
        Self::law_embed_add(<Up5<B>>::f_embed(a), <Up5<B>>::f_embed(b));
    }

    proof fn law_embed_mul(a: B, b: B) {
        <Up5<B>>::law_embed_mul(a, b);
        Self::law_embed_mul(<Up5<B>>::f_embed(a), <Up5<B>>::f_embed(b));
    }

    proof fn law_embed_one() {
        <Up5<B> as FieldEmbedding<B>>::law_embed_one();
    }

    proof fn law_embed_coord(d: B, i: nat) {
        if i < <Up5<B>>::n_bits() {
            <Up5<B> as FieldEmbedding<B>>::law_embed_coord(d, i);
        } else {
            <Up5<B>>::law_coord_zero((i - <Up5<B>>::n_bits()) as nat);
            B::law_coord_range(d, i);
        }
    }

    fn embed(d: B) -> (r: Self) {
        Quadratic { lo: <Up5<B>>::embed(d), hi: <Up5<B>>::zero() }
    }
}

/// A level of the tower embeds into the one seven levels up.
impl<B: TowerField> FieldEmbedding<B> for Up7<B> {
    open spec fn f_embed(d: B) -> Self {
        Quadratic { lo: <Up6<B>>::f_embed(d), hi: <Up6<B>>::f_zero() }
    }

    proof fn law_embed_add(a: B, b: B) {
        <Up6<B>>::law_embed_add(a, b);
        Self::law_embed_add(<Up6<B>>::f_embed(a), <Up6<B>>::f_embed(b));
    }

    proof fn law_embed_mul(a: B, b: B) {
        <Up6<B>>::law_embed_mul(a, b);
        Self::law_embed_mul(<Up6<B>>::f_embed(a), <Up6<B>>::f_embed(b));
    }

    proof fn law_embed_one() {
        <Up6<B> as FieldEmbedding<B>>::law_embed_one();
    }

    proof fn law_embed_coord(d: B, i: nat) {
        if i < <Up6<B>>::n_bits() {
            <Up6<B> as FieldEmbedding<B>>::law_embed_coord(d, i);
        } else {
            <Up6<B>>::law_coord_zero((i - <Up6<B>>::n_bits()) as nat);
            B::law_coord_range(d, i);
        }
    }

    fn embed(d: B) -> (r: Self) {
        Quadratic { lo: <Up6<B>>::embed(d), hi: <Up6<B>>::zero() }
    }
}

/// A field embeds into itself.
impl<F: BinaryField> FieldEmbedding<F> for F {
    open spec fn f_embed(d: F) -> Self {
        d
    }

    proof fn law_embed_add(a: F, b: F) {
    }

    proof fn law_embed_mul(a: F, b: F) {
    }

    proof fn law_embed_one() {
    }

    proof fn law_embed_coord(d: F, i: nat) {
    }

    fn embed(d: F) -> (r: Self) {
        d
    }
}

/// The tower field of degree 2.
pub type BinaryField2b = Quadratic<BinaryField1b>;

/// The tower field of degree 4.
pub type BinaryField4b = Quadratic<BinaryField2b>;

/// The tower field of degree 8.
pub type BinaryField8b = Quadratic<BinaryField4b>;

/// The tower field of degree 16.
pub type BinaryField16b = Quadratic<BinaryField8b>;

/// The tower field of degree 32.
pub type BinaryField32b = Quadratic<BinaryField16b>;

/// The tower field of degree 64.
pub type BinaryField64b = Quadratic<BinaryField32b>;

/// The tower field of degree 128.
pub type BinaryField128b = Quadratic<BinaryField64b>;

} // verus!
