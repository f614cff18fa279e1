//! Packed fields: vectors of scalars that are processed lane by lane.
use vstd::arithmetic::power2::*;
use vstd::prelude::*;

use crate::arith::{
    lemma_digits, lemma_digits_below, lemma_pow2_fits, lemma_split, low_half, pow2_usize,
};
use crate::field::BinaryField;
use crate::tower::BinaryField16b;

verus! {

/// The sums of corresponding elements.
pub open spec fn lane_sums<F: BinaryField>(a: Seq<F>, b: Seq<F>) -> Seq<F> {
    Seq::new(a.len(), |l: int| a[l].f_add(b[l]))
}

/// The products of corresponding elements.
pub open spec fn lane_products<F: BinaryField>(a: Seq<F>, b: Seq<F>) -> Seq<F> {
    Seq::new(a.len(), |l: int| a[l].f_mul(b[l]))
}

/// The first of the two vectors that come out when `a` and `b` are stacked, cut into two by two
/// matrices of blocks of length `h`, and the matrices are transposed.
pub open spec fn interleaved_first<F>(a: Seq<F>, b: Seq<F>, h: int) -> Seq<F> {
    Seq::new(
        a.len(),
        |l: int|
            if low_half(l, h) {
                a[l]
            } else {
                b[l - h]
            },
    )
}

/// The second of the two vectors of that transposition.
pub open spec fn interleaved_second<F>(a: Seq<F>, b: Seq<F>, h: int) -> Seq<F> {
    Seq::new(
        a.len(),
        |l: int|
            if low_half(l, h) {
                a[l + h]
            } else {
                b[l]
            },
    )
}

/// A vector of `2^log_w` scalars.
pub trait PackedField: Copy + Sized {
    /// The scalars.
    type Scalar: BinaryField;

    /// The binary logarithm of the number of lanes.
    spec fn log_w() -> nat;

    /// The scalars in the lanes.
    spec fn lanes(self) -> Seq<Self::Scalar>;

    /// The number of lanes.
    proof fn law_lanes(self)
        ensures
            self.lanes().len() == pow2(Self::log_w()),
    ;

    /// The lanes determine the vector.
    proof fn law_lanes_ext(a: Self, b: Self)
        requires
            a.lanes() == b.lanes(),
        ensures
            a == b,
    ;

    /// Returns the binary logarithm of the number of lanes.
    fn log_width() -> (r: usize)
        requires
            pow2(Self::log_w()) <= usize::MAX,
        ensures
            r == Self::log_w(),
    ;

    /// Returns the vector that holds `value` in every lane.
    fn broadcast(value: Self::Scalar) -> (r: Self)
        ensures
            r.lanes() == Seq::new(pow2(Self::log_w()), |l: int| value),
    ;

    /// Returns the vector of zeros.
    fn zeros() -> (r: Self)
        ensures
            r.lanes() == Seq::new(pow2(Self::log_w()), |l: int| Self::Scalar::f_zero()),
    ;

    /// Adds lane by lane.
    fn add_lanes(self, rhs: Self) -> (r: Self)
        ensures
            r.lanes() == lane_sums(self.lanes(), rhs.lanes()),
    ;

    /// Multiplies lane by lane.
    fn mul_lanes(self, rhs: Self) -> (r: Self)
        ensures
            r.lanes() == lane_products(self.lanes(), rhs.lanes()),
    ;

    /// Returns the scalar in lane `l`.
    fn get(self, l: usize) -> (r: Self::Scalar)
        requires
            l < pow2(Self::log_w()) <= usize::MAX,
        ensures
            r == self.lanes()[l as int],
    ;

    /// Replaces the scalar in lane `l`.
    fn set(&mut self, l: usize, value: Self::Scalar)
        requires
            l < pow2(Self::log_w()) <= usize::MAX,
        ensures
            final(self).lanes() == old(self).lanes().update(l as int, value),
    ;

    /// Interleaves the blocks of `2^log_block_len` lanes of two vectors. Vectors that are no longer
    /// than a block are returned as they are.
    fn interleave(self, other: Self, log_block_len: usize) -> (r: (Self, Self))
        requires
            pow2(Self::log_w()) <= usize::MAX,
        ensures
            log_block_len < Self::log_w() ==> r.0.lanes() == interleaved_first(
                self.lanes(),
                other.lanes(),
                pow2(log_block_len as nat) as int,
            ),
            log_block_len < Self::log_w() ==> r.1.lanes() == interleaved_second(
                self.lanes(),
                other.lanes(),
                pow2(log_block_len as nat) as int,
            ),
            log_block_len >= Self::log_w() ==> r == (self, other),
    ;
}

/// A scalar is a vector with one lane.
impl<F: BinaryField> PackedField for F {
    type Scalar = F;

    open spec fn log_w() -> nat {
        0
    }

    open spec fn lanes(self) -> Seq<F> {
        seq![self]
    }

    proof fn law_lanes(self) {
        lemma2_to64();
    }

    proof fn law_lanes_ext(a: Self, b: Self) {
        assert(a.lanes() == seq![a]);
        assert(b.lanes() == seq![b]);
        assert(seq![a][0] == seq![b][0]);
    }

    fn log_width() -> (r: usize) {
        0
    }

    fn broadcast(value: F) -> (r: Self) {
        proof {
            lemma2_to64();
        }
        value
    }

    fn zeros() -> (r: Self) {
        proof {
            lemma2_to64();
        }
        F::zero()
    }

    fn add_lanes(self, rhs: Self) -> (r: Self) {
        self.add(rhs)
    }

    fn mul_lanes(self, rhs: Self) -> (r: Self) {
        self.mul(rhs)
    }

    fn get(self, l: usize) -> (r: F) {
        proof {
            lemma2_to64();
        }
        self
    }

    fn set(&mut self, l: usize, value: F) {
        proof {
            lemma2_to64();
        }
        *self = value;
    }

    fn interleave(self, other: Self, log_block_len: usize) -> (r: (Self, Self)) {
        (self, other)
    }
}

/// A vector with twice the lanes of `P`: those of `lo`, then those of `hi`.
#[derive(Debug, PartialEq, Eq)]
pub struct Doubled<P> {
    pub lo: P,
    pub hi: P,
}

impl<P: Copy> Copy for Doubled<P> {

}

impl<P: Copy> Clone for Doubled<P> {
    fn clone(&self) -> (r: Self)
        ensures
            r == *self,
    {
        *self
    }
}

impl<P: PackedField> PackedField for Doubled<P> {
    type Scalar = P::Scalar;

    open spec fn log_w() -> nat {
        P::log_w() + 1
    }

    open spec fn lanes(self) -> Seq<P::Scalar> {
        self.lo.lanes() + self.hi.lanes()
    }

    proof fn law_lanes(self) {
        self.lo.law_lanes();
        self.hi.law_lanes();
        lemma_pow2_unfold(P::log_w() + 1);
    }

    proof fn law_lanes_ext(a: Self, b: Self) {
        a.lo.law_lanes();
        b.lo.law_lanes();
        a.hi.law_lanes();
        b.hi.law_lanes();
        let w = pow2(P::log_w()) as int;
        assert(a.lanes() == a.lo.lanes() + a.hi.lanes());
        assert(b.lanes() == b.lo.lanes() + b.hi.lanes());
        assert forall|l: int| 0 <= l < w implies a.lo.lanes()[l] == b.lo.lanes()[l] by {
            assert((a.lo.lanes() + a.hi.lanes())[l] == (b.lo.lanes() + b.hi.lanes())[l]);
        }
        assert forall|l: int| 0 <= l < w implies a.hi.lanes()[l] == b.hi.lanes()[l] by {
            assert((a.lo.lanes() + a.hi.lanes())[w + l] == (b.lo.lanes() + b.hi.lanes())[w + l]);
        }
        assert(a.lo.lanes() =~= b.lo.lanes());
        assert(a.hi.lanes() =~= b.hi.lanes());
        P::law_lanes_ext(a.lo, b.lo);
        P::law_lanes_ext(a.hi, b.hi);
    }

    fn log_width() -> (r: usize) {
        proof {
            lemma_pow2_unfold(P::log_w() + 1);
            lemma_pow2_fits(P::log_w() + 1);
        }
        P::log_width() + 1
    }

    fn broadcast(value: P::Scalar) -> (r: Self) {
        proof {
            lemma_pow2_unfold(P::log_w() + 1);
        }
        Doubled { lo: P::broadcast(value), hi: P::broadcast(value) }
    }

    fn zeros() -> (r: Self) {
        proof {
            lemma_pow2_unfold(P::log_w() + 1);
        }
        Doubled { lo: P::zeros(), hi: P::zeros() }
    }

    fn add_lanes(self, rhs: Self) -> (r: Self) {
        proof {
            self.lo.law_lanes();
            self.hi.law_lanes();
            rhs.lo.law_lanes();
            rhs.hi.law_lanes();
        }
        Doubled { lo: self.lo.add_lanes(rhs.lo), hi: self.hi.add_lanes(rhs.hi) }
    }

    fn mul_lanes(self, rhs: Self) -> (r: Self) {
        proof {
            self.lo.law_lanes();
            self.hi.law_lanes();
            rhs.lo.law_lanes();
            rhs.hi.law_lanes();
        }
        Doubled { lo: self.lo.mul_lanes(rhs.lo), hi: self.hi.mul_lanes(rhs.hi) }
    }

    fn get(self, l: usize) -> (r: P::Scalar) {
        proof {
            lemma_pow2_unfold(P::log_w() + 1);
            self.lo.law_lanes();
            self.hi.law_lanes();
        }
        let w = pow2_usize(P::log_width());
        if l < w {
            self.lo.get(l)
        } else {
            self.hi.get(l - w)
        }
    }

    fn set(&mut self, l: usize, value: P::Scalar) {
        proof {
            lemma_pow2_unfold(P::log_w() + 1);
            self.lo.law_lanes();
            self.hi.law_lanes();
        }
        let w = pow2_usize(P::log_width());
        if l < w {
            let mut lo = self.lo;
            lo.set(l, value);
            *self = Doubled { lo, hi: self.hi };
        } else {
            let mut hi = self.hi;
            hi.set(l - w, value);
            *self = Doubled { lo: self.lo, hi };
        }
        proof {
            assert(self.lanes() =~= old(self).lanes().update(l as int, value));
        }
    }

    fn interleave(self, other: Self, log_block_len: usize) -> (r: (Self, Self)) {
        proof {
            lemma_pow2_unfold(P::log_w() + 1);
            self.lo.law_lanes();
            self.hi.law_lanes();
            other.lo.law_lanes();
            other.hi.law_lanes();
        }
        let ghost h = pow2(log_block_len as nat) as int;
        let ghost w = pow2(P::log_w()) as int;
        if log_block_len > P::log_width() {
            (self, other)
        } else if log_block_len == P::log_width() {
            let r = (
                Doubled { lo: self.lo, hi: other.lo },
                Doubled { lo: self.hi, hi: other.hi },
            );
            proof {
                assert forall|l: int| 0 <= l < 2 * w implies low_half(l, h) == (l < w) by {
                    if l < w {
                        lemma_digits(0, h, l);
                    } else {
                        lemma_digits(1, h, l - w);
                    }
                }
                assert(r.0.lanes() =~= interleaved_first(self.lanes(), other.lanes(), h));
                assert(r.1.lanes() =~= interleaved_second(self.lanes(), other.lanes(), h));
            }
            r
        } else {
            let lo = self.lo.interleave(other.lo, log_block_len);
            let hi = self.hi.interleave(other.hi, log_block_len);
            let r = (Doubled { lo: lo.0, hi: hi.0 }, Doubled { lo: lo.1, hi: hi.1 });
            proof {
                assert forall|l: int| 0 <= l < w implies if #[trigger] low_half(l, h) {
                    l + h < w
                } else {
                    l >= h
                } by {
                    lemma_lane_bit(log_block_len as nat, P::log_w(), l);
                }
                assert forall|l: int| w <= l < 2 * w implies #[trigger] low_half(l, h) == low_half(
                    l - w,
                    h,
                ) by {
                    lemma_lane_bit(log_block_len as nat, P::log_w(), l - w);
                }
                assert(r.0.lanes() =~= interleaved_first(self.lanes(), other.lanes(), h));
                assert(r.1.lanes() =~= interleaved_second(self.lanes(), other.lanes(), h));
            }
            r
        }
    }
}

/// Where bit `b` of a lane index below `2^n` is clear the lane `2^b` further on is below `2^n`
/// too, where it is set there is a lane `2^b` before, and adding `2^n` does not change it.
pub proof fn lemma_lane_bit(b: nat, n: nat, l: int)
    requires
        b < n,
        0 <= l < pow2(n),
    ensures
        low_half(l + pow2(n), pow2(b) as int) == low_half(l, pow2(b) as int),
        low_half(l, pow2(b) as int) ==> l + pow2(b) < pow2(n),
        !low_half(l, pow2(b) as int) ==> l >= pow2(b),
{
    let h = pow2(b) as int;
    let c = pow2((n - b - 1) as nat) as int;
    lemma_pow2_pos(b);
    lemma_pow2_adds(b, (n - b - 1) as nat);
    lemma_pow2_unfold(n);
    lemma_pow2_unfold((n - b) as nat);
    lemma_pow2_adds(b, (n - b) as nat);
    let q = l / h;
    let r = l % h;
    lemma_split(l, h);
    assert(pow2(n) == (2 * c) * h) by (nonlinear_arith)
        requires
            pow2(n) == h * (2 * c),
    ;
    assert(l + pow2(n) == (q + 2 * c) * h + r) by (nonlinear_arith)
        requires
            l == q * h + r,
            pow2(n) == (2 * c) * h,
    ;
    lemma_digits(q + 2 * c, h, r);
    assert(0 <= q < 2 * c) by (nonlinear_arith)
        requires
            l == q * h + r,
            0 <= r < h,
            0 <= l < (2 * c) * h,
    ;
    if q % 2 == 0 {
        assert((q + 1) * h + r < (2 * c) * h) by (nonlinear_arith)
            requires
                q + 1 < 2 * c,
                0 <= r < h,
        ;
        assert((q + 1) * h == q * h + h) by (nonlinear_arith);
    } else {
        assert(q * h >= h) by (nonlinear_arith)
            requires
                q >= 1,
                h > 0,
        ;
    }
}

/// The scalars of a slice of vectors, in order.
pub open spec fn flat<P: PackedField>(s: Seq<P>) -> Seq<P::Scalar> {
    Seq::new(
        s.len() * pow2(P::log_w()),
        |p: int| s[p / (pow2(P::log_w()) as int)].lanes()[p % (pow2(P::log_w()) as int)],
    )
}

/// Lane `l` of the `e`-th vector is the scalar number `e * 2^log_w + l`.
pub proof fn lemma_flat<P: PackedField>(s: Seq<P>, e: int, l: int)
    requires
        0 <= e < s.len(),
        0 <= l < pow2(P::log_w()),
    ensures
        0 <= e * pow2(P::log_w()) + l < flat(s).len(),
        flat(s)[e * pow2(P::log_w()) + l] == s[e].lanes()[l],
{
    let w = pow2(P::log_w()) as int;
    lemma_digits(e, w, l);
    lemma_digits_below(e, w, l, s.len() as int);
}

/// The scalars determine the vectors.
pub proof fn law_flat<P: PackedField>(a: Seq<P>, b: Seq<P>)
    requires
        a.len() == b.len(),
        flat(a) == flat(b),
    ensures
        a == b,
{
    assert forall|e: int| 0 <= e < a.len() implies a[e] == b[e] by {
        a[e].law_lanes();
        b[e].law_lanes();
        assert forall|l: int| 0 <= l < pow2(P::log_w()) implies a[e].lanes()[l]
            == b[e].lanes()[l] by {
            lemma_flat(a, e, l);
            lemma_flat(b, e, l);
        }
        assert(a[e].lanes() =~= b[e].lanes());
        P::law_lanes_ext(a[e], b[e]);
    }
    assert(a =~= b);
}

/// Scalars are their own scalars.
pub proof fn lemma_flat_scalars<F: BinaryField>(s: Seq<F>)
    ensures
        flat::<F>(s) == s,
{
    lemma2_to64();
    assert(pow2(<F as PackedField>::log_w()) == 1);
    assert(flat::<F>(s).len() == s.len());
    assert forall|p: int| 0 <= p < s.len() implies flat::<F>(s)[p] == s[p] by {
        lemma_digits(p, 1, 0);
        assert(s[p].lanes() == seq![s[p]]);
    }
    assert(flat::<F>(s) =~= s);
}

/// The scalars of the first vector come first.
pub proof fn lemma_flat_first<P: PackedField>(s: Seq<P>, one: Seq<P>)
    requires
        s.len() >= 1,
        one.len() == 1,
        one[0] == s[0],
    ensures
        flat(s).take(pow2(P::log_w()) as int) == flat(one),
        flat(s).len() >= pow2(P::log_w()),
{
    let w = pow2(P::log_w()) as int;
    lemma_pow2_pos(P::log_w());
    assert(1 * w == w);
    lemma_digits_below(0, w, 0, s.len() as int);
    assert forall|p: int| 0 <= p < w implies flat(s)[p] == flat(one)[p] by {
        lemma_digits(0, w, p);
    }
    assert(flat(s).take(w) =~= flat(one));
}

/// The tower field of degree 16, packed into 8 lanes.
pub type PackedBinaryField8x16b = Doubled<Doubled<Doubled<BinaryField16b>>>;

} // verus!
