//! Rounds whose butterflies lie within vectors.
//!
//! Two neighbouring vectors are interleaved, so that the scalars that the round pairs come to lie
//! in the same lane of two vectors.
use vstd::arithmetic::power2::*;
use vstd::prelude::*;

use crate::additive_twiddle::{lane_block, lane_twiddles};
use crate::arith::{
    lemma_digits, lemma_digits_below, lemma_div_below, lemma_is_pow2_exponent, lemma_pow2_fits,
    lemma_pow2_monotone, lemma_pow2_order, lemma_split, low_half,
};
use crate::field::{lemma_add_group, BinaryField};
use crate::model::{block_of, butterfly, butterfly_at, round};
use crate::packed::{flat, lemma_flat, lemma_lane_bit, PackedField};
use crate::progress::{prefix_done, vector_done};
use crate::shape::{batch_fits, NTTShape};
use crate::twiddle::{lemma_twiddle_split, twiddle, TwiddleAccess};

verus! {

/// The butterflies across the distance `h` within the vector `a`, where `t` holds the twiddle
/// factors in the lanes of lower halves.
pub open spec fn butterflied_first<F: BinaryField>(
    inverse: bool,
    a: Seq<F>,
    t: Seq<F>,
    h: int,
) -> Seq<F> {
    Seq::new(
        a.len(),
        |l: int|
            if low_half(l, h) {
                butterfly(inverse, a[l], a[l + h], t[l]).0
            } else {
                butterfly(inverse, a[l - h], a[l], t[l - h]).1
            },
    )
}

/// The butterflies across the distance `h` within the vector `b`, where `t` holds the twiddle
/// factors in the lanes of upper halves.
pub open spec fn butterflied_second<F: BinaryField>(
    inverse: bool,
    b: Seq<F>,
    t: Seq<F>,
    h: int,
) -> Seq<F> {
    Seq::new(
        b.len(),
        |l: int|
            if low_half(l, h) {
                butterfly(inverse, b[l], b[l + h], t[l + h]).0
            } else {
                butterfly(inverse, b[l - h], b[l], t[l]).1
            },
    )
}

/// The lane across the distance `2^b` lies in the other half of the block.
pub proof fn lemma_lane_partner(b: nat, n: nat, l: int)
    requires
        b < n,
        0 <= l < pow2(n),
    ensures
        low_half(l, pow2(b) as int) ==> l + pow2(b) < pow2(n) && !low_half(
            l + pow2(b),
            pow2(b) as int,
        ) && (l + pow2(b)) / (2 * pow2(b) as int) == l / (2 * pow2(b) as int),
        !low_half(l, pow2(b) as int) ==> l >= pow2(b) && low_half(l - pow2(b), pow2(b) as int) && (l
            - pow2(b)) / (2 * pow2(b) as int) == l / (2 * pow2(b) as int),
{
    let h = pow2(b) as int;
    lemma_pow2_pos(b);
    lemma_lane_bit(b, n, l);
    lemma_split(l, h);
    let q = l / h;
    let r = l % h;
    assert((q + 1) * h == q * h + h && (q - 1) * h == q * h - h) by (nonlinear_arith);
    lemma_digits(q + 1, h, r);
    lemma_digits(q - 1, h, r);
    vstd::arithmetic::div_mod::lemma_div_denominator(l, h, 2);
    if low_half(l, h) {
        vstd::arithmetic::div_mod::lemma_div_denominator(l + h, h, 2);
    } else {
        vstd::arithmetic::div_mod::lemma_div_denominator(l - h, h, 2);
    }
    assert(h * 2 == 2 * h);
}

/// Performs butterflies within two vectors: interleaved, the scalars that are paired lie in the
/// same lane.
pub(crate) fn interleaved_butterfly<F: BinaryField, P: PackedField<Scalar = F>>(
    inverse: bool,
    a: P,
    b: P,
    t: P,
    log_block_len: usize,
) -> (r: (P, P))
    requires
        log_block_len < P::log_w(),
        pow2(P::log_w()) <= usize::MAX,
    ensures
        r.0.lanes() == butterflied_first(
            inverse,
            a.lanes(),
            t.lanes(),
            pow2(log_block_len as nat) as int,
        ),
        r.1.lanes() == butterflied_second(
            inverse,
            b.lanes(),
            t.lanes(),
            pow2(log_block_len as nat) as int,
        ),
{
    let ghost h = pow2(log_block_len as nat) as int;
    let ghost w = pow2(P::log_w()) as int;
    let (u, v) = a.interleave(b, log_block_len);
    let (x, y) = if inverse {
        let y = v.add_lanes(u);
        (u.add_lanes(y.mul_lanes(t)), y)
    } else {
        let x = u.add_lanes(v.mul_lanes(t));
        (x, v.add_lanes(x))
    };
    let r = x.interleave(y, log_block_len);
    proof {
        a.law_lanes();
        b.law_lanes();
        t.law_lanes();
        assert forall|l: int| 0 <= l < w implies {
            &&& x.lanes()[l] == butterfly(inverse, u.lanes()[l], v.lanes()[l], t.lanes()[l]).0
            &&& y.lanes()[l] == butterfly(inverse, u.lanes()[l], v.lanes()[l], t.lanes()[l]).1
        } by {}
        assert forall|l: int| 0 <= l < w implies r.0.lanes()[l] == butterflied_first(
            inverse,
            a.lanes(),
            t.lanes(),
            h,
        )[l] by {
            lemma_lane_partner(log_block_len as nat, P::log_w(), l);
        }
        assert forall|l: int| 0 <= l < w implies r.1.lanes()[l] == butterflied_second(
            inverse,
            b.lanes(),
            t.lanes(),
            h,
        )[l] by {
            lemma_lane_partner(log_block_len as nat, P::log_w(), l);
        }
        assert(r.0.lanes() =~= butterflied_first(inverse, a.lanes(), t.lanes(), h));
        assert(r.1.lanes() =~= butterflied_second(inverse, b.lanes(), t.lanes(), h));
    }
    r
}

/// Round `i` pairs lanes within vectors.
pub open spec fn pairs_lanes(len: nat, log_w: nat, shape: NTTShape, i: int) -> bool {
    &&& 0 <= i < shape.log_y
    &&& shape.log_x + i < log_w
    &&& is_pow2(len as int)
    &&& len >= 2
    &&& batch_fits(len, log_w, shape)
    &&& len * pow2(log_w) <= usize::MAX
}

/// The binary logarithm of the number of pairs of vectors along axis `y`.
pub open spec fn log_pairs(log_w: nat, shape: NTTShape) -> nat {
    if shape.log_x + shape.log_y > log_w {
        (shape.log_x + shape.log_y - 1 - log_w) as nat
    } else {
        0
    }
}

/// The binary logarithm of the number of slices, each of the pairs of vectors along axis `y`.
pub open spec fn log_slices(log_w: nat, shape: NTTShape) -> nat {
    if shape.log_size() > log_w + log_pairs(log_w, shape) + 1 {
        (shape.log_size() - (log_w + log_pairs(log_w, shape) + 1)) as nat
    } else {
        0
    }
}

/// The dimensions of a round that pairs lanes.
pub proof fn lemma_lane_dims(len: nat, log_w: nat, shape: NTTShape, i: int)
    requires
        pairs_lanes(len, log_w, shape, i),
    ensures
        0 < pow2(log_w) <= usize::MAX,
        log_w < usize::BITS,
        shape.log_size() < usize::BITS,
        0 < pow2(log_pairs(log_w, shape)) <= len,
        0 < pow2(log_slices(log_w, shape)) <= len,
        pow2(log_slices(log_w, shape)) * pow2(log_pairs(log_w, shape)) * 2 == len,
        log_pairs(log_w, shape) > 0 ==> shape.log_x + shape.log_y > log_w,
{
    let d = lemma_is_pow2_exponent(len as int);
    let lp = log_pairs(log_w, shape);
    let ls = log_slices(log_w, shape);
    lemma_pow2_pos(log_w);
    lemma_pow2_adds(d, log_w);
    lemma_pow2_fits(d + log_w);
    lemma_pow2_fits(log_w);
    lemma_pow2_order(shape.log_size(), d + log_w);
    lemma2_to64();
    lemma_pow2_order(1, d);
    lemma_pow2_order(d, 1);
    assert(ls + lp + 1 == d);
    lemma_pow2_adds(ls, lp);
    lemma_pow2_unfold(d);
    lemma_pow2_monotone(lp, d);
    lemma_pow2_monotone(ls, d);
}

/// A vector is cut into `2^(log_w - log_x - 1 - i)` blocks, and lane `l` of vector `e` lies in its
/// block number `l / 2^(log_x + i + 1)`.
proof fn lemma_lane_blocks(log_w: nat, shape: NTTShape, i: int, e: int, l: int)
    requires
        0 <= i < shape.log_y,
        shape.log_x + i < log_w,
        0 <= e,
        0 <= l < pow2(log_w),
    ensures
        ({
            let w = pow2(log_w) as int;
            let h = pow2((shape.log_x + i) as nat) as int;
            let c = pow2((log_w - shape.log_x - 1 - i) as nat) as int;
            &&& 0 < h
            &&& 0 < c
            &&& pow2((shape.log_x + i + 1) as nat) == 2 * h
            &&& w == c * (2 * h)
            &&& (e * w + l) % w == l
            &&& (e * w + l) / (2 * h) == e * c + l / (2 * h)
            &&& 0 <= l / (2 * h) < c
            &&& low_half(e * w + l, h) == low_half(l, h)
        }),
{
    let w = pow2(log_w) as int;
    let h = pow2((shape.log_x + i) as nat) as int;
    let c = pow2((log_w - shape.log_x - 1 - i) as nat) as int;
    lemma_pow2_pos((shape.log_x + i) as nat);
    lemma_pow2_pos((log_w - shape.log_x - 1 - i) as nat);
    lemma_pow2_unfold((shape.log_x + i + 1) as nat);
    lemma_pow2_adds((log_w - shape.log_x - 1 - i) as nat, (shape.log_x + i + 1) as nat);
    lemma_digits(e, w, l);
    lemma_div_below(l, 2 * h, c);
    let q = l / (2 * h);
    let r = l % (2 * h);
    lemma_split(l, 2 * h);
    assert(e * w + l == (e * c + q) * (2 * h) + r) by (nonlinear_arith)
        requires
            w == c * (2 * h),
            l == q * (2 * h) + r,
    ;
    lemma_digits(e * c + q, 2 * h, r);
    let q2 = l / h;
    let r2 = l % h;
    lemma_split(l, h);
    assert(e * w + l == (2 * (e * c) + q2) * h + r2) by (nonlinear_arith)
        requires
            w == c * (2 * h),
            l == q2 * h + r2,
    ;
    lemma_digits(2 * (e * c) + q2, h, r2);
}

/// Pair `k` of slice `j` lies within the data, and its common twiddle factor is one of the round.
pub proof fn lemma_pair_base(len: nat, log_w: nat, shape: NTTShape, i: int, j: int, k: int)
    requires
        pairs_lanes(len, log_w, shape, i),
        0 <= j < pow2(log_slices(log_w, shape)),
        0 <= k < pow2(log_pairs(log_w, shape)),
    ensures
        0 <= j * pow2(log_pairs(log_w, shape)),
        2 * (j * pow2(log_pairs(log_w, shape)) + k) + 2 <= len <= usize::MAX,
        pow2((log_w - shape.log_x - i) as nat) <= usize::MAX,
        0 <= k * pow2((log_w - shape.log_x - i) as nat) < pow2((shape.log_y - 1 - i) as nat),
{
    let pc = pow2(log_pairs(log_w, shape)) as int;
    let ns = pow2(log_slices(log_w, shape)) as int;
    let cc = pow2((log_w - shape.log_x - i) as nat) as int;
    lemma_lane_dims(len, log_w, shape, i);
    lemma_digits_below(j, pc, k, ns);
    assert(len <= len * pow2(log_w)) by (nonlinear_arith)
        requires
            0 < pow2(log_w),
            len >= 0,
    ;
    lemma_pow2_monotone((log_w - shape.log_x - i) as nat, log_w);
    lemma_pow2_pos((shape.log_y - 1 - i) as nat);
    if shape.log_x + shape.log_y > log_w {
        lemma_pow2_adds(log_pairs(log_w, shape), (log_w - shape.log_x - i) as nat);
        lemma_digits_below(k, cc, 0, pc);
    } else {
        lemma2_to64();
        assert(0 * cc == 0);
    }
}

/// The common twiddle factor of a pair of vectors plus the relative one of a lane is the twiddle
/// factor of the scalar in that lane.
pub proof fn lemma_lane_twiddle<F: BinaryField, TA: TwiddleAccess<F>>(
    access: TA,
    len: nat,
    log_w: nat,
    shape: NTTShape,
    i: int,
    coset: int,
    j: int,
    k: int,
    l: int,
)
    requires
        pairs_lanes(len, log_w, shape, i),
        access.shift() == F::f_zero(),
        0 <= coset,
        0 <= j,
        0 <= k < pow2(log_pairs(log_w, shape)),
        0 <= l < pow2(log_w),
    ensures
        ({
            let w = pow2(log_w) as int;
            let h = pow2((shape.log_x + i) as nat) as int;
            let nb = pow2((shape.log_y - 1 - i) as nat) as int;
            let up: int = if low_half(l, h) {
                0
            } else {
                1
            };
            let e = 2 * (j * pow2(log_pairs(log_w, shape)) + k) + up;
            twiddle(
                access,
                coset * nb + k * pow2((log_w - shape.log_x - i) as nat),
            ).f_add(lane_twiddles(access, shape, log_w, i)[l]) == twiddle(
                access,
                coset * nb + block_of(shape, log_w, i, e * w + l),
            )
        }),
{
    let w = pow2(log_w) as int;
    let h = pow2((shape.log_x + i) as nat) as int;
    let c = pow2((log_w - shape.log_x - 1 - i) as nat) as int;
    let nb = pow2((shape.log_y - 1 - i) as nat) as int;
    let pc = pow2(log_pairs(log_w, shape)) as int;
    let up: int = if low_half(l, h) {
        0
    } else {
        1
    };
    let r = j * pc + k;
    let e = 2 * r + up;
    let x = l / (2 * h);
    lemma_pow2_pos(log_pairs(log_w, shape));
    assert(0 <= j * pc) by (nonlinear_arith)
        requires
            0 <= j,
            0 < pc,
    ;
    lemma_lane_blocks(log_w, shape, i, e, l);
    lemma_pow2_pos((shape.log_y - 1 - i) as nat);
    lemma_pow2_unfold((log_w - shape.log_x - i) as nat);
    let p = e * w + l;
    assert(p / (2 * h) == e * c + x);
    if shape.log_x + shape.log_y > log_w {
        // Axis y is longer than a vector.
        lemma_pow2_monotone(log_w, shape.log_size());
        let cc = 2 * c;
        lemma_pow2_adds(log_pairs(log_w, shape), (log_w - shape.log_x - i) as nat);
        assert(nb == pc * cc);
        let y = up * c + x;
        assert(0 <= y < cc) by (nonlinear_arith)
            requires
                y == up * c + x,
                0 <= up < 2,
                0 <= x < c,
                cc == 2 * c,
        ;
        assert(e * c + x == r * cc + y) by (nonlinear_arith)
            requires
                e == 2 * r + up,
                y == up * c + x,
                cc == 2 * c,
        ;
        lemma_digits_below(k, cc, y, pc);
        assert(r * cc + y == j * nb + (k * cc + y)) by (nonlinear_arith)
            requires
                r == j * pc + k,
                nb == pc * cc,
        ;
        lemma_digits(j, nb, k * cc + y);
        assert(block_of(shape, log_w, i, p) == k * cc + y);
        assert(lane_block(shape, log_w, i, l) == y) by {
            assert(1 * c == c && 0 * c == 0);
        }
        assert(coset * nb + k * cc == (coset * pc + k) * cc) by (nonlinear_arith)
            requires
                nb == pc * cc,
        ;
        assert(0 <= coset * pc + k) by (nonlinear_arith)
            requires
                0 <= coset,
                0 <= k,
                0 < pc,
        ;
        lemma_twiddle_split(access, coset * pc + k, (log_w - shape.log_x - i) as nat, y);
    } else {
        // A vector holds one or more slices along axis y.
        lemma2_to64();
        assert(k == 0);
        assert(0 * pow2((log_w - shape.log_x - i) as nat) == 0);
        let g = pow2((log_w - shape.log_x - shape.log_y) as nat) as int;
        lemma_pow2_adds((log_w - shape.log_x - shape.log_y) as nat, (shape.log_y - 1 - i) as nat);
        assert(c == g * nb);
        if l < pow2(shape.log_size()) {
            lemma_split(x, nb);
            let q = x / nb;
            let y = x % nb;
            assert(e * c + x == (e * g + q) * nb + y) by (nonlinear_arith)
                requires
                    c == g * nb,
                    x == q * nb + y,
            ;
            lemma_digits(e * g + q, nb, y);
            assert(block_of(shape, log_w, i, p) == y);
            assert(lane_block(shape, log_w, i, l) == y);
            lemma_twiddle_split(access, coset, (shape.log_y - 1 - i) as nat, y);
        } else {
            assert(block_of(shape, log_w, i, p) == 0);
            lemma_add_group(twiddle(access, coset * nb), F::f_zero(), F::f_zero());
        }
    }
}

/// The twiddle factors for the lanes of pair `k` of slice `j`.
pub proof fn lemma_pair_factors<F: BinaryField, TA: TwiddleAccess<F>>(
    access: TA,
    len: nat,
    log_w: nat,
    shape: NTTShape,
    i: int,
    coset: int,
    j: int,
    k: int,
    t: Seq<F>,
)
    requires
        pairs_lanes(len, log_w, shape, i),
        access.shift() == F::f_zero(),
        0 <= coset,
        0 <= j,
        0 <= k < pow2(log_pairs(log_w, shape)),
        t == Seq::new(
            pow2(log_w),
            |l: int|
                twiddle(
                    access,
                    coset * pow2((shape.log_y - 1 - i) as nat) + k * pow2(
                        (log_w - shape.log_x - i) as nat,
                    ),
                ).f_add(lane_twiddles(access, shape, log_w, i)[l]),
        ),
    ensures
        forall|l: int|
            0 <= l < pow2(log_w) ==> #[trigger] t[l] == twiddle(
                access,
                coset * pow2((shape.log_y - 1 - i) as nat) + block_of(
                    shape,
                    log_w,
                    i,
                    (2 * (j * pow2(log_pairs(log_w, shape)) + k) + if low_half(
                        l,
                        pow2((shape.log_x + i) as nat) as int,
                    ) {
                        0int
                    } else {
                        1int
                    }) * pow2(log_w) + l,
                ),
            ),
{
    assert forall|l: int| 0 <= l < pow2(log_w) implies #[trigger] t[l] == twiddle(
        access,
        coset * pow2((shape.log_y - 1 - i) as nat) + block_of(
            shape,
            log_w,
            i,
            (2 * (j * pow2(log_pairs(log_w, shape)) + k) + if low_half(
                l,
                pow2((shape.log_x + i) as nat) as int,
            ) {
                0int
            } else {
                1int
            }) * pow2(log_w) + l,
        ),
    ) by {
        lemma_lane_twiddle(access, len, log_w, shape, i, coset, j, k, l);
    }
}

/// Butterflies within the two vectors of pair `r` bring a round that pairs lanes past the pair.
pub proof fn lemma_pair_done<F: BinaryField, P: PackedField<Scalar = F>>(
    inverse: bool,
    old: Seq<P>,
    mid: Seq<P>,
    cur: Seq<P>,
    shape: NTTShape,
    tw: spec_fn(int, int) -> F,
    i: int,
    r: int,
    t: Seq<F>,
)
    requires
        pairs_lanes(old.len(), P::log_w(), shape, i),
        0 <= r,
        2 * r + 2 <= old.len(),
        prefix_done(mid, old, round(inverse, flat(old), shape, P::log_w(), tw, i), 2 * r),
        t.len() == pow2(P::log_w()),
        forall|l: int|
            0 <= l < pow2(P::log_w()) ==> #[trigger] t[l] == tw(
                i,
                block_of(
                    shape,
                    P::log_w(),
                    i,
                    (2 * r + if low_half(l, pow2((shape.log_x + i) as nat) as int) {
                        0int
                    } else {
                        1int
                    }) * pow2(P::log_w()) + l,
                ),
            ),
        cur.len() == mid.len(),
        forall|e: int|
            0 <= e < cur.len() && e != 2 * r && e != 2 * r + 1 ==> #[trigger] cur[e] == mid[e],
        cur[2 * r].lanes() == butterflied_first(
            inverse,
            mid[2 * r].lanes(),
            t,
            pow2((shape.log_x + i) as nat) as int,
        ),
        cur[2 * r + 1].lanes() == butterflied_second(
            inverse,
            mid[2 * r + 1].lanes(),
            t,
            pow2((shape.log_x + i) as nat) as int,
        ),
    ensures
        prefix_done(cur, old, round(inverse, flat(old), shape, P::log_w(), tw, i), 2 * r + 2),
{
    let log_w = P::log_w();
    let w = pow2(log_w) as int;
    let b = (shape.log_x + i) as nat;
    let h = pow2(b) as int;
    let m = flat(old);
    let target = round(inverse, m, shape, log_w, tw, i);
    assert forall|e: int| 0 <= e < 2 * r + 2 implies vector_done(#[trigger] cur[e], target, e) by {
        if e < 2 * r {
            assert(cur[e] == mid[e]);
            assert(vector_done(mid[e], target, e));
        } else {
            assert(mid[e].lanes() == old[e].lanes());
            old[e].law_lanes();
            assert forall|l: int| 0 <= l < w implies #[trigger] cur[e].lanes()[l] == target[e * w
                + l] by {
                lemma_lane_partner(b, log_w, l);
                lemma_lane_blocks(log_w, shape, i, e, l);
                lemma_flat(old, e, l);
                let p = e * w + l;
                // The lane that is paired with l, and the one of the two that holds the twiddle
                // factor of this vector.
                let o = if low_half(l, h) {
                    l + h
                } else {
                    l - h
                };
                lemma_lane_blocks(log_w, shape, i, e, o);
                lemma_flat(old, e, o);
                let q = if low_half(l, h) == (e == 2 * r) {
                    l
                } else {
                    o
                };
                lemma_same_block(log_w, shape, i, e, l, o);
                assert(t[q] == tw(i, block_of(shape, log_w, i, e * w + q)));
                assert(block_of(shape, log_w, i, e * w + q) == block_of(shape, log_w, i, p));
                assert(target[p] == butterfly_at(
                    inverse,
                    m,
                    h,
                    tw(i, block_of(shape, log_w, i, p)),
                    p,
                ));
            }
        }
    }
    assert forall|e: int| 2 * r + 2 <= e < cur.len() implies (#[trigger] cur[e]).lanes()
        == old[e].lanes() by {
        assert(cur[e] == mid[e]);
    }
}

/// The two lanes of a butterfly belong to the same block.
proof fn lemma_same_block(log_w: nat, shape: NTTShape, i: int, e: int, l: int, o: int)
    requires
        0 <= i < shape.log_y,
        shape.log_x + i < log_w,
        0 <= e,
        0 <= l < pow2(log_w),
        0 <= o < pow2(log_w),
        l / (2 * pow2((shape.log_x + i) as nat) as int) == o / (2 * pow2(
            (shape.log_x + i) as nat,
        ) as int),
    ensures
        block_of(shape, log_w, i, e * pow2(log_w) + l) == block_of(
            shape,
            log_w,
            i,
            e * pow2(log_w) + o,
        ),
{
    let h = pow2((shape.log_x + i) as nat) as int;
    lemma_lane_blocks(log_w, shape, i, e, l);
    lemma_lane_blocks(log_w, shape, i, e, o);
    // The end of the batch does not part the two.
    let g = pow2((shape.log_size() - (shape.log_x + i + 1)) as nat) as int;
    lemma_pow2_adds(
        (shape.log_size() - (shape.log_x + i + 1)) as nat,
        (shape.log_x + i + 1) as nat,
    );
    let x = l / (2 * h);
    lemma_split(l, 2 * h);
    lemma_split(o, 2 * h);
    assert(l < g * (2 * h) <==> x < g) by (nonlinear_arith)
        requires
            l == x * (2 * h) + l % (2 * h),
            0 <= l % (2 * h) < 2 * h,
    ;
    assert(o < g * (2 * h) <==> x < g) by (nonlinear_arith)
        requires
            o == x * (2 * h) + o % (2 * h),
            0 <= o % (2 * h) < 2 * h,
    ;
}

} // verus!
