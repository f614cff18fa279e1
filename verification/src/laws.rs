//! Laws of the transforms.
use vstd::arithmetic::div_mod::*;
use vstd::arithmetic::power2::*;
use vstd::prelude::*;

use crate::additive_twiddle::lemma_lane_position;
use crate::arith::{
    lemma_digits, lemma_digits_below, lemma_div_below, lemma_is_pow2_exponent,
    lemma_pow2_monotone, lemma_pow2_order, lemma_split, low_half,
};
use crate::field::{group_coord, lemma_add_mul, lemma_add_swap, BinaryField};
use crate::model::{
    block_of, butterfly, coset_twiddles, forward_rounds, inverse_rounds, layer_offset,
    layer_twiddles, lemma_forward_rounds_compose, lemma_inverse_rounds_compose, lemma_round_ext,
    lemma_rounds_len, lemma_rounds_prefix, lower, round, twiddles_at,
};
use crate::packed::{
    flat, lane_products, lane_sums, law_flat, lemma_flat, lemma_flat_first, lemma_flat_scalars,
    lemma_lane_bit, PackedField,
};
use crate::progress::round_done;
use crate::shape::NTTShape;
use crate::single_threaded::request_error;
use crate::twiddle::{lemma_bits_split, same_twiddles, TwiddleAccess};

verus! {

/// A sequence of `n` scalars consists of whole slices along axis `y`.
pub open spec fn whole_slices(n: nat, shape: NTTShape) -> bool {
    n as int % (pow2((shape.log_x + shape.log_y) as nat) as int) == 0
}

/// The data of every request that is not refused consists of whole slices.
pub proof fn law_accepted_data(
    log_domain_size: nat,
    len: nat,
    log_w: nat,
    shape: NTTShape,
    coset: usize,
    coset_bits: usize,
    skip_rounds: usize,
)
    requires
        request_error(
            log_domain_size,
            len,
            log_w,
            shape,
            coset,
            coset_bits,
            skip_rounds,
        ) is None,
    ensures
        whole_slices(len * pow2(log_w), shape),
{
    let d = lemma_is_pow2_exponent(len as int);
    let a = (shape.log_x + shape.log_y) as nat;
    lemma_pow2_adds(d, log_w);
    lemma_pow2_order(shape.log_size(), d + log_w);
    lemma_pow2_adds((d + log_w - a) as nat, a);
    lemma_pow2_pos(a);
    lemma_digits(pow2((d + log_w - a) as nat) as int, pow2(a) as int, 0);
}

/// The positions of whole slices that round `i` pairs.
pub proof fn lemma_partner(n: nat, shape: NTTShape, log_w: nat, i: int, p: int)
    requires
        whole_slices(n, shape),
        0 <= i < shape.log_y,
        0 <= p < n,
    ensures
        ({
            let h = pow2((shape.log_x + i) as nat) as int;
            let o = if low_half(p, h) {
                p + h
            } else {
                p - h
            };
            &&& 0 < h
            &&& 0 <= o < n
            &&& low_half(o, h) != low_half(p, h)
            &&& block_of(shape, log_w, i, o) == block_of(shape, log_w, i, p)
        }),
{
    let b = (shape.log_x + i) as nat;
    let h = pow2(b) as int;
    let a = (shape.log_x + shape.log_y) as nat;
    let w = pow2(log_w) as int;
    lemma_pow2_pos(b);
    lemma_pow2_pos(a);
    lemma_pow2_pos(log_w);
    lemma_pow2_unfold(b + 1);
    lemma_pow2_adds(b + 1, (a - b - 1) as nat);
    let g = pow2((a - b - 1) as nat) as int;
    lemma_split(n as int, 2 * h * g);
    let c = n as int / (2 * h * g);
    // n is a multiple of 2 h.
    assert(n == (c * g) * (2 * h)) by (nonlinear_arith)
        requires
            n == c * (2 * h * g),
    ;
    let k = p / (2 * h);
    let r = p % (2 * h);
    lemma_split(p, 2 * h);
    lemma_div_below(p, 2 * h, c * g);
    let up: int = if r < h {
        0
    } else {
        1
    };
    let x = r - up * h;
    lemma_lane_position(h, k, up, x);
    lemma_lane_position(h, k, 1 - up, x);
    lemma_digits_below(k, 2 * h, 0, c * g);
    let o = k * (2 * h) + (1 - up) * h + x;
    assert((k + 1) * (2 * h) == k * (2 * h) + 2 * h) by (nonlinear_arith);
    assert(low_half(p, h) == (up == 0));
    assert(up * h + (1 - up) * h == h && (up == 0 ==> up * h == 0) && (up == 1 ==> up * h == h))
        by (nonlinear_arith);
    assert(o == if up == 0 {
        p + h
    } else {
        p - h
    });
    assert(0 <= o < n);
    assert(low_half(o, h) == (up == 1));
    assert(p / (2 * h) == k && o / (2 * h) == k);
    // The end of the batch does not part the two.
    let size = pow2(shape.log_size()) as int;
    if b >= log_w {
        let e = pow2((b - log_w) as nat) as int;
        lemma_pow2_adds((b - log_w) as nat, log_w);
        let q = if up == 0 {
            p
        } else {
            o
        };
        lemma_split(q, w);
        assert(q + h == (q / w + e) * w + q % w) by (nonlinear_arith)
            requires
                q == (q / w) * w + q % w,
                h == e * w,
        ;
        lemma_digits(q / w + e, w, q % w);
        assert(p % w == o % w);
    } else {
        let s = shape.log_size();
        let l = p % w;
        let m = o % w;
        lemma_split(p, w);
        lemma_split(o, w);
        let cc = pow2((log_w - b - 1) as nat) as int;
        lemma_pow2_pos((log_w - b - 1) as nat);
        lemma_pow2_adds((log_w - b - 1) as nat, b + 1);
        lemma_pow2_adds((s - b - 1) as nat, b + 1);
        let gg = pow2((s - b - 1) as nat) as int;
        // Both lie in the same block of 2 h lanes of the same vector.
        lemma_lane_of_block(p, 2 * h, cc);
        lemma_lane_of_block(o, 2 * h, cc);
        let y = l / (2 * h);
        lemma_split(l, 2 * h);
        lemma_split(m, 2 * h);
        assert(l < gg * (2 * h) <==> y < gg) by (nonlinear_arith)
            requires
                l == y * (2 * h) + l % (2 * h),
                0 <= l % (2 * h) < 2 * h,
        ;
        assert(m < gg * (2 * h) <==> y < gg) by (nonlinear_arith)
            requires
                m == y * (2 * h) + m % (2 * h),
                0 <= m % (2 * h) < 2 * h,
        ;
    }
    assert((p % w < size) == (o % w < size));
}

/// The block of length `d` in which a position lies within a vector of `c` blocks.
proof fn lemma_lane_of_block(p: int, d: int, c: int)
    requires
        0 <= p,
        0 < d,
        0 < c,
    ensures
        (p % (c * d)) / d == (p / d) % c,
{
    let k = p / d;
    let r = p % d;
    lemma_split(p, d);
    lemma_split(k, c);
    let q = k / c;
    let y = k % c;
    assert(p == q * (c * d) + (y * d + r)) by (nonlinear_arith)
        requires
            p == k * d + r,
            k == q * c + y,
    ;
    lemma_digits_below(y, d, r, c);
    lemma_digits(q, c * d, y * d + r);
    lemma_digits(y, d, r);
}

/// The inverse butterfly undoes the butterfly, and the other way round.
pub proof fn law_butterfly_inverse<F: BinaryField>(inverse: bool, u: F, v: F, t: F)
    ensures
        ({
            let r = butterfly(inverse, u, v, t);
            butterfly(!inverse, r.0, r.1, t) == (u, v)
        }),
{
    broadcast use group_coord;

    let r = butterfly(inverse, u, v, t);
    let s = butterfly(!inverse, r.0, r.1, t);
    if inverse {
        let b = v.f_add(u);
        F::law_coord_ext(u.f_add(b.f_mul(t)).f_add(b.f_mul(t)), u);
        F::law_coord_ext(b.f_add(u), v);
    } else {
        let a = u.f_add(v.f_mul(t));
        F::law_coord_ext(v.f_add(a).f_add(a), v);
        F::law_coord_ext(a.f_add(v.f_mul(t)), u);
    }
}

/// Every round is undone by its inverse.
proof fn lemma_round_inverse<F: BinaryField>(
    inverse: bool,
    m: Seq<F>,
    shape: NTTShape,
    log_w: nat,
    tw: spec_fn(int, int) -> F,
    i: int,
)
    requires
        whole_slices(m.len(), shape),
        0 <= i < shape.log_y,
    ensures
        round(!inverse, round(inverse, m, shape, log_w, tw, i), shape, log_w, tw, i) == m,
{
    let a = round(inverse, m, shape, log_w, tw, i);
    let b = round(!inverse, a, shape, log_w, tw, i);
    let h = pow2((shape.log_x + i) as nat) as int;
    assert forall|p: int| 0 <= p < m.len() implies b[p] == m[p] by {
        lemma_partner(m.len(), shape, log_w, i, p);
        let q = lower(p, h);
        let t = tw(i, block_of(shape, log_w, i, p));
        law_butterfly_inverse(inverse, m[q], m[q + h], t);
        assert(a[q] == butterfly(inverse, m[q], m[q + h], t).0);
        assert(a[q + h] == butterfly(inverse, m[q], m[q + h], t).1);
    }
    assert(b =~= m);
}

/// The inverse transform undoes the forward transform, and the other way round, whatever the
/// twiddle factors are.
pub proof fn law_inverse<F: BinaryField>(
    m: Seq<F>,
    shape: NTTShape,
    log_w: nat,
    tw: spec_fn(int, int) -> F,
    lo: int,
    hi: int,
)
    requires
        whole_slices(m.len(), shape),
        0 <= lo,
        hi <= shape.log_y,
    ensures
        inverse_rounds(
            forward_rounds(m, shape, log_w, tw, lo, hi),
            shape,
            log_w,
            tw,
            lo,
            hi,
        ) == m,
        forward_rounds(
            inverse_rounds(m, shape, log_w, tw, lo, hi),
            shape,
            log_w,
            tw,
            lo,
            hi,
        ) == m,
    decreases hi - lo,
{
    if lo < hi {
        let f = forward_rounds(m, shape, log_w, tw, lo + 1, hi);
        lemma_rounds_len(m, shape, log_w, tw, lo + 1, hi);
        lemma_round_inverse(false, f, shape, log_w, tw, lo);
        law_inverse(m, shape, log_w, tw, lo + 1, hi);
        let g = round(false, f, shape, log_w, tw, lo);
        lemma_inverse_rounds_compose(g, shape, log_w, tw, lo, lo + 1, hi);
        assert(inverse_rounds(g, shape, log_w, tw, lo, lo) == g);
        assert(inverse_rounds(g, shape, log_w, tw, lo, lo + 1) == round(
            true,
            g,
            shape,
            log_w,
            tw,
            lo,
        ));
        let e = inverse_rounds(m, shape, log_w, tw, lo, hi - 1);
        lemma_rounds_len(m, shape, log_w, tw, lo, hi - 1);
        lemma_round_inverse(true, e, shape, log_w, tw, hi - 1);
        law_inverse(m, shape, log_w, tw, lo, hi - 1);
        let d = round(true, e, shape, log_w, tw, hi - 1);
        lemma_forward_rounds_compose(d, shape, log_w, tw, lo, hi - 1, hi);
        assert(forward_rounds(d, shape, log_w, tw, hi, hi) == d);
        assert(forward_rounds(d, shape, log_w, tw, hi - 1, hi) == round(
            false,
            d,
            shape,
            log_w,
            tw,
            hi - 1,
        ));
    }
}

/// A transform and its inverse, in either order, give back the vectors: `mid` is what the first of
/// them makes of `start`, and `end` what the second makes of `mid`.
pub proof fn law_round_trip<P: PackedField>(
    start: Seq<P>,
    mid: Seq<P>,
    end: Seq<P>,
    shape: NTTShape,
    tw: spec_fn(int, int) -> P::Scalar,
    lo: int,
    hi: int,
)
    requires
        whole_slices(flat(start).len(), shape),
        0 <= lo,
        hi <= shape.log_y,
        end.len() == start.len(),
        ({
            ||| flat(mid) == forward_rounds(flat(start), shape, P::log_w(), tw, lo, hi) && flat(end)
                == inverse_rounds(flat(mid), shape, P::log_w(), tw, lo, hi)
            ||| flat(mid) == inverse_rounds(flat(start), shape, P::log_w(), tw, lo, hi) && flat(end)
                == forward_rounds(flat(mid), shape, P::log_w(), tw, lo, hi)
        }),
    ensures
        end == start,
{
    law_inverse(flat(start), shape, P::log_w(), tw, lo, hi);
    law_flat(end, start);
}

/// The sums of corresponding scalars.
pub open spec fn sums<F: BinaryField>(a: Seq<F>, b: Seq<F>) -> Seq<F> {
    Seq::new(a.len(), |p: int| a[p].f_add(b[p]))
}

/// The scalars multiplied by `c`.
pub open spec fn multiples<F: BinaryField>(c: F, a: Seq<F>) -> Seq<F> {
    Seq::new(a.len(), |p: int| c.f_mul(a[p]))
}

/// Butterflies are linear.
proof fn lemma_butterfly_linear<F: BinaryField>(
    inverse: bool,
    u: F,
    v: F,
    x: F,
    y: F,
    c: F,
    t: F,
)
    ensures
        butterfly(inverse, u.f_add(x), v.f_add(y), t).0 == butterfly(inverse, u, v, t).0.f_add(
            butterfly(inverse, x, y, t).0,
        ),
        butterfly(inverse, u.f_add(x), v.f_add(y), t).1 == butterfly(inverse, u, v, t).1.f_add(
            butterfly(inverse, x, y, t).1,
        ),
        butterfly(inverse, c.f_mul(u), c.f_mul(v), t).0 == c.f_mul(butterfly(inverse, u, v, t).0),
        butterfly(inverse, c.f_mul(u), c.f_mul(v), t).1 == c.f_mul(butterfly(inverse, u, v, t).1),
{
    if inverse {
        let b = v.f_add(u);
        let d = y.f_add(x);
        lemma_add_swap(v, y, u, x);
        lemma_add_mul(b, d, t);
        lemma_add_swap(u, x, b.f_mul(t), d.f_mul(t));
        F::law_mul_add(c, v, u);
        F::law_mul_assoc(c, b, t);
        F::law_mul_add(c, u, b.f_mul(t));
    } else {
        let a = u.f_add(v.f_mul(t));
        let d = x.f_add(y.f_mul(t));
        lemma_add_mul(v, y, t);
        lemma_add_swap(u, x, v.f_mul(t), y.f_mul(t));
        lemma_add_swap(v, y, a, d);
        F::law_mul_assoc(c, v, t);
        F::law_mul_add(c, u, v.f_mul(t));
        F::law_mul_add(c, v, a);
    }
}

/// Rounds are linear.
proof fn lemma_round_linear<F: BinaryField>(
    inverse: bool,
    a: Seq<F>,
    b: Seq<F>,
    c: F,
    shape: NTTShape,
    log_w: nat,
    tw: spec_fn(int, int) -> F,
    i: int,
)
    requires
        a.len() == b.len(),
        whole_slices(a.len(), shape),
        0 <= i < shape.log_y,
    ensures
        round(inverse, sums(a, b), shape, log_w, tw, i) == sums(
            round(inverse, a, shape, log_w, tw, i),
            round(inverse, b, shape, log_w, tw, i),
        ),
        round(inverse, multiples(c, a), shape, log_w, tw, i) == multiples(
            c,
            round(inverse, a, shape, log_w, tw, i),
        ),
{
    let h = pow2((shape.log_x + i) as nat) as int;
    let l = round(inverse, sums(a, b), shape, log_w, tw, i);
    let r = sums(round(inverse, a, shape, log_w, tw, i), round(inverse, b, shape, log_w, tw, i));
    let l2 = round(inverse, multiples(c, a), shape, log_w, tw, i);
    let r2 = multiples(c, round(inverse, a, shape, log_w, tw, i));
    assert forall|p: int| 0 <= p < a.len() implies l[p] == r[p] && l2[p] == r2[p] by {
        lemma_partner(a.len(), shape, log_w, i, p);
        let q = lower(p, h);
        let t = tw(i, block_of(shape, log_w, i, p));
        lemma_butterfly_linear(inverse, a[q], a[q + h], b[q], b[q + h], c, t);
    }
    assert(l =~= r);
    assert(l2 =~= r2);
}

/// The transforms are linear: they keep sums and multiples.
pub proof fn law_linear<F: BinaryField>(
    a: Seq<F>,
    b: Seq<F>,
    c: F,
    shape: NTTShape,
    log_w: nat,
    tw: spec_fn(int, int) -> F,
    lo: int,
    hi: int,
)
    requires
        a.len() == b.len(),
        whole_slices(a.len(), shape),
        0 <= lo,
        hi <= shape.log_y,
    ensures
        forward_rounds(sums(a, b), shape, log_w, tw, lo, hi) == sums(
            forward_rounds(a, shape, log_w, tw, lo, hi),
            forward_rounds(b, shape, log_w, tw, lo, hi),
        ),
        forward_rounds(multiples(c, a), shape, log_w, tw, lo, hi) == multiples(
            c,
            forward_rounds(a, shape, log_w, tw, lo, hi),
        ),
        inverse_rounds(sums(a, b), shape, log_w, tw, lo, hi) == sums(
            inverse_rounds(a, shape, log_w, tw, lo, hi),
            inverse_rounds(b, shape, log_w, tw, lo, hi),
        ),
        inverse_rounds(multiples(c, a), shape, log_w, tw, lo, hi) == multiples(
            c,
            inverse_rounds(a, shape, log_w, tw, lo, hi),
        ),
    decreases hi - lo,
{
    if lo < hi {
        law_linear(a, b, c, shape, log_w, tw, lo + 1, hi);
        lemma_rounds_len(a, shape, log_w, tw, lo + 1, hi);
        lemma_rounds_len(b, shape, log_w, tw, lo + 1, hi);
        lemma_round_linear(
            false,
            forward_rounds(a, shape, log_w, tw, lo + 1, hi),
            forward_rounds(b, shape, log_w, tw, lo + 1, hi),
            c,
            shape,
            log_w,
            tw,
            lo,
        );
        law_linear(a, b, c, shape, log_w, tw, lo, hi - 1);
        lemma_rounds_len(a, shape, log_w, tw, lo, hi - 1);
        lemma_rounds_len(b, shape, log_w, tw, lo, hi - 1);
        lemma_round_linear(
            true,
            inverse_rounds(a, shape, log_w, tw, lo, hi - 1),
            inverse_rounds(b, shape, log_w, tw, lo, hi - 1),
            c,
            shape,
            log_w,
            tw,
            hi - 1,
        );
    }
}

/// The vectors of `e` are those of `a` plus those of `b` times `c`, lane by lane.
pub open spec fn combined<P: PackedField>(
    e: Seq<P>,
    a: Seq<P>,
    b: Seq<P>,
    c: P::Scalar,
) -> bool {
    &&& e.len() == a.len() == b.len()
    &&& forall|n: int|
        0 <= n < e.len() ==> (#[trigger] e[n]).lanes() == lane_sums(
            a[n].lanes(),
            lane_products(b[n].lanes(), Seq::new(pow2(P::log_w()), |l: int| c)),
        )
}

/// The scalars of such vectors.
proof fn lemma_combined<P: PackedField>(e: Seq<P>, a: Seq<P>, b: Seq<P>, c: P::Scalar)
    requires
        e.len() == a.len() == b.len(),
    ensures
        combined(e, a, b, c) <==> flat(e) == sums(flat(a), multiples(c, flat(b))),
{
    let w = pow2(P::log_w()) as int;
    lemma_pow2_pos(P::log_w());
    let t = sums(flat(a), multiples(c, flat(b)));
    let cs = Seq::new(pow2(P::log_w()), |l: int| c);
    if combined(e, a, b, c) {
        assert forall|p: int| 0 <= p < t.len() implies flat(e)[p] == t[p] by {
            lemma_split(p, w);
            lemma_div_below(p, w, e.len() as int);
            let n = p / w;
            let l = p % w;
            assert(e[n].lanes() == lane_sums(a[n].lanes(), lane_products(b[n].lanes(), cs)));
            a[n].law_lanes();
            b[n].law_lanes();
            P::Scalar::law_mul_comm(b[n].lanes()[l], c);
        }
        assert(flat(e) =~= t);
    }
    if flat(e) == t {
        assert forall|n: int| 0 <= n < e.len() implies (#[trigger] e[n]).lanes() == lane_sums(
            a[n].lanes(),
            lane_products(b[n].lanes(), cs),
        ) by {
            a[n].law_lanes();
            b[n].law_lanes();
            e[n].law_lanes();
            let r = lane_sums(a[n].lanes(), lane_products(b[n].lanes(), cs));
            assert forall|l: int| 0 <= l < w implies e[n].lanes()[l] == r[l] by {
                lemma_flat(e, n, l);
                lemma_flat(a, n, l);
                lemma_flat(b, n, l);
                P::Scalar::law_mul_comm(b[n].lanes()[l], c);
                assert(flat(e)[n * w + l] == t[n * w + l]);
            }
            assert(e[n].lanes() =~= r);
        }
    }
}

/// Linearity for vectors: the transform of `a` plus `b` times `c` is the transform of `a` plus that
/// of `b` times `c`, forward and inverse. The second of each two arguments is what the transform
/// makes of the first.
pub proof fn law_linear_vectors<P: PackedField>(
    a: Seq<P>,
    a2: Seq<P>,
    b: Seq<P>,
    b2: Seq<P>,
    e: Seq<P>,
    e2: Seq<P>,
    c: P::Scalar,
    shape: NTTShape,
    tw: spec_fn(int, int) -> P::Scalar,
    lo: int,
    hi: int,
)
    requires
        whole_slices(flat(a).len(), shape),
        0 <= lo,
        hi <= shape.log_y,
        combined(e, a, b, c),
        a2.len() == a.len(),
        b2.len() == a.len(),
        e2.len() == a.len(),
        ({
            ||| {
                &&& flat(a2) == forward_rounds(flat(a), shape, P::log_w(), tw, lo, hi)
                &&& flat(b2) == forward_rounds(flat(b), shape, P::log_w(), tw, lo, hi)
                &&& flat(e2) == forward_rounds(flat(e), shape, P::log_w(), tw, lo, hi)
            }
            ||| {
                &&& flat(a2) == inverse_rounds(flat(a), shape, P::log_w(), tw, lo, hi)
                &&& flat(b2) == inverse_rounds(flat(b), shape, P::log_w(), tw, lo, hi)
                &&& flat(e2) == inverse_rounds(flat(e), shape, P::log_w(), tw, lo, hi)
            }
        }),
    ensures
        combined(e2, a2, b2, c),
{
    let log_w = P::log_w();
    lemma_combined(e, a, b, c);
    lemma_combined(e2, a2, b2, c);
    law_linear(flat(a), multiples(c, flat(b)), c, shape, log_w, tw, lo, hi);
    law_linear(flat(b), flat(b), c, shape, log_w, tw, lo, hi);
}

/// A round does not depend on how the scalars are packed, if the batch fills a vector.
proof fn lemma_round_packing<F: BinaryField>(
    inverse: bool,
    m: Seq<F>,
    shape: NTTShape,
    log_w: nat,
    tw: spec_fn(int, int) -> F,
    i: int,
)
    requires
        log_w <= shape.log_size(),
    ensures
        round(inverse, m, shape, log_w, tw, i) == round(inverse, m, shape, 0, tw, i),
{
    lemma_pow2_monotone(log_w, shape.log_size());
    lemma2_to64();
    lemma_pow2_pos(shape.log_size());
    let a = round(inverse, m, shape, log_w, tw, i);
    let b = round(inverse, m, shape, 0, tw, i);
    assert forall|p: int| 0 <= p < m.len() implies a[p] == b[p] by {
        lemma_mod_bound(p, pow2(log_w) as int);
        lemma_mod_bound(p, 1);
    }
    assert(a =~= b);
}

/// Packing does not matter: vectors of scalars are transformed as the scalars are.
pub proof fn law_packing<F: BinaryField>(
    m: Seq<F>,
    shape: NTTShape,
    log_w: nat,
    tw: spec_fn(int, int) -> F,
    lo: int,
    hi: int,
)
    requires
        log_w <= shape.log_size(),
    ensures
        forward_rounds(m, shape, log_w, tw, lo, hi) == forward_rounds(m, shape, 0, tw, lo, hi),
        inverse_rounds(m, shape, log_w, tw, lo, hi) == inverse_rounds(m, shape, 0, tw, lo, hi),
    decreases hi - lo,
{
    if lo < hi {
        law_packing(m, shape, log_w, tw, lo + 1, hi);
        law_packing(m, shape, log_w, tw, lo, hi - 1);
        lemma_round_packing(
            false,
            forward_rounds(m, shape, log_w, tw, lo + 1, hi),
            shape,
            log_w,
            tw,
            lo,
        );
        lemma_round_packing(
            true,
            inverse_rounds(m, shape, log_w, tw, lo, hi - 1),
            shape,
            log_w,
            tw,
            hi - 1,
        );
    }
}

/// `b` consists of the scalars of `a` at the positions that `f` gives.
pub open spec fn picked<F>(a: Seq<F>, b: Seq<F>, f: spec_fn(int) -> int) -> bool {
    forall|p: int| 0 <= p < b.len() ==> 0 <= #[trigger] f(p) < a.len() && b[p] == a[f(p)]
}

/// The positions that `f` picks are paired in round `i` with the twiddle factors with which those
/// that it picks them for are paired in round `i2`.
pub open spec fn pairs_alike<F: BinaryField>(
    shape: NTTShape,
    log_w: nat,
    tw: spec_fn(int, int) -> F,
    i: int,
    n2: nat,
    shape2: NTTShape,
    log_w2: nat,
    tw2: spec_fn(int, int) -> F,
    i2: int,
    f: spec_fn(int) -> int,
) -> bool {
    let h = pow2((shape.log_x + i) as nat) as int;
    let h2 = pow2((shape2.log_x + i2) as nat) as int;
    forall|p: int|
        0 <= p < n2 ==> {
            &&& low_half(#[trigger] f(p), h) == low_half(p, h2)
            &&& low_half(p, h2) ==> f(p + h2) == f(p) + h
            &&& tw(i, block_of(shape, log_w, i, f(p))) == tw2(i2, block_of(shape2, log_w2, i2, p))
        }
}

/// A round commutes with picking positions that are paired alike.
proof fn lemma_round_picked<F: BinaryField>(
    inverse: bool,
    a: Seq<F>,
    shape: NTTShape,
    log_w: nat,
    tw: spec_fn(int, int) -> F,
    i: int,
    b: Seq<F>,
    shape2: NTTShape,
    log_w2: nat,
    tw2: spec_fn(int, int) -> F,
    i2: int,
    f: spec_fn(int) -> int,
)
    requires
        whole_slices(b.len(), shape2),
        0 <= i2 < shape2.log_y,
        picked(a, b, f),
        pairs_alike(shape, log_w, tw, i, b.len(), shape2, log_w2, tw2, i2, f),
    ensures
        picked(
            round(inverse, a, shape, log_w, tw, i),
            round(inverse, b, shape2, log_w2, tw2, i2),
            f,
        ),
{
    let h2 = pow2((shape2.log_x + i2) as nat) as int;
    let h = pow2((shape.log_x + i) as nat) as int;
    let ra = round(inverse, a, shape, log_w, tw, i);
    let rb = round(inverse, b, shape2, log_w2, tw2, i2);
    assert forall|p: int| 0 <= p < rb.len() implies 0 <= #[trigger] f(p) < ra.len() && rb[p]
        == ra[f(p)] by {
        lemma_partner(b.len(), shape2, log_w2, i2, p);
        let q = lower(p, h2);
        assert(0 <= f(q) < a.len());
        assert(0 <= f(q + h2) < a.len());
        assert(f(q + h2) == f(q) + h);
        assert(lower(f(p), h) == f(q));
    }
}

/// The rounds commute with picking positions that are paired alike in each of them.
pub proof fn lemma_rounds_picked<F: BinaryField>(
    a: Seq<F>,
    shape: NTTShape,
    log_w: nat,
    tw: spec_fn(int, int) -> F,
    b: Seq<F>,
    shape2: NTTShape,
    log_w2: nat,
    tw2: spec_fn(int, int) -> F,
    f: spec_fn(int) -> int,
    d: int,
    lo: int,
    hi: int,
)
    requires
        whole_slices(b.len(), shape2),
        0 <= lo,
        hi <= shape2.log_y,
        picked(a, b, f),
        forall|i2: int|
            lo <= i2 < hi ==> #[trigger] pairs_alike(
                shape,
                log_w,
                tw,
                i2 + d,
                b.len(),
                shape2,
                log_w2,
                tw2,
                i2,
                f,
            ),
    ensures
        picked(
            forward_rounds(a, shape, log_w, tw, lo + d, hi + d),
            forward_rounds(b, shape2, log_w2, tw2, lo, hi),
            f,
        ),
        picked(
            inverse_rounds(a, shape, log_w, tw, lo + d, hi + d),
            inverse_rounds(b, shape2, log_w2, tw2, lo, hi),
            f,
        ),
    decreases hi - lo,
{
    if lo < hi {
        lemma_rounds_picked(a, shape, log_w, tw, b, shape2, log_w2, tw2, f, d, lo + 1, hi);
        lemma_rounds_picked(a, shape, log_w, tw, b, shape2, log_w2, tw2, f, d, lo, hi - 1);
        lemma_rounds_len(b, shape2, log_w2, tw2, lo + 1, hi);
        lemma_rounds_len(b, shape2, log_w2, tw2, lo, hi - 1);
        assert(pairs_alike(
            shape,
            log_w,
            tw,
            lo + d,
            b.len(),
            shape2,
            log_w2,
            tw2,
            lo,
            f,
        ));
        assert(pairs_alike(
            shape,
            log_w,
            tw,
            hi - 1 + d,
            b.len(),
            shape2,
            log_w2,
            tw2,
            hi - 1,
            f,
        ));
        lemma_round_picked(
            false,
            forward_rounds(a, shape, log_w, tw, lo + 1 + d, hi + d),
            shape,
            log_w,
            tw,
            lo + d,
            forward_rounds(b, shape2, log_w2, tw2, lo + 1, hi),
            shape2,
            log_w2,
            tw2,
            lo,
            f,
        );
        lemma_round_picked(
            true,
            inverse_rounds(a, shape, log_w, tw, lo + d, hi - 1 + d),
            shape,
            log_w,
            tw,
            hi - 1 + d,
            inverse_rounds(b, shape2, log_w2, tw2, lo, hi - 1),
            shape2,
            log_w2,
            tw2,
            hi - 1,
            f,
        );
    }
}

/// A batch that is smaller than a vector is transformed as the scalars in its lanes are: the lanes
/// past its end do not matter.
pub proof fn law_embedded_batch<F: BinaryField>(
    m: Seq<F>,
    shape: NTTShape,
    log_w: nat,
    tw: spec_fn(int, int) -> F,
    lo: int,
    hi: int,
)
    requires
        shape.log_size() <= log_w,
        m.len() >= pow2(log_w),
        0 <= lo,
        hi <= shape.log_y,
    ensures
        forward_rounds(m, shape, log_w, tw, lo, hi).take(pow2(shape.log_size()) as int)
            == forward_rounds(m.take(pow2(shape.log_size()) as int), shape, 0, tw, lo, hi),
        inverse_rounds(m, shape, log_w, tw, lo, hi).take(pow2(shape.log_size()) as int)
            == inverse_rounds(m.take(pow2(shape.log_size()) as int), shape, 0, tw, lo, hi),
{
    let n = pow2(shape.log_size()) as int;
    let b = m.take(n);
    let f = |p: int| p;
    lemma_pow2_monotone(shape.log_size(), log_w);
    lemma_pow2_monotone(0, shape.log_size());
    lemma2_to64();
    let a = (shape.log_x + shape.log_y) as nat;
    lemma_pow2_pos(a);
    lemma_pow2_adds(shape.log_z as nat, a);
    lemma_digits(pow2(shape.log_z as nat) as int, pow2(a) as int, 0);
    assert(whole_slices(b.len(), shape));
    assert forall|i: int| lo <= i < hi implies #[trigger] pairs_alike(
        shape,
        log_w,
        tw,
        i + 0,
        b.len(),
        shape,
        0,
        tw,
        i,
        f,
    ) by {
        assert forall|p: int| 0 <= p < n implies block_of(shape, log_w, i, #[trigger] f(p))
            == block_of(shape, 0, i, p) by {
            lemma_digits(0, pow2(log_w) as int, p);
            lemma_digits(p, 1, 0);
        }
    }
    lemma_rounds_picked(m, shape, log_w, tw, b, shape, 0, tw, f, 0, lo, hi);
    lemma_rounds_len(m, shape, log_w, tw, lo, hi);
    lemma_rounds_len(b, shape, 0, tw, lo, hi);
    let fm = forward_rounds(m, shape, log_w, tw, lo, hi);
    let fb = forward_rounds(b, shape, 0, tw, lo, hi);
    assert forall|p: int| 0 <= p < n implies fm.take(n)[p] == fb[p] by {
        assert(f(p) == p);
    }
    assert(fm.take(n) =~= fb);
    let im = inverse_rounds(m, shape, log_w, tw, lo, hi);
    let ib = inverse_rounds(b, shape, 0, tw, lo, hi);
    assert forall|p: int| 0 <= p < n implies im.take(n)[p] == ib[p] by {
        assert(f(p) == p);
    }
    assert(im.take(n) =~= ib);
}

/// The position of `(x, y)` in slice `z`.
pub open spec fn position(shape: NTTShape, x: int, y: int, z: int) -> int {
    (z * pow2(shape.log_y as nat) + y) * pow2(shape.log_x as nat) + x
}

/// How round `i` treats the scalar at `(x, y)` in slice `z`.
pub proof fn lemma_position(shape: NTTShape, i: int, x: int, y: int, z: int)
    requires
        0 <= i < shape.log_y,
        0 <= x < pow2(shape.log_x as nat),
        0 <= y < pow2(shape.log_y as nat),
        0 <= z,
    ensures
        0 <= position(shape, x, y, z),
        low_half(position(shape, x, y, z), pow2((shape.log_x + i) as nat) as int) == low_half(
            y,
            pow2(i as nat) as int,
        ),
        block_of(shape, 0, i, position(shape, x, y, z)) == y / (pow2((i + 1) as nat) as int),
        position(shape, x, y + pow2(i as nat), z) == position(shape, x, y, z) + pow2(
            (shape.log_x + i) as nat,
        ),
        low_half(y, pow2(i as nat) as int) ==> y + pow2(i as nat) < pow2(shape.log_y as nat),
        !low_half(y, pow2(i as nat) as int) ==> y >= pow2(i as nat),
{
    let xs = pow2(shape.log_x as nat) as int;
    let ys = pow2(shape.log_y as nat) as int;
    let h = pow2(i as nat) as int;
    let yy = z * ys + y;
    let p = position(shape, x, y, z);
    lemma_pow2_pos(shape.log_x as nat);
    lemma_pow2_pos(shape.log_y as nat);
    lemma_pow2_pos(i as nat);
    lemma_pow2_pos((i + 1) as nat);
    lemma_pow2_adds(shape.log_x as nat, i as nat);
    lemma_pow2_adds(shape.log_x as nat, (i + 1) as nat);
    assert(0 <= yy && 0 <= yy * xs) by (nonlinear_arith)
        requires
            yy == z * ys + y,
            0 <= z,
            0 < ys,
            0 <= y,
            0 < xs,
    ;
    lemma_div_denominator(p, xs, h);
    lemma_div_denominator(p, xs, pow2((i + 1) as nat) as int);
    lemma_digits(yy, xs, x);
    lemma_bits_split(z, shape.log_y as nat, y, i as nat);
    lemma_lane_bit(i as nat, shape.log_y as nat, y);
    // The block.
    let nb = pow2((shape.log_y - 1 - i) as nat) as int;
    let d = pow2((i + 1) as nat) as int;
    lemma_pow2_adds((shape.log_y - 1 - i) as nat, (i + 1) as nat);
    lemma_split(y, d);
    lemma_div_below(y, d, nb);
    let k = y / d;
    assert(yy == (z * nb + k) * d + y % d) by (nonlinear_arith)
        requires
            yy == z * ys + y,
            ys == nb * d,
            y == k * d + y % d,
    ;
    lemma_digits(z * nb + k, d, y % d);
    lemma_digits(z, nb, k);
    lemma2_to64();
    lemma_digits(p, 1, 0);
    lemma_pow2_monotone(0, shape.log_size());
    assert((yy + h) * xs + x == p + xs * h) by (nonlinear_arith)
        requires
            p == yy * xs + x,
    ;
}

/// Every position is that of some `(x, y)` in some slice.
pub proof fn lemma_coordinates(shape: NTTShape, n: nat, p: int) -> (r: (int, int, int))
    requires
        whole_slices(n, shape),
        0 <= p < n,
    ensures
        0 <= r.0 < pow2(shape.log_x as nat),
        0 <= r.1 < pow2(shape.log_y as nat),
        0 <= r.2 < n as int / pow2((shape.log_x + shape.log_y) as nat) as int,
        r.0 == p % (pow2(shape.log_x as nat) as int),
        r.1 == (p / (pow2(shape.log_x as nat) as int)) % (pow2(shape.log_y as nat) as int),
        p == position(shape, r.0, r.1, r.2),
{
    let xs = pow2(shape.log_x as nat) as int;
    let ys = pow2(shape.log_y as nat) as int;
    lemma_pow2_pos(shape.log_x as nat);
    lemma_pow2_pos(shape.log_y as nat);
    lemma_pow2_adds(shape.log_x as nat, shape.log_y as nat);
    let yy = p / xs;
    lemma_split(p, xs);
    lemma_split(yy, ys);
    let z = yy / ys;
    lemma_div_denominator(p, xs, ys);
    lemma_pow2_pos((shape.log_x + shape.log_y) as nat);
    lemma_split(n as int, xs * ys);
    lemma_div_below(p, xs * ys, n as int / (xs * ys));
    (p % xs, yy % ys, z)
}

/// A position within the data.
pub proof fn lemma_position_below(shape: NTTShape, n: nat, x: int, y: int, z: int)
    requires
        whole_slices(n, shape),
        0 <= x < pow2(shape.log_x as nat),
        0 <= y < pow2(shape.log_y as nat),
        0 <= z < n as int / pow2((shape.log_x + shape.log_y) as nat) as int,
    ensures
        0 <= position(shape, x, y, z) < n,
{
    let xs = pow2(shape.log_x as nat) as int;
    let ys = pow2(shape.log_y as nat) as int;
    lemma_pow2_pos(shape.log_x as nat);
    lemma_pow2_pos(shape.log_y as nat);
    lemma_pow2_adds(shape.log_x as nat, shape.log_y as nat);
    let nz = n as int / (xs * ys);
    lemma_pow2_pos((shape.log_x + shape.log_y) as nat);
    lemma_split(n as int, xs * ys);
    lemma_digits_below(z, ys, y, nz);
    lemma_digits_below(z * ys + y, xs, x, nz * ys);
    assert((nz * ys) * xs == nz * (xs * ys)) by (nonlinear_arith);
}

/// The column of `x` in slice `z`: the scalars along axis `y`.
pub open spec fn column<F>(m: Seq<F>, shape: NTTShape, x: int, z: int) -> Seq<F> {
    Seq::new(pow2(shape.log_y as nat), |y: int| m[position(shape, x, y, z)])
}

/// The shape of a single column.
pub open spec fn column_shape(shape: NTTShape) -> NTTShape {
    NTTShape { log_x: 0, log_y: shape.log_y, log_z: 0 }
}

/// A batched transform transforms each of its columns by itself.
pub proof fn law_batch<F: BinaryField>(
    m: Seq<F>,
    shape: NTTShape,
    log_w: nat,
    tw: spec_fn(int, int) -> F,
    lo: int,
    hi: int,
    x: int,
    z: int,
)
    requires
        whole_slices(m.len(), shape),
        log_w <= shape.log_size(),
        0 <= lo,
        hi <= shape.log_y,
        0 <= x < pow2(shape.log_x as nat),
        0 <= z < m.len() as int / pow2((shape.log_x + shape.log_y) as nat) as int,
    ensures
        column(forward_rounds(m, shape, log_w, tw, lo, hi), shape, x, z) == forward_rounds(
            column(m, shape, x, z),
            column_shape(shape),
            0,
            tw,
            lo,
            hi,
        ),
        column(inverse_rounds(m, shape, log_w, tw, lo, hi), shape, x, z) == inverse_rounds(
            column(m, shape, x, z),
            column_shape(shape),
            0,
            tw,
            lo,
            hi,
        ),
{
    law_packing(m, shape, log_w, tw, lo, hi);
    let b = column(m, shape, x, z);
    let s2 = column_shape(shape);
    let ys = pow2(shape.log_y as nat) as int;
    let f = |y: int| position(shape, x, y, z);
    lemma2_to64();
    lemma_pow2_pos(shape.log_y as nat);
    lemma_digits(1, ys, 0);
    assert(whole_slices(b.len(), s2));
    assert forall|y: int| 0 <= y < b.len() implies 0 <= #[trigger] f(y) < m.len() && b[y] == m[f(
        y,
    )] by {
        lemma_position_below(shape, m.len(), x, y, z);
    }
    assert forall|i: int| lo <= i < hi implies #[trigger] pairs_alike(
        shape,
        0,
        tw,
        i + 0,
        b.len(),
        s2,
        0,
        tw,
        i,
        f,
    ) by {
        let h = pow2((shape.log_x + i) as nat) as int;
        let h2 = pow2(i as nat) as int;
        assert forall|y: int| 0 <= y < b.len() implies {
            &&& low_half(#[trigger] f(y), h) == low_half(y, h2)
            &&& low_half(y, h2) ==> f(y + h2) == f(y) + h
            &&& tw(i, block_of(shape, 0, i, f(y))) == tw(i, block_of(s2, 0, i, y))
        } by {
            lemma_position(shape, i, x, y, z);
            lemma_position(s2, i, 0, y, 0);
            assert(position(s2, 0, y, 0) == y) by (nonlinear_arith)
                requires
                    position(s2, 0, y, 0) == (0 * ys + y) * 1 + 0,
            ;
        }
    }
    lemma_rounds_picked(m, shape, 0, tw, b, s2, 0, tw, f, 0, lo, hi);
    lemma_rounds_len(b, s2, 0, tw, lo, hi);
    let fm = forward_rounds(m, shape, 0, tw, lo, hi);
    let fb = forward_rounds(b, s2, 0, tw, lo, hi);
    assert forall|y: int| 0 <= y < ys implies column(fm, shape, x, z)[y] == fb[y] by {
        assert(fb[y] == fm[f(y)]);
    }
    assert(column(fm, shape, x, z) =~= fb);
    let im = inverse_rounds(m, shape, 0, tw, lo, hi);
    let ib = inverse_rounds(b, s2, 0, tw, lo, hi);
    assert forall|y: int| 0 <= y < ys implies column(im, shape, x, z)[y] == ib[y] by {
        assert(ib[y] == im[f(y)]);
    }
    assert(column(im, shape, x, z) =~= ib);
}

/// The transforms depend on the twiddle factors only, not on how they are accessed: tabulating them
/// changes no result.
pub proof fn law_tabulation<F: BinaryField, TA: TwiddleAccess<F>, TB: TwiddleAccess<F>>(
    m: Seq<F>,
    a: Seq<TA>,
    b: Seq<TB>,
    log_domain_size: int,
    shape: NTTShape,
    log_w: nat,
    coset: int,
    coset_bits: int,
    lo: int,
    hi: int,
)
    requires
        same_twiddles(a, b),
        0 <= coset_bits,
        shape.log_y + coset_bits <= log_domain_size <= a.len(),
        0 <= lo,
        hi <= shape.log_y,
    ensures
        forward_rounds(
            m,
            shape,
            log_w,
            coset_twiddles(a, log_domain_size, shape, coset, coset_bits),
            lo,
            hi,
        ) == forward_rounds(
            m,
            shape,
            log_w,
            coset_twiddles(b, log_domain_size, shape, coset, coset_bits),
            lo,
            hi,
        ),
        inverse_rounds(
            m,
            shape,
            log_w,
            coset_twiddles(a, log_domain_size, shape, coset, coset_bits),
            lo,
            hi,
        ) == inverse_rounds(
            m,
            shape,
            log_w,
            coset_twiddles(b, log_domain_size, shape, coset, coset_bits),
            lo,
            hi,
        ),
    decreases hi - lo,
{
    if lo < hi {
        let tw = coset_twiddles(a, log_domain_size, shape, coset, coset_bits);
        let tw2 = coset_twiddles(b, log_domain_size, shape, coset, coset_bits);
        law_tabulation(m, a, b, log_domain_size, shape, log_w, coset, coset_bits, lo + 1, hi);
        law_tabulation(m, a, b, log_domain_size, shape, log_w, coset, coset_bits, lo, hi - 1);
        let off = log_domain_size - (shape.log_y + coset_bits);
        assert(a[off + lo].basis() == b[off + lo].basis());
        assert(a[off + hi - 1].basis() == b[off + hi - 1].basis());
        assert forall|k: int| #[trigger] tw(lo, k) == tw2(lo, k) by {}
        assert forall|k: int| #[trigger] tw(hi - 1, k) == tw2(hi - 1, k) by {}
        let f = forward_rounds(m, shape, log_w, tw, lo + 1, hi);
        lemma_round_ext(false, f, shape, log_w, tw, tw2, lo);
        let g = inverse_rounds(m, shape, log_w, tw, lo, hi - 1);
        lemma_round_ext(true, g, shape, log_w, tw, tw2, hi - 1);
    }
}

/// The states of the data while the rounds from `hi - 1` down to `lo` of the forward transform are
/// performed one after the other, each as `forward_transform_above_cutoff_simple` performs it.
pub open spec fn layer_by_layer<P: PackedField, TA: TwiddleAccess<P::Scalar>>(
    steps: Seq<Seq<P>>,
    rounds: Seq<TA>,
    shape: NTTShape,
    coset: int,
    lo: int,
    hi: int,
) -> bool {
    &&& steps.len() == hi - lo + 1
    &&& forall|i: int|
        lo <= i < hi ==> round_done(
            false,
            steps[hi - 1 - i],
            steps[hi - i],
            #[trigger] rounds[i],
            shape,
            i,
            layer_offset(shape, coset, i),
        )
}

/// Rounds one after the other are the rounds of the transform.
proof fn lemma_layers<P: PackedField, TA: TwiddleAccess<P::Scalar>>(
    steps: Seq<Seq<P>>,
    rounds: Seq<TA>,
    shape: NTTShape,
    coset: int,
    lo: int,
    hi: int,
    i: int,
)
    requires
        layer_by_layer(steps, rounds, shape, coset, lo, hi),
        0 <= lo <= i <= hi <= shape.log_y,
    ensures
        steps[hi - i].len() == steps[0].len(),
        flat(steps[hi - i]) == forward_rounds(
            flat(steps[0]),
            shape,
            P::log_w(),
            twiddles_at(rounds, shape, coset),
            i,
            hi,
        ),
    decreases hi - i,
{
    if i < hi {
        lemma_layers(steps, rounds, shape, coset, lo, hi, i + 1);
        let offset = layer_offset(shape, coset, i);
        assert(round_done(false, steps[hi - 1 - i], steps[hi - i], rounds[i], shape, i, offset));
        lemma_round_ext(
            false,
            flat(steps[hi - 1 - i]),
            shape,
            P::log_w(),
            layer_twiddles(rounds[i], offset),
            twiddles_at(rounds, shape, coset),
            i,
        );
    }
}

/// The rounds that pair whole vectors give the same vectors as the plain rounds one after the
/// other, however the twiddle factors are fetched: `result` is what
/// `forward_transform_above_cutoff` makes of the first state.
pub proof fn law_layers<P: PackedField, TA: TwiddleAccess<P::Scalar>>(
    steps: Seq<Seq<P>>,
    result: Seq<P>,
    rounds: Seq<TA>,
    shape: NTTShape,
    coset: int,
    cutoff: int,
    hi: int,
)
    requires
        0 <= cutoff <= hi <= shape.log_y,
        layer_by_layer(steps, rounds, shape, coset, cutoff, hi),
        result.len() == steps[0].len(),
        flat(result) == forward_rounds(
            flat(steps[0]),
            shape,
            P::log_w(),
            twiddles_at(rounds, shape, coset),
            cutoff,
            hi,
        ),
    ensures
        result == steps.last(),
{
    lemma_layers(steps, rounds, shape, coset, cutoff, hi, cutoff);
    law_flat(result, steps.last());
}

/// The rounds within vectors give the same scalars as the plain rounds on the scalars one after the
/// other, where the batch fills a vector: `result` is what `forward_transform_below_cutoff` makes
/// of `start`.
pub proof fn law_lane_layers<P: PackedField, TA: TwiddleAccess<P::Scalar>>(
    start: Seq<P>,
    steps: Seq<Seq<P::Scalar>>,
    result: Seq<P>,
    rounds: Seq<TA>,
    shape: NTTShape,
    coset: int,
    hi: int,
)
    requires
        P::log_w() <= shape.log_size(),
        0 <= hi <= shape.log_y,
        layer_by_layer::<P::Scalar, TA>(steps, rounds, shape, coset, 0, hi),
        steps[0] == flat(start),
        flat(result) == forward_rounds(
            flat(start),
            shape,
            P::log_w(),
            twiddles_at(rounds, shape, coset),
            0,
            hi,
        ),
    ensures
        flat(result) == steps.last(),
{
    let tw = twiddles_at(rounds, shape, coset);
    lemma_layers::<P::Scalar, TA>(steps, rounds, shape, coset, 0, hi, 0);
    lemma_flat_scalars(steps[0]);
    lemma_flat_scalars(steps.last());
    law_packing(flat(start), shape, P::log_w(), tw, 0, hi);
}

/// A batch that fits in one vector: what the other vectors hold does not matter for the first one.
/// `after` is what a transform makes of `vectors`, and `single` what it makes of the first of them
/// alone.
pub proof fn law_single_vector<P: PackedField>(
    vectors: Seq<P>,
    after: Seq<P>,
    single: Seq<P>,
    shape: NTTShape,
    tw: spec_fn(int, int) -> P::Scalar,
    lo: int,
    hi: int,
)
    requires
        shape.log_size() <= P::log_w(),
        0 <= lo,
        hi <= shape.log_y,
        vectors.len() >= 1,
        after.len() == vectors.len(),
        single.len() == 1,
        ({
            let first = flat(seq![vectors[0]]);
            ||| {
                &&& flat(after) == forward_rounds(flat(vectors), shape, P::log_w(), tw, lo, hi)
                &&& flat(single) == forward_rounds(first, shape, P::log_w(), tw, lo, hi)
            }
            ||| {
                &&& flat(after) == inverse_rounds(flat(vectors), shape, P::log_w(), tw, lo, hi)
                &&& flat(single) == inverse_rounds(first, shape, P::log_w(), tw, lo, hi)
            }
        }),
    ensures
        single[0] == after[0],
{
    lemma_flat_first(vectors, seq![vectors[0]]);
    lemma_flat_first(after, seq![after[0]]);
    lemma_rounds_prefix(flat(vectors), shape, P::log_w(), tw, lo, hi);
    law_flat(single, seq![after[0]]);
    assert(seq![after[0]][0] == after[0]);
}

} // verus!
