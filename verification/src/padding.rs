//! Laws on padded data: repetition, and transforms on cosets.
use vstd::arithmetic::div_mod::*;
use vstd::arithmetic::power2::*;
use vstd::prelude::*;

use crate::arith::{
    lemma_digits, lemma_digits_below, lemma_div_below, lemma_pow2_monotone, lemma_split, low_half,
};
use crate::field::{lemma_add_group, lemma_mul_zero, BinaryField};
use crate::laws::{
    law_inverse, law_packing, lemma_coordinates, lemma_partner, lemma_position,
    lemma_position_below, lemma_rounds_picked, pairs_alike, picked, position, whole_slices,
};
use crate::model::{
    block_of, butterfly, coset_twiddles, forward_rounds, inverse_rounds,
    lemma_forward_rounds_compose, lemma_rounds_len, lower, round,
};
use crate::shape::NTTShape;
use crate::twiddle::{lemma_bits_split, TwiddleAccess};

verus! {

/// The shape with axis `y` longer by the factor `2^nu`.
pub open spec fn longer(shape: NTTShape, nu: nat) -> NTTShape {
    NTTShape { log_x: shape.log_x, log_y: (shape.log_y + nu) as usize, log_z: shape.log_z }
}

/// The position in `m` of what stands at position `p` when axis `y` is stretched by the factor
/// `2^nu`.
pub open spec fn unstretched(shape: NTTShape, nu: nat, p: int) -> int {
    let xs = pow2(shape.log_x as nat) as int;
    ((p / xs) / (pow2(nu) as int)) * xs + p % xs
}

/// Axis `y` stretched by the factor `2^nu`, with zeros at the indices that are no multiple of `d`.
spec fn stretched<F: BinaryField>(m: Seq<F>, shape: NTTShape, nu: nat, d: int) -> Seq<F> {
    Seq::new(
        m.len() * pow2(nu),
        |p: int|
            if (p / (pow2(shape.log_x as nat) as int)) % d == 0 {
                m[unstretched(shape, nu, p)]
            } else {
                F::f_zero()
            },
    )
}

/// Axis `y` stretched by the factor `2^nu`: after each scalar, `2^nu - 1` zeros.
pub open spec fn padded<F: BinaryField>(m: Seq<F>, shape: NTTShape, nu: nat) -> Seq<F> {
    Seq::new(
        m.len() * pow2(nu),
        |p: int|
            if (p / (pow2(shape.log_x as nat) as int)) % (pow2(nu) as int) == 0 {
                m[unstretched(shape, nu, p)]
            } else {
                F::f_zero()
            },
    )
}

/// Axis `y` stretched by the factor `2^nu`: each scalar repeated `2^nu` times.
pub open spec fn repeated<F: BinaryField>(m: Seq<F>, shape: NTTShape, nu: nat) -> Seq<F> {
    Seq::new(m.len() * pow2(nu), |p: int| m[unstretched(shape, nu, p)])
}

/// The index along axis `y` of a position, and of one in a distance along that axis.
proof fn lemma_axis(xs: int, h: int, p: int)
    requires
        0 < xs,
        0 < h,
        0 <= p,
    ensures
        low_half(p, xs * h) == low_half(p / xs, h),
        (p + xs * h) / xs == p / xs + h,
        (p + xs * h) % xs == p % xs,
        (p - xs * h) / xs == p / xs - h,
        (p - xs * h) % xs == p % xs,
{
    lemma_div_denominator(p, xs, h);
    lemma_split(p, xs);
    let y = p / xs;
    let x = p % xs;
    assert(p + xs * h == (y + h) * xs + x && p - xs * h == (y - h) * xs + x) by (nonlinear_arith)
        requires
            p == y * xs + x,
    ;
    lemma_digits(y + h, xs, x);
    lemma_digits(y - h, xs, x);
}

/// The residues of an index that is below `h` modulo `2 h`, and of the one `h` further on.
pub proof fn lemma_residues(y: int, h: int)
    requires
        0 < h,
        0 <= y,
        low_half(y, h),
    ensures
        y % (2 * h) == y % h,
        (y + h) % (2 * h) == y % h + h,
        (y + h) % h == y % h,
        (y + h) / (2 * h) == y / (2 * h),
{
    lemma_split(y, h);
    let q = y / h;
    let r = y % h;
    let k = q / 2;
    assert(q == 2 * k);
    assert(y == k * (2 * h) + r && y + h == k * (2 * h) + (h + r) && y + h == (q + 1) * h + r)
        by (nonlinear_arith)
        requires
            y == q * h + r,
            q == 2 * k,
    ;
    lemma_digits(k, 2 * h, r);
    lemma_digits(k, 2 * h, h + r);
    lemma_digits(q + 1, h, r);
}

/// Where the second scalar of a butterfly is zero, both results are the first.
proof fn lemma_butterfly_zero<F: BinaryField>(u: F, t: F)
    ensures
        butterfly(false, u, F::f_zero(), t) == (u, u),
{
    lemma_mul_zero(t);
    lemma_add_group(u, F::f_zero(), F::f_zero());
}

/// A round across a short distance halves the distance of the scalars that are not zero.
proof fn lemma_stretched_round<F: BinaryField>(
    m: Seq<F>,
    shape: NTTShape,
    nu: nat,
    tw: spec_fn(int, int) -> F,
    i: int,
)
    requires
        whole_slices(m.len(), shape),
        shape.log_y + nu <= usize::MAX,
        0 <= i < nu,
    ensures
        round(
            false,
            stretched(m, shape, nu, pow2((i + 1) as nat) as int),
            longer(shape, nu),
            0,
            tw,
            i,
        ) == stretched(m, shape, nu, pow2(i as nat) as int),
{
    let big = longer(shape, nu);
    let xs = pow2(shape.log_x as nat) as int;
    let h = pow2(i as nat) as int;
    let a = stretched(m, shape, nu, pow2((i + 1) as nat) as int);
    let b = stretched(m, shape, nu, h);
    let r = round(false, a, big, 0, tw, i);
    lemma_whole_longer(m.len(), shape, nu);
    lemma_pow2_pos(shape.log_x as nat);
    lemma_pow2_pos(i as nat);
    lemma_pow2_unfold((i + 1) as nat);
    lemma_pow2_adds(shape.log_x as nat, i as nat);
    // 2^nu is a multiple of 2 h.
    let v = pow2(nu) as int;
    let c = pow2((nu - i - 1) as nat) as int;
    lemma_pow2_pos((nu - i - 1) as nat);
    lemma_pow2_adds((i + 1) as nat, (nu - i - 1) as nat);
    assert forall|p: int| 0 <= p < a.len() implies r[p] == b[p] by {
        lemma_partner(a.len(), big, 0, i, p);
        lemma_axis(xs, h, p);
        let q = lower(p, xs * h);
        let y = q / xs;
        lemma_axis(xs, h, q);
        lemma_div_pos_is_pos(q, xs);
        lemma_residues(y, h);
        lemma_mod_bound(y, h);
        assert(a[q + xs * h] == F::f_zero());
        lemma_butterfly_zero(a[q], tw(i, block_of(big, 0, i, p)));
        assert(r[p] == a[q]);
        lemma_div_denominator(y, 2 * h, c);
        lemma_div_denominator(y + h, 2 * h, c);
        assert(unstretched(shape, nu, q + xs * h) == unstretched(shape, nu, q));
    }
    assert(r =~= b);
}

/// The rounds across short distances repeat the scalars.
proof fn lemma_stretched_rounds<F: BinaryField>(
    m: Seq<F>,
    shape: NTTShape,
    nu: nat,
    tw: spec_fn(int, int) -> F,
    lo: int,
)
    requires
        whole_slices(m.len(), shape),
        shape.log_y + nu <= usize::MAX,
        0 <= lo <= nu,
    ensures
        forward_rounds(padded(m, shape, nu), longer(shape, nu), 0, tw, lo, nu as int) == stretched(
            m,
            shape,
            nu,
            pow2(lo as nat) as int,
        ),
    decreases nu - lo,
{
    if lo < nu {
        lemma_stretched_rounds(m, shape, nu, tw, lo + 1);
        lemma_stretched_round(m, shape, nu, tw, lo);
    } else {
        assert(padded(m, shape, nu) =~= stretched(m, shape, nu, pow2(nu) as int));
    }
}

/// Stretched data consists of whole slices too.
proof fn lemma_whole_longer(n: nat, shape: NTTShape, nu: nat)
    requires
        whole_slices(n, shape),
        shape.log_y + nu <= usize::MAX,
    ensures
        whole_slices(n * pow2(nu), longer(shape, nu)),
{
    let a = (shape.log_x + shape.log_y) as nat;
    lemma_pow2_pos(a);
    lemma_pow2_pos(nu);
    lemma_pow2_pos(a + nu);
    lemma_pow2_adds(a, nu);
    lemma_split(n as int, pow2(a) as int);
    let c = n as int / pow2(a) as int;
    assert(n * pow2(nu) == c * pow2(a + nu) + 0) by (nonlinear_arith)
        requires
            n == c * pow2(a),
            pow2(a + nu) == pow2(a) * pow2(nu),
    ;
    lemma_digits(c, pow2(a + nu) as int, 0);
}

/// The positions of padded data that hold no scalar are zero.
spec fn zero_between<F: BinaryField>(g: Seq<F>, shape: NTTShape, nu: nat) -> bool {
    forall|p: int|
        0 <= p < g.len() && (p / (pow2(shape.log_x as nat) as int)) % (pow2(nu) as int) != 0
            ==> #[trigger] g[p] == F::f_zero()
}

/// Rounds across long distances leave the zeros between the scalars of padded data.
proof fn lemma_zero_between<F: BinaryField>(
    g: Seq<F>,
    shape: NTTShape,
    nu: nat,
    tw: spec_fn(int, int) -> F,
    lo: int,
    hi: int,
)
    requires
        shape.log_y + nu <= usize::MAX,
        whole_slices(g.len(), longer(shape, nu)),
        zero_between(g, shape, nu),
        nu <= lo,
        hi <= shape.log_y + nu,
    ensures
        zero_between(forward_rounds(g, longer(shape, nu), 0, tw, lo, hi), shape, nu),
    decreases hi - lo,
{
    if lo < hi {
        let big = longer(shape, nu);
        let f = forward_rounds(g, big, 0, tw, lo + 1, hi);
        let r = round(false, f, big, 0, tw, lo);
        lemma_zero_between(g, shape, nu, tw, lo + 1, hi);
        lemma_rounds_len(g, big, 0, tw, lo + 1, hi);
        let xs = pow2(shape.log_x as nat) as int;
        let v = pow2(nu) as int;
        let h = pow2(lo as nat) as int;
        let e = pow2((lo - nu) as nat) as int;
        lemma_pow2_pos(shape.log_x as nat);
        lemma_pow2_pos(nu);
        lemma_pow2_pos(lo as nat);
        lemma_pow2_adds(shape.log_x as nat, lo as nat);
        lemma_pow2_adds((lo - nu) as nat, nu);
        assert forall|p: int| 0 <= p < r.len() && (p / xs) % v != 0 implies #[trigger] r[p]
            == F::f_zero() by {
            lemma_partner(f.len(), big, 0, lo, p);
            lemma_axis(xs, h, p);
            let y = p / xs;
            lemma_split(y, v);
            assert(y + h == (y / v + e) * v + y % v && y - h == (y / v - e) * v + y % v)
                by (nonlinear_arith)
                requires
                    y == (y / v) * v + y % v,
                    h == e * v,
            ;
            lemma_digits(y / v + e, v, y % v);
            lemma_digits(y / v - e, v, y % v);
            let q = lower(p, xs * h);
            assert(f[q] == F::f_zero());
            assert(f[q + xs * h] == F::f_zero());
            lemma_butterfly_zero(F::f_zero(), tw(lo, block_of(big, 0, lo, p)));
        }
    }
}

/// The position of the scalar at position `p` after padding.
spec fn spread(shape: NTTShape, nu: nat, p: int) -> int {
    let xs = pow2(shape.log_x as nat) as int;
    (p / xs * pow2(nu)) * xs + p % xs
}

/// Rounds across long distances treat the scalars of padded data as the rounds of the shorter
/// transform treat the scalars.
proof fn lemma_padded_pairs<F: BinaryField>(
    n: nat,
    shape: NTTShape,
    nu: nat,
    tw: spec_fn(int, int) -> F,
    tw2: spec_fn(int, int) -> F,
    i: int,
)
    requires
        whole_slices(n, shape),
        shape.log_y + nu <= usize::MAX,
        0 <= i < shape.log_y,
        forall|k: int|
            0 <= k < pow2((shape.log_y - 1 - i) as nat) ==> tw(i + nu, k) == #[trigger] tw2(i, k),
    ensures
        pairs_alike(
            longer(shape, nu),
            0,
            tw,
            i + nu,
            n,
            shape,
            0,
            tw2,
            i,
            |p: int| spread(shape, nu, p),
        ),
{
    let big = longer(shape, nu);
    let xs = pow2(shape.log_x as nat) as int;
    let ys = pow2(shape.log_y as nat) as int;
    let v = pow2(nu) as int;
    let h = pow2((shape.log_x + i + nu) as nat) as int;
    let h2 = pow2((shape.log_x + i) as nat) as int;
    let f = |p: int| spread(shape, nu, p);
    lemma_pow2_pos(shape.log_x as nat);
    lemma_pow2_pos(nu);
    lemma_pow2_pos(i as nat);
    lemma_pow2_pos((i + 1) as nat);
    lemma_pow2_adds(shape.log_y as nat, nu);
    lemma_pow2_adds(i as nat, nu);
    lemma_pow2_adds(nu, (i + 1) as nat);
    lemma_pow2_adds((shape.log_y - 1 - i) as nat, (i + 1) as nat);
    assert forall|p: int| 0 <= p < n implies {
        &&& low_half(#[trigger] f(p), h) == low_half(p, h2)
        &&& low_half(p, h2) ==> f(p + h2) == f(p) + h
        &&& tw(i + nu, block_of(big, 0, i + nu, f(p))) == tw2(i, block_of(shape, 0, i, p))
    } by {
        let (x, y, z) = lemma_coordinates(shape, n, p);
        lemma_spread(shape, nu, x, y, z);
        lemma_position(shape, i, x, y, z);
        lemma_digits_below(y, v, 0, ys);
        lemma_position(big, i + nu, x, y * v, z);
        lemma_bits_split(y, nu, 0, (i + nu) as nat);
        if low_half(p, h2) {
            lemma_spread(shape, nu, x, y + pow2(i as nat), z);
            assert((y + pow2(i as nat)) * v == y * v + pow2((i + nu) as nat)) by (nonlinear_arith)
                requires
                    pow2((i + nu) as nat) == pow2(i as nat) * v,
            ;
        }
        let d = pow2((i + 1) as nat) as int;
        lemma_div_denominator(y * v, v, d);
        lemma_digits(y, v, 0);
        lemma_div_below(y, d, pow2((shape.log_y - 1 - i) as nat) as int);
    }
}

/// Padding moves the scalar at `(x, y)` to `(x, 2^nu y)` in the same slice.
proof fn lemma_spread(shape: NTTShape, nu: nat, x: int, y: int, z: int)
    requires
        shape.log_y + nu <= usize::MAX,
        0 <= x < pow2(shape.log_x as nat),
    ensures
        spread(shape, nu, position(shape, x, y, z)) == position(
            longer(shape, nu),
            x,
            y * pow2(nu),
            z,
        ),
{
    let xs = pow2(shape.log_x as nat) as int;
    let ys = pow2(shape.log_y as nat) as int;
    let v = pow2(nu) as int;
    lemma_digits(z * ys + y, xs, x);
    lemma_pow2_adds(shape.log_y as nat, nu);
    assert((z * ys + y) * v == z * (ys * v) + y * v) by (nonlinear_arith);
}

/// The twiddle factors of transforms of different sizes with the same number of cosets: the longer
/// transform begins with the rounds of the shorter one.
pub proof fn law_shared_twiddles<F: BinaryField, TA: TwiddleAccess<F>>(
    rounds: Seq<TA>,
    log_domain_size: int,
    shape: NTTShape,
    nu: nat,
    coset: int,
    coset_bits: int,
    i: int,
    k: int,
)
    requires
        0 <= coset_bits,
        shape.log_y + nu <= usize::MAX,
        shape.log_y + nu + coset_bits <= log_domain_size <= rounds.len(),
        0 <= i < shape.log_y,
    ensures
        coset_twiddles(rounds, log_domain_size, longer(shape, nu), coset, coset_bits)(i + nu, k)
            == coset_twiddles(rounds, log_domain_size, shape, coset, coset_bits)(i, k),
{
}

/// The transform of data that is padded with `2^nu - 1` zeros after each scalar repeats each scalar
/// of the transform of the data `2^nu` times.
pub proof fn law_repetition<F: BinaryField, TA: TwiddleAccess<F>>(
    m: Seq<F>,
    rounds: Seq<TA>,
    log_domain_size: int,
    shape: NTTShape,
    log_w: nat,
    nu: nat,
    coset: int,
    coset_bits: int,
    skip_rounds: int,
)
    requires
        whole_slices(m.len(), shape),
        log_w <= shape.log_size(),
        0 <= coset_bits,
        0 <= skip_rounds <= shape.log_y,
        shape.log_y + nu <= usize::MAX,
        shape.log_y + nu + coset_bits <= log_domain_size <= rounds.len(),
    ensures
        forward_rounds(
            padded(m, shape, nu),
            longer(shape, nu),
            log_w,
            coset_twiddles(rounds, log_domain_size, longer(shape, nu), coset, coset_bits),
            0,
            shape.log_y + nu - skip_rounds,
        ) == repeated(
            forward_rounds(
                m,
                shape,
                log_w,
                coset_twiddles(rounds, log_domain_size, shape, coset, coset_bits),
                0,
                shape.log_y - skip_rounds,
            ),
            shape,
            nu,
        ),
{
    let big = longer(shape, nu);
    let tw = coset_twiddles(rounds, log_domain_size, big, coset, coset_bits);
    let tw2 = coset_twiddles(rounds, log_domain_size, shape, coset, coset_bits);
    let hi = shape.log_y - skip_rounds;
    let g = padded(m, shape, nu);
    let xs = pow2(shape.log_x as nat) as int;
    let v = pow2(nu) as int;
    let f = |p: int| spread(shape, nu, p);
    law_packing(g, big, log_w, tw, 0, hi + nu);
    law_packing(m, shape, log_w, tw2, 0, hi);
    lemma_whole_longer(m.len(), shape, nu);
    lemma_pow2_pos(shape.log_x as nat);
    lemma_pow2_pos(nu);
    // The rounds across long distances.
    assert forall|p: int| 0 <= p < m.len() implies 0 <= #[trigger] f(p) < g.len() && m[p] == g[f(
        p,
    )] by {
        lemma_spread_inverse(m.len(), shape, nu, p);
    }
    assert forall|i: int| 0 <= i < hi implies #[trigger] pairs_alike(
        big,
        0,
        tw,
        i + nu,
        m.len(),
        shape,
        0,
        tw2,
        i,
        f,
    ) by {
        assert forall|k: int|
            0 <= k < pow2((shape.log_y - 1 - i) as nat) implies tw(i + nu, k) == #[trigger] tw2(
            i,
            k,
        ) by {
            law_shared_twiddles(rounds, log_domain_size, shape, nu, coset, coset_bits, i, k);
        }
        lemma_padded_pairs(m.len(), shape, nu, tw, tw2, i);
    }
    lemma_rounds_picked(g, big, 0, tw, m, shape, 0, tw2, f, nu as int, 0, hi);
    lemma_zero_between(g, shape, nu, tw, nu as int, hi + nu);
    let c = forward_rounds(m, shape, 0, tw2, 0, hi);
    let a = forward_rounds(g, big, 0, tw, nu as int, hi + nu);
    lemma_rounds_len(m, shape, 0, tw2, 0, hi);
    lemma_rounds_len(g, big, 0, tw, nu as int, hi + nu);
    assert(0 + nu == nu as int);
    assert forall|p: int| 0 <= p < a.len() implies a[p] == padded(c, shape, nu)[p] by {
        if (p / xs) % v == 0 {
            let q = unstretched(shape, nu, p);
            lemma_unstretched(m.len(), shape, nu, p);
            assert(f(q) == p);
            assert(c[q] == a[f(q)]);
        }
    }
    assert(a =~= padded(c, shape, nu));
    // The rounds across short distances.
    lemma_stretched_rounds(c, shape, nu, tw, 0);
    lemma_forward_rounds_compose(g, big, 0, tw, 0, nu as int, hi + nu);
    lemma2_to64();
    assert(stretched(c, shape, nu, 1) =~= repeated(c, shape, nu));
}

/// The inverse transform of data in which each scalar is repeated `2^nu` times is the inverse
/// transform of the data, padded with `2^nu - 1` zeros after each scalar.
pub proof fn law_inverse_repetition<F: BinaryField, TA: TwiddleAccess<F>>(
    c: Seq<F>,
    rounds: Seq<TA>,
    log_domain_size: int,
    shape: NTTShape,
    log_w: nat,
    nu: nat,
    coset: int,
    coset_bits: int,
    skip_rounds: int,
)
    requires
        whole_slices(c.len(), shape),
        log_w <= shape.log_size(),
        0 <= coset_bits,
        0 <= skip_rounds <= shape.log_y,
        shape.log_y + nu <= usize::MAX,
        shape.log_y + nu + coset_bits <= log_domain_size <= rounds.len(),
    ensures
        inverse_rounds(
            repeated(c, shape, nu),
            longer(shape, nu),
            log_w,
            coset_twiddles(rounds, log_domain_size, longer(shape, nu), coset, coset_bits),
            0,
            shape.log_y + nu - skip_rounds,
        ) == padded(
            inverse_rounds(
                c,
                shape,
                log_w,
                coset_twiddles(rounds, log_domain_size, shape, coset, coset_bits),
                0,
                shape.log_y - skip_rounds,
            ),
            shape,
            nu,
        ),
{
    let big = longer(shape, nu);
    let tw = coset_twiddles(rounds, log_domain_size, big, coset, coset_bits);
    let tw2 = coset_twiddles(rounds, log_domain_size, shape, coset, coset_bits);
    let hi = shape.log_y - skip_rounds;
    let m = inverse_rounds(c, shape, log_w, tw2, 0, hi);
    lemma_rounds_len(c, shape, log_w, tw2, 0, hi);
    law_inverse(c, shape, log_w, tw2, 0, hi);
    law_repetition(
        m,
        rounds,
        log_domain_size,
        shape,
        log_w,
        nu,
        coset,
        coset_bits,
        skip_rounds,
    );
    lemma_whole_longer(m.len(), shape, nu);
    law_inverse(padded(m, shape, nu), big, log_w, tw, 0, hi + nu);
}

/// Where padding moves a scalar, there is room for it, and that scalar stands there.
proof fn lemma_spread_inverse(n: nat, shape: NTTShape, nu: nat, p: int)
    requires
        0 <= p < n,
        whole_slices(n, shape),
    ensures
        0 <= spread(shape, nu, p) < n * pow2(nu),
        (spread(shape, nu, p) / (pow2(shape.log_x as nat) as int)) % (pow2(nu) as int) == 0,
        unstretched(shape, nu, spread(shape, nu, p)) == p,
{
    let xs = pow2(shape.log_x as nat) as int;
    let v = pow2(nu) as int;
    lemma_pow2_pos(shape.log_x as nat);
    lemma_pow2_pos(nu);
    lemma_split(p, xs);
    let y = p / xs;
    let x = p % xs;
    lemma_div_pos_is_pos(p, xs);
    lemma_digits(y * v, xs, x);
    lemma_digits(y, v, 0);
    // n is a multiple of xs.
    let c = lemma_rows(n, shape);
    lemma_div_below(p, xs, c);
    lemma_digits_below(y, v, 0, c);
    assert((y * v) * xs + x < (c * xs) * v && 0 <= (y * v) * xs) by (nonlinear_arith)
        requires
            0 <= y * v,
            y * v + 1 <= c * v,
            0 <= x < xs,
    ;
}

/// The number of indices along the axes of `y` and `z` together.
proof fn lemma_rows(n: nat, shape: NTTShape) -> (c: int)
    requires
        whole_slices(n, shape),
    ensures
        n == c * pow2(shape.log_x as nat),
{
    let xs = pow2(shape.log_x as nat) as int;
    let ys = pow2(shape.log_y as nat) as int;
    let a = (shape.log_x + shape.log_y) as nat;
    lemma_pow2_pos(a);
    lemma_pow2_adds(shape.log_x as nat, shape.log_y as nat);
    lemma_split(n as int, pow2(a) as int);
    let z = n as int / pow2(a) as int;
    assert(n == (z * ys) * xs) by (nonlinear_arith)
        requires
            n == z * pow2(a),
            pow2(a) == xs * ys,
    ;
    z * ys
}

/// What stands at a multiple of `2^nu` along axis `y` was moved there by padding.
proof fn lemma_unstretched(n: nat, shape: NTTShape, nu: nat, p: int)
    requires
        0 <= p < n * pow2(nu),
        whole_slices(n, shape),
        (p / (pow2(shape.log_x as nat) as int)) % (pow2(nu) as int) == 0,
    ensures
        0 <= unstretched(shape, nu, p) < n,
        spread(shape, nu, unstretched(shape, nu, p)) == p,
{
    let xs = pow2(shape.log_x as nat) as int;
    let v = pow2(nu) as int;
    lemma_pow2_pos(shape.log_x as nat);
    lemma_pow2_pos(nu);
    lemma_split(p, xs);
    let yy = p / xs;
    let x = p % xs;
    lemma_split(yy, v);
    let y = yy / v;
    let c = lemma_rows(n, shape);
    assert(n * v == (c * v) * xs) by (nonlinear_arith)
        requires
            n == c * xs,
    ;
    lemma_div_below(p, xs, c * v);
    lemma_div_below(yy, v, c);
    lemma_digits_below(y, xs, x, c);
    lemma_digits(y, xs, x);
}

/// What `m` holds at the position of `p` in its slice, where axis `y` of the slice of `p` is
/// longer by the factor `2^nu`.
spec fn wrapped<F>(m: Seq<F>, shape: NTTShape, nu: nat, p: int) -> F {
    let xs = pow2(shape.log_x as nat) as int;
    let ys = pow2(shape.log_y as nat) as int;
    m[position(shape, p % xs, (p / xs) % ys, (p / xs) / (pow2(shape.log_y as nat + nu) as int))]
}

/// Each slice repeated, with zeros where the index along axis `y` is at least `2^log_y` modulo
/// `d`.
spec fn tiled<F: BinaryField>(m: Seq<F>, shape: NTTShape, nu: nat, d: int) -> Seq<F> {
    Seq::new(
        m.len() * pow2(nu),
        |p: int|
            if (p / (pow2(shape.log_x as nat) as int)) % d < pow2(shape.log_y as nat) {
                wrapped(m, shape, nu, p)
            } else {
                F::f_zero()
            },
    )
}

/// Axis `y` extended by the factor `2^nu` with zeros: the scalar at `(x, y)` of a slice, and zero
/// where `y` is too large.
pub open spec fn extended<F: BinaryField>(m: Seq<F>, shape: NTTShape, nu: nat) -> Seq<F> {
    Seq::new(
        m.len() * pow2(nu),
        |p: int|
            {
                let xs = pow2(shape.log_x as nat) as int;
                let y = (p / xs) % (pow2(shape.log_y as nat + nu) as int);
                let z = (p / xs) / (pow2(shape.log_y as nat + nu) as int);
                if y < pow2(shape.log_y as nat) {
                    m[position(shape, p % xs, y, z)]
                } else {
                    F::f_zero()
                }
            },
    )
}

/// Axis `y` extended by the factor `2^nu` by repeating each slice `2^nu` times.
pub open spec fn replicated<F: BinaryField>(m: Seq<F>, shape: NTTShape, nu: nat) -> Seq<F> {
    Seq::new(
        m.len() * pow2(nu),
        |p: int|
            {
                let xs = pow2(shape.log_x as nat) as int;
                let y = (p / xs) % (pow2(shape.log_y as nat) as int);
                let z = (p / xs) / (pow2(shape.log_y as nat + nu) as int);
                m[position(shape, p % xs, y, z)]
            },
    )
}

/// A round across a distance longer than the slices of the data fills in copies of them.
proof fn lemma_tiled_round<F: BinaryField>(
    m: Seq<F>,
    shape: NTTShape,
    nu: nat,
    tw: spec_fn(int, int) -> F,
    i: int,
)
    requires
        whole_slices(m.len(), shape),
        shape.log_y + nu <= usize::MAX,
        shape.log_y <= i < shape.log_y + nu,
    ensures
        round(
            false,
            tiled(m, shape, nu, pow2((i + 1) as nat) as int),
            longer(shape, nu),
            0,
            tw,
            i,
        ) == tiled(m, shape, nu, pow2(i as nat) as int),
{
    let big = longer(shape, nu);
    let xs = pow2(shape.log_x as nat) as int;
    let ys = pow2(shape.log_y as nat) as int;
    let h = pow2(i as nat) as int;
    let a = tiled(m, shape, nu, pow2((i + 1) as nat) as int);
    let b = tiled(m, shape, nu, h);
    let r = round(false, a, big, 0, tw, i);
    lemma_whole_longer(m.len(), shape, nu);
    lemma_pow2_pos(shape.log_x as nat);
    lemma_pow2_pos(shape.log_y as nat);
    lemma_pow2_pos(i as nat);
    lemma_pow2_unfold((i + 1) as nat);
    lemma_pow2_adds(shape.log_x as nat, i as nat);
    lemma_pow2_monotone(shape.log_y as nat, i as nat);
    // 2^(log_y + nu) is a multiple of 2 h, and h one of 2^log_y.
    let c = pow2((shape.log_y + nu - i - 1) as nat) as int;
    let e = pow2((i - shape.log_y) as nat) as int;
    lemma_pow2_pos((shape.log_y + nu - i - 1) as nat);
    lemma_pow2_adds((i + 1) as nat, (shape.log_y + nu - i - 1) as nat);
    lemma_pow2_adds((i - shape.log_y) as nat, shape.log_y as nat);
    assert forall|p: int| 0 <= p < a.len() implies r[p] == b[p] by {
        lemma_partner(a.len(), big, 0, i, p);
        lemma_axis(xs, h, p);
        let q = lower(p, xs * h);
        let y = q / xs;
        lemma_axis(xs, h, q);
        lemma_div_pos_is_pos(q, xs);
        lemma_residues(y, h);
        lemma_mod_bound(y, h);
        assert(a[q + xs * h] == F::f_zero());
        lemma_butterfly_zero(a[q], tw(i, block_of(big, 0, i, p)));
        assert(r[p] == a[q]);
        lemma_div_denominator(y, 2 * h, c);
        lemma_div_denominator(y + h, 2 * h, c);
        lemma_split(y, ys);
        assert(y + h == (y / ys + e) * ys + y % ys) by (nonlinear_arith)
            requires
                y == (y / ys) * ys + y % ys,
                h == e * ys,
        ;
        lemma_digits(y / ys + e, ys, y % ys);
        assert(wrapped(m, shape, nu, q + xs * h) == wrapped(m, shape, nu, q));
    }
    assert(r =~= b);
}

/// The rounds across distances longer than the slices of the data repeat them.
proof fn lemma_tiled_rounds<F: BinaryField>(
    m: Seq<F>,
    shape: NTTShape,
    nu: nat,
    tw: spec_fn(int, int) -> F,
    lo: int,
)
    requires
        whole_slices(m.len(), shape),
        shape.log_y + nu <= usize::MAX,
        shape.log_y <= lo <= shape.log_y + nu,
    ensures
        forward_rounds(
            extended(m, shape, nu),
            longer(shape, nu),
            0,
            tw,
            lo,
            shape.log_y + nu,
        ) == tiled(m, shape, nu, pow2(lo as nat) as int),
    decreases shape.log_y + nu - lo,
{
    if lo < shape.log_y + nu {
        lemma_tiled_rounds(m, shape, nu, tw, lo + 1);
        lemma_tiled_round(m, shape, nu, tw, lo);
    } else {
        let xs = pow2(shape.log_x as nat) as int;
        let ys = pow2(shape.log_y as nat) as int;
        let d = pow2(shape.log_y as nat + nu) as int;
        let a = extended(m, shape, nu);
        let b = tiled(m, shape, nu, d);
        lemma_pow2_pos(shape.log_y as nat);
        lemma_pow2_pos(shape.log_y as nat + nu);
        lemma_pow2_pos(nu);
        lemma_pow2_adds(shape.log_y as nat, nu);
        assert forall|p: int| 0 <= p < a.len() implies a[p] == b[p] by {
            let y = (p / xs) % d;
            lemma_mod_bound(p / xs, d);
            if y < ys {
                lemma_mod_mod(p / xs, ys, pow2(nu) as int);
                lemma_small_mod(y as nat, ys as nat);
            }
        }
        assert(a =~= b);
    }
}

/// Where position `p` of the data on coset number `coset` stands in the data on all `2^nu` cosets:
/// in the part of its slice that has the number of the coset.
pub open spec fn coset_position(shape: NTTShape, nu: nat, coset: int, p: int) -> int {
    let xs = pow2(shape.log_x as nat) as int;
    let ys = pow2(shape.log_y as nat) as int;
    position(longer(shape, nu), p % xs, coset * ys + (p / xs) % ys, (p / xs) / ys)
}

/// The scalar at `(x, y)` on a coset.
pub proof fn lemma_coset_position(shape: NTTShape, nu: nat, coset: int, x: int, y: int, z: int)
    requires
        shape.log_y + nu <= usize::MAX,
        0 <= x < pow2(shape.log_x as nat),
        0 <= y < pow2(shape.log_y as nat),
        0 <= coset < pow2(nu),
    ensures
        coset_position(shape, nu, coset, position(shape, x, y, z)) == position(
            longer(shape, nu),
            x,
            coset * pow2(shape.log_y as nat) + y,
            z,
        ),
        0 <= coset * pow2(shape.log_y as nat) + y < pow2(shape.log_y as nat + nu),
{
    let xs = pow2(shape.log_x as nat) as int;
    let ys = pow2(shape.log_y as nat) as int;
    lemma_pow2_adds(shape.log_y as nat, nu);
    lemma_digits(z * ys + y, xs, x);
    lemma_digits(z, ys, y);
    lemma_digits_below(coset, ys, y, pow2(nu) as int);
    assert(pow2(nu) * ys == ys * pow2(nu)) by (nonlinear_arith);
}

/// The rounds within the slices treat the part of a slice on a coset as the rounds of the transform
/// on that coset treat its data.
proof fn lemma_coset_pairs<F: BinaryField, TA: TwiddleAccess<F>>(
    n: nat,
    rounds: Seq<TA>,
    log_domain_size: int,
    shape: NTTShape,
    nu: nat,
    coset: int,
    outer_coset: int,
    outer_bits: int,
    i: int,
)
    requires
        whole_slices(n, shape),
        0 <= coset < pow2(nu),
        0 <= outer_bits,
        shape.log_y + nu <= usize::MAX,
        shape.log_y + nu + outer_bits <= log_domain_size <= rounds.len(),
        0 <= i < shape.log_y,
    ensures
        pairs_alike(
            longer(shape, nu),
            0,
            coset_twiddles(rounds, log_domain_size, longer(shape, nu), outer_coset, outer_bits),
            i,
            n,
            shape,
            0,
            coset_twiddles(
                rounds,
                log_domain_size,
                shape,
                outer_coset * pow2(nu) + coset,
                outer_bits + nu,
            ),
            i,
            |p: int| coset_position(shape, nu, coset, p),
        ),
{
    let big = longer(shape, nu);
    let tw = coset_twiddles(rounds, log_domain_size, big, outer_coset, outer_bits);
    let tw2 = coset_twiddles(
        rounds,
        log_domain_size,
        shape,
        outer_coset * pow2(nu) + coset,
        outer_bits + nu,
    );
    let f = |p: int| coset_position(shape, nu, coset, p);
    let ys = pow2(shape.log_y as nat) as int;
    let h = pow2((shape.log_x + i) as nat) as int;
    let d = pow2((i + 1) as nat) as int;
    let c = pow2((shape.log_y - 1 - i) as nat) as int;
    let v = pow2(nu) as int;
    lemma_pow2_pos((i + 1) as nat);
    lemma_pow2_adds((shape.log_y - 1 - i) as nat, (i + 1) as nat);
    lemma_pow2_adds((shape.log_y - 1 - i) as nat, nu);
    assert forall|p: int| 0 <= p < n implies {
        &&& low_half(#[trigger] f(p), h) == low_half(p, h)
        &&& low_half(p, h) ==> f(p + h) == f(p) + h
        &&& tw(i, block_of(big, 0, i, f(p))) == tw2(i, block_of(shape, 0, i, p))
    } by {
        let (x, y, z) = lemma_coordinates(shape, n, p);
        lemma_coset_position(shape, nu, coset, x, y, z);
        let y2 = coset * ys + y;
        lemma_position(shape, i, x, y, z);
        lemma_position(big, i, x, y2, z);
        lemma_bits_split(coset, shape.log_y as nat, y, i as nat);
        if low_half(p, h) {
            lemma_coset_position(shape, nu, coset, x, y + pow2(i as nat), z);
        }
        let k = y / d;
        lemma_split(y, d);
        assert(y2 == (coset * c + k) * d + y % d) by (nonlinear_arith)
            requires
                y2 == coset * ys + y,
                ys == c * d,
                y == k * d + y % d,
        ;
        lemma_digits(coset * c + k, d, y % d);
        assert(outer_coset * (c * v) + (coset * c + k) == (outer_coset * v + coset) * c + k)
            by (nonlinear_arith);
    }
}

/// The data on coset number `coset` of the data on all `2^nu` cosets.
pub open spec fn coset_part<F>(m: Seq<F>, shape: NTTShape, nu: nat, coset: int) -> Seq<F> {
    Seq::new(
        (m.len() as int / pow2(nu) as int) as nat,
        |p: int| m[coset_position(shape, nu, coset, p)],
    )
}

/// The data on a coset consists of whole slices, and lies within the data on all cosets.
pub proof fn lemma_coset_part<F>(m: Seq<F>, shape: NTTShape, nu: nat, coset: int)
    requires
        whole_slices(m.len(), longer(shape, nu)),
        shape.log_y + nu <= usize::MAX,
        0 <= coset < pow2(nu),
    ensures
        coset_part(m, shape, nu, coset).len() * pow2(nu) == m.len(),
        whole_slices(coset_part(m, shape, nu, coset).len(), shape),
        picked(
            m,
            coset_part(m, shape, nu, coset),
            |p: int| coset_position(shape, nu, coset, p),
        ),
{
    let big = longer(shape, nu);
    let a = pow2((shape.log_x + shape.log_y) as nat) as int;
    let v = pow2(nu) as int;
    lemma_pow2_pos((shape.log_x + shape.log_y) as nat);
    lemma_pow2_pos(nu);
    lemma_pow2_adds((shape.log_x + shape.log_y) as nat, nu);
    lemma_pow2_pos((shape.log_x + shape.log_y) as nat + nu);
    lemma_split(m.len() as int, a * v);
    let z = m.len() as int / (a * v);
    assert(m.len() == (z * a) * v + 0) by (nonlinear_arith)
        requires
            m.len() == z * (a * v),
    ;
    lemma_digits(z * a, v, 0);
    lemma_digits(z, a, 0);
    lemma_div_pos_is_pos(m.len() as int, v);
    let part = coset_part(m, shape, nu, coset);
    let f = |p: int| coset_position(shape, nu, coset, p);
    assert forall|p: int| 0 <= p < part.len() implies 0 <= #[trigger] f(p) < m.len() && part[p]
        == m[f(p)] by {
        let (x, y, z) = lemma_coordinates(shape, part.len(), p);
        lemma_coset_position(shape, nu, coset, x, y, z);
        lemma_slices(part.len(), shape, nu);
        lemma_position_below(big, m.len(), x, coset * pow2(shape.log_y as nat) + y, z);
    }
}

/// Where a transform skips its first `nu` rounds it is `2^nu` transforms on smaller cosets, one
/// after the other, whatever the data, and its inverse is theirs.
pub proof fn law_subcosets<F: BinaryField, TA: TwiddleAccess<F>>(
    m: Seq<F>,
    rounds: Seq<TA>,
    log_domain_size: int,
    shape: NTTShape,
    log_w: nat,
    log_w2: nat,
    nu: nat,
    coset: int,
    outer_coset: int,
    outer_bits: int,
    lo: int,
    hi: int,
)
    requires
        whole_slices(m.len(), longer(shape, nu)),
        log_w <= longer(shape, nu).log_size(),
        log_w2 <= shape.log_size(),
        0 <= coset < pow2(nu),
        0 <= outer_bits,
        shape.log_y + nu <= usize::MAX,
        shape.log_y + nu + outer_bits <= log_domain_size <= rounds.len(),
        0 <= lo,
        hi <= shape.log_y,
    ensures
        coset_part(
            forward_rounds(
                m,
                longer(shape, nu),
                log_w,
                coset_twiddles(
                    rounds,
                    log_domain_size,
                    longer(shape, nu),
                    outer_coset,
                    outer_bits,
                ),
                lo,
                hi,
            ),
            shape,
            nu,
            coset,
        ) == forward_rounds(
            coset_part(m, shape, nu, coset),
            shape,
            log_w2,
            coset_twiddles(
                rounds,
                log_domain_size,
                shape,
                outer_coset * pow2(nu) + coset,
                outer_bits + nu,
            ),
            lo,
            hi,
        ),
        coset_part(
            inverse_rounds(
                m,
                longer(shape, nu),
                log_w,
                coset_twiddles(
                    rounds,
                    log_domain_size,
                    longer(shape, nu),
                    outer_coset,
                    outer_bits,
                ),
                lo,
                hi,
            ),
            shape,
            nu,
            coset,
        ) == inverse_rounds(
            coset_part(m, shape, nu, coset),
            shape,
            log_w2,
            coset_twiddles(
                rounds,
                log_domain_size,
                shape,
                outer_coset * pow2(nu) + coset,
                outer_bits + nu,
            ),
            lo,
            hi,
        ),
{
    let big = longer(shape, nu);
    let tw = coset_twiddles(rounds, log_domain_size, big, outer_coset, outer_bits);
    let tw2 = coset_twiddles(
        rounds,
        log_domain_size,
        shape,
        outer_coset * pow2(nu) + coset,
        outer_bits + nu,
    );
    let f = |p: int| coset_position(shape, nu, coset, p);
    let part = coset_part(m, shape, nu, coset);
    lemma_coset_part(m, shape, nu, coset);
    law_packing(m, big, log_w, tw, lo, hi);
    law_packing(part, shape, log_w2, tw2, lo, hi);
    assert forall|i: int| lo <= i < hi implies #[trigger] pairs_alike(
        big,
        0,
        tw,
        i + 0,
        part.len(),
        shape,
        0,
        tw2,
        i,
        f,
    ) by {
        lemma_coset_pairs(
            part.len(),
            rounds,
            log_domain_size,
            shape,
            nu,
            coset,
            outer_coset,
            outer_bits,
            i,
        );
    }
    lemma_rounds_picked(m, big, 0, tw, part, shape, 0, tw2, f, 0, lo, hi);
    lemma_rounds_len(m, big, 0, tw, lo, hi);
    lemma_rounds_len(part, shape, 0, tw2, lo, hi);
    let fm = forward_rounds(m, big, 0, tw, lo, hi);
    let fp = forward_rounds(part, shape, 0, tw2, lo, hi);
    assert forall|p: int| 0 <= p < fp.len() implies coset_part(fm, shape, nu, coset)[p]
        == fp[p] by {
        assert(fp[p] == fm[f(p)]);
    }
    assert(coset_part(fm, shape, nu, coset) =~= fp);
    let im = inverse_rounds(m, big, 0, tw, lo, hi);
    let ip = inverse_rounds(part, shape, 0, tw2, lo, hi);
    assert forall|p: int| 0 <= p < ip.len() implies coset_part(im, shape, nu, coset)[p]
        == ip[p] by {
        assert(ip[p] == im[f(p)]);
    }
    assert(coset_part(im, shape, nu, coset) =~= ip);
}

/// A transform of data that is extended with zeros along axis `y` is the transforms of the data on
/// the `2^nu` cosets, one after the other. Its first `nu` rounds only repeat the data.
pub proof fn law_cosets<F: BinaryField, TA: TwiddleAccess<F>>(
    m: Seq<F>,
    rounds: Seq<TA>,
    log_domain_size: int,
    shape: NTTShape,
    log_w: nat,
    nu: nat,
    coset: int,
    outer_coset: int,
    outer_bits: int,
)
    requires
        whole_slices(m.len(), shape),
        log_w <= shape.log_size(),
        0 <= coset < pow2(nu),
        0 <= outer_bits,
        shape.log_y + nu <= usize::MAX,
        shape.log_y + nu + outer_bits <= log_domain_size <= rounds.len(),
    ensures
        forward_rounds(
            extended(m, shape, nu),
            longer(shape, nu),
            log_w,
            coset_twiddles(rounds, log_domain_size, longer(shape, nu), outer_coset, outer_bits),
            shape.log_y as int,
            shape.log_y + nu,
        ) == replicated(m, shape, nu),
        coset_part(
            forward_rounds(
                extended(m, shape, nu),
                longer(shape, nu),
                log_w,
                coset_twiddles(
                    rounds,
                    log_domain_size,
                    longer(shape, nu),
                    outer_coset,
                    outer_bits,
                ),
                0,
                shape.log_y + nu,
            ),
            shape,
            nu,
            coset,
        ) == forward_rounds(
            m,
            shape,
            log_w,
            coset_twiddles(
                rounds,
                log_domain_size,
                shape,
                outer_coset * pow2(nu) + coset,
                outer_bits + nu,
            ),
            0,
            shape.log_y as int,
        ),
{
    let big = longer(shape, nu);
    let ly = shape.log_y as int;
    let tw = coset_twiddles(rounds, log_domain_size, big, outer_coset, outer_bits);
    let g = extended(m, shape, nu);
    let r = replicated(m, shape, nu);
    let xs = pow2(shape.log_x as nat) as int;
    let ys = pow2(shape.log_y as nat) as int;
    let ys2 = pow2(shape.log_y as nat + nu) as int;
    lemma_whole_longer(m.len(), shape, nu);
    law_packing(g, big, log_w, tw, ly, ly + nu);
    lemma_pow2_pos(shape.log_y as nat);
    lemma_pow2_pos(nu);
    lemma_pow2_adds(shape.log_y as nat, nu);
    // The rounds that repeat the data.
    lemma_tiled_rounds(m, shape, nu, tw, ly);
    assert forall|p: int| 0 <= p < r.len() implies tiled(m, shape, nu, ys)[p] == r[p] by {
        lemma_mod_bound(p / xs, ys);
    }
    assert(tiled(m, shape, nu, ys) =~= r);
    // The part of the repeated data on the coset is the data.
    let part = coset_part(r, shape, nu, coset);
    lemma_digits(m.len() as int, pow2(nu) as int, 0);
    lemma_coset_part(r, shape, nu, coset);
    assert forall|p: int| 0 <= p < m.len() implies part[p] == m[p] by {
        let (x, y, z) = lemma_coordinates(shape, m.len(), p);
        lemma_coset_position(shape, nu, coset, x, y, z);
        lemma_slices(m.len(), shape, nu);
        lemma_position_below(big, r.len(), x, coset * ys + y, z);
        let yy = z * ys2 + (coset * ys + y);
        lemma_digits(yy, xs, x);
        lemma_digits(z, ys2, coset * ys + y);
        assert(yy == (z * pow2(nu) + coset) * ys + y) by (nonlinear_arith)
            requires
                yy == z * ys2 + (coset * ys + y),
                ys2 == ys * pow2(nu),
        ;
        lemma_digits(z * pow2(nu) + coset, ys, y);
    }
    assert(part =~= m);
    // The rounds within the slices.
    law_subcosets(
        r,
        rounds,
        log_domain_size,
        shape,
        log_w,
        log_w,
        nu,
        coset,
        outer_coset,
        outer_bits,
        0,
        ly,
    );
    lemma_forward_rounds_compose(g, big, log_w, tw, 0, ly, ly + nu);
}

/// Extended data has as many slices as the data.
pub proof fn lemma_slices(n: nat, shape: NTTShape, nu: nat)
    requires
        whole_slices(n, shape),
        shape.log_y + nu <= usize::MAX,
    ensures
        (n * pow2(nu)) as int / pow2((shape.log_x + longer(shape, nu).log_y) as nat) as int
            == n as int / pow2((shape.log_x + shape.log_y) as nat) as int,
{
    let a = pow2((shape.log_x + shape.log_y) as nat) as int;
    lemma_pow2_pos((shape.log_x + shape.log_y) as nat);
    lemma_pow2_pos(nu);
    lemma_pow2_adds((shape.log_x + shape.log_y) as nat, nu);
    lemma_pow2_pos((shape.log_x + shape.log_y) as nat + nu);
    lemma_split(n as int, a);
    let z = n as int / a;
    assert(n * pow2(nu) == z * (a * pow2(nu)) + 0) by (nonlinear_arith)
        requires
            n == z * a,
    ;
    lemma_digits(z, a * pow2(nu), 0);
}

} // verus!
