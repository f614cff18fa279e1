//! The forward transform evaluates polynomials.
use vstd::arithmetic::div_mod::*;
use vstd::arithmetic::power2::*;
use vstd::prelude::*;

use crate::arith::{lemma_digits, lemma_split, low_half};
use crate::field::{
    group_coord, lemma_add_group, lemma_add_mul, lemma_add_swap, lemma_mul_zero, BinaryField,
};
use crate::laws::{
    column, column_shape, law_batch, lemma_partner, lemma_position, position, whole_slices,
};
use crate::model::{
    block_of, butterfly, coset_twiddles, forward_rounds, lemma_rounds_len, lower, round,
};
use crate::padding::lemma_residues;
use crate::shape::NTTShape;
use crate::subspace::{
    independent, lemma_basis_in_span, lemma_normalized_poly, normalized_poly,
};
use crate::twiddle::{
    lemma_bits_split, lemma_subset_sum_ext, round_basis, round_of, rounds_of, subset_sum, twiddle,
    TwiddleAccess,
};

verus! {

/// Element number `q` of the polynomial basis at `x`: the product of the normalized subspace
/// polynomials with the numbers `i + j`, where `j` is the position of a one in the first `n` binary
/// digits of `q`.
pub open spec fn basis_poly<F: BinaryField>(b: Seq<F>, i: nat, n: nat, q: int, x: F) -> F
    decreases n,
{
    if n == 0 {
        F::f_one()
    } else {
        let rest = basis_poly(b, i + 1, (n - 1) as nat, q / 2, x);
        if q % 2 == 0 {
            rest
        } else {
            normalized_poly(b, i, x).f_mul(rest)
        }
    }
}

/// The value at `x` of the polynomial with the coefficients `a`: the sum of the first `k`
/// coefficients, each multiplied by the element of the polynomial basis with its number.
pub open spec fn poly_value<F: BinaryField>(
    a: Seq<F>,
    b: Seq<F>,
    i: nat,
    n: nat,
    x: F,
    k: nat,
) -> F
    decreases k,
{
    if k == 0 {
        F::f_zero()
    } else {
        poly_value(a, b, i, n, x, (k - 1) as nat).f_add(
            a[k - 1].f_mul(basis_poly(b, i, n, k - 1, x)),
        )
    }
}

/// Point number `k` of the domain that the elements of `b` from number `i` on span.
pub open spec fn domain_point<F: BinaryField>(b: Seq<F>, i: nat, k: int) -> F {
    subset_sum(b.skip(i as int), (b.len() - i) as nat, k)
}

/// The value of the polynomial whose coefficients are every `step`-th element of `a` from number
/// `s` on.
spec fn strided_value<F: BinaryField>(
    a: Seq<F>,
    s: int,
    step: int,
    b: Seq<F>,
    i: nat,
    n: nat,
    x: F,
    k: nat,
) -> F
    decreases k,
{
    if k == 0 {
        F::f_zero()
    } else {
        strided_value(a, s, step, b, i, n, x, (k - 1) as nat).f_add(
            a[s + (k - 1) * step].f_mul(basis_poly(b, i, n, k - 1, x)),
        )
    }
}

/// The polynomial with all coefficients.
proof fn lemma_strided_value<F: BinaryField>(
    a: Seq<F>,
    b: Seq<F>,
    i: nat,
    n: nat,
    x: F,
    k: nat,
)
    ensures
        strided_value(a, 0, 1, b, i, n, x, k) == poly_value(a, b, i, n, x, k),
    decreases k,
{
    if k > 0 {
        lemma_strided_value(a, b, i, n, x, (k - 1) as nat);
    }
}

/// A polynomial splits into the coefficients with even and those with odd numbers.
proof fn lemma_strided_split<F: BinaryField>(
    a: Seq<F>,
    s: int,
    step: int,
    b: Seq<F>,
    i: nat,
    n: nat,
    x: F,
    k: nat,
)
    ensures
        strided_value(a, s, step, b, i, n + 1, x, 2 * k) == strided_value(
            a,
            s,
            2 * step,
            b,
            i + 1,
            n,
            x,
            k,
        ).f_add(
            strided_value(a, s + step, 2 * step, b, i + 1, n, x, k).f_mul(
                normalized_poly(b, i, x),
            ),
        ),
    decreases k,
{
    let w = normalized_poly(b, i, x);
    let z = F::f_zero();
    if k == 0 {
        lemma_mul_zero(w);
        lemma_add_group(z, z, z);
    } else {
        let k1 = (k - 1) as nat;
        lemma_strided_split(a, s, step, b, i, n, x, k1);
        let even = strided_value(a, s, 2 * step, b, i + 1, n, x, k1);
        let odd = strided_value(a, s + step, 2 * step, b, i + 1, n, x, k1);
        let e = a[s + k1 * (2 * step)];
        let o = a[s + step + k1 * (2 * step)];
        let rest = basis_poly(b, i + 1, n, k1 as int, x);
        assert((2 * k1) * step == k1 * (2 * step) && (2 * k1 + 1) * step == step + k1 * (2 * step))
            by (nonlinear_arith);
        assert(2 * k - 1 == 2 * k1 + 1 && 2 * k - 2 == 2 * k1);
        let s0 = strided_value(a, s, step, b, i, n + 1, x, 2 * k1);
        assert(basis_poly(b, i, n + 1, (2 * k1) as int, x) == rest);
        assert(basis_poly(b, i, n + 1, (2 * k1 + 1) as int, x) == w.f_mul(rest));
        let s1 = strided_value(a, s, step, b, i, n + 1, x, 2 * k1 + 1);
        assert(s1 == s0.f_add(e.f_mul(rest)));
        assert(strided_value(a, s, step, b, i, n + 1, x, 2 * k) == s1.f_add(
            o.f_mul(w.f_mul(rest)),
        ));
        F::law_mul_comm(w, rest);
        F::law_mul_assoc(o, rest, w);
        let er = e.f_mul(rest);
        let or = o.f_mul(rest);
        lemma_add_mul(odd, or, w);
        lemma_add_group(s0, er, or.f_mul(w));
        lemma_add_swap(even, odd.f_mul(w), er, or.f_mul(w));
    }
}

/// What the rounds from `j` on compute at a position whose value they take to the point `x`, where
/// `s` is the position modulo `2^j`.
spec fn partial_value<F: BinaryField>(
    a: Seq<F>,
    b: Seq<F>,
    i: nat,
    n: nat,
    j: nat,
    s: int,
    x: F,
) -> F
    decreases n - j,
{
    if j >= n {
        a[s]
    } else {
        partial_value(a, b, i, n, j + 1, s, x).f_add(
            partial_value(a, b, i, n, j + 1, s + pow2(j), x).f_mul(normalized_poly(b, i + j, x)),
        )
    }
}

/// The partial values are values of polynomials.
proof fn lemma_partial_value<F: BinaryField>(
    a: Seq<F>,
    b: Seq<F>,
    i: nat,
    n: nat,
    j: nat,
    s: int,
    x: F,
)
    requires
        j <= n,
    ensures
        partial_value(a, b, i, n, j, s, x) == strided_value(
            a,
            s,
            pow2(j) as int,
            b,
            i + j,
            (n - j) as nat,
            x,
            pow2((n - j) as nat),
        ),
    decreases n - j,
{
    if j < n {
        lemma_partial_value(a, b, i, n, j + 1, s, x);
        lemma_partial_value(a, b, i, n, j + 1, s + pow2(j), x);
        lemma_pow2_unfold(j + 1);
        lemma_pow2_unfold((n - j) as nat);
        lemma_strided_split(
            a,
            s,
            pow2(j) as int,
            b,
            i + j,
            (n - j - 1) as nat,
            x,
            pow2((n - j - 1) as nat),
        );
    } else {
        lemma2_to64();
        let z = F::f_zero();
        assert(pow2((n - j) as nat) == 1);
        assert(strided_value(a, s, pow2(j) as int, b, i + j, 0, x, 0) == z);
        assert(a[s + 0 * pow2(j)] == a[s]);
        F::law_mul_one(a[s]);
        lemma_add_group(a[s], z, z);
    }
}

/// The partial values depend on the values of the normalized subspace polynomials only.
proof fn lemma_partial_value_ext<F: BinaryField>(
    a: Seq<F>,
    b: Seq<F>,
    i: nat,
    n: nat,
    j: nat,
    s: int,
    x: F,
    y: F,
)
    requires
        forall|k: int|
            j <= k < n ==> #[trigger] normalized_poly(b, (i + k) as nat, x) == normalized_poly(
                b,
                (i + k) as nat,
                y,
            ),
    ensures
        partial_value(a, b, i, n, j, s, x) == partial_value(a, b, i, n, j, s, y),
    decreases n - j,
{
    if j < n {
        lemma_partial_value_ext(a, b, i, n, j + 1, s, x, y);
        lemma_partial_value_ext(a, b, i, n, j + 1, s + pow2(j), x, y);
        assert(normalized_poly(b, (i + j as int) as nat, x) == normalized_poly(
            b,
            (i + j as int) as nat,
            y,
        ));
    }
}

/// The values of a normalized subspace polynomial at the elements of `c`.
spec fn images<F: BinaryField>(b: Seq<F>, i: nat, c: Seq<F>) -> Seq<F> {
    Seq::new(c.len(), |j: int| normalized_poly(b, i, c[j]))
}

/// A normalized subspace polynomial takes subset sums to subset sums.
proof fn lemma_image_sum<F: BinaryField>(b: Seq<F>, i: nat, c: Seq<F>, n: nat, k: int)
    requires
        independent(b),
        i < b.len(),
        n <= c.len(),
    ensures
        normalized_poly(b, i, subset_sum(c, n, k)) == subset_sum(images(b, i, c), n, k),
    decreases n,
{
    if n == 0 {
        lemma_normalized_poly(b, i, F::f_zero(), F::f_zero());
    } else {
        lemma_image_sum(b, i, c, (n - 1) as nat, k);
        lemma_normalized_poly(b, i, subset_sum(c, (n - 1) as nat, k), c[n - 1]);
    }
}

/// A subset sum of zero, one and further elements, in which element `i` is the one.
proof fn lemma_sum_from<F: BinaryField>(d: Seq<F>, i: nat, n: nat, k: int)
    requires
        0 <= k,
        n <= d.len(),
        forall|j: int| 0 <= j < i && j < n ==> #[trigger] d[j] == F::f_zero(),
        i < n ==> d[i as int] == F::f_one(),
    ensures
        n <= i ==> subset_sum(d, n, k) == F::f_zero(),
        n > i ==> subset_sum(d, n, k) == (if low_half(k, pow2(i) as int) {
            F::f_zero()
        } else {
            F::f_one()
        }).f_add(subset_sum(d.skip(i as int + 1), (n - i - 1) as nat, k / (pow2(i + 1) as int))),
    decreases n,
{
    let z = F::f_zero();
    if n > 0 {
        let m = (n - 1) as nat;
        lemma_sum_from(d, i, m, k);
        lemma_add_group(z, z, z);
        if n <= i {
            assert(d[n - 1] == z);
        } else if n == i + 1 {
            lemma_add_group(F::f_one(), z, z);
        } else {
            lemma_pow2_pos(i + 1);
            lemma_pow2_pos((m - i - 1) as nat);
            lemma_pow2_adds(i + 1, (m - i - 1) as nat);
            lemma_div_denominator(k, pow2(i + 1) as int, pow2((m - i - 1) as nat) as int);
            let e = d.skip(i as int + 1);
            let k2 = k / (pow2(i + 1) as int);
            assert(low_half(k, pow2(m) as int) == low_half(k2, pow2((m - i - 1) as nat) as int));
            assert(e[m - i - 1] == d[m as int]);
            let head = if low_half(k, pow2(i) as int) {
                z
            } else {
                F::f_one()
            };
            lemma_add_group(head, subset_sum(e, (m - i - 1) as nat, k2), d[m as int]);
        }
    }
}

/// The number of the point with which position `y` on a coset is transformed.
spec fn point_number(n: nat, coset: int, y: int) -> int {
    coset * pow2(n) + y
}

/// The value of the normalized subspace polynomial of a round at the point of position `y`: the
/// twiddle factor of the block, plus one in the upper half of the block.
proof fn lemma_point<F: BinaryField, TA: TwiddleAccess<F>>(
    access: TA,
    b: Seq<F>,
    off: nat,
    n: nat,
    coset: int,
    y: int,
    i: nat,
)
    requires
        independent(b),
        off + n <= b.len(),
        i < n,
        0 <= coset,
        0 <= y < pow2(n),
        round_of(access, b, (off + i) as int),
    ensures
        normalized_poly(b, off + i, domain_point(b, off, point_number(n, coset, y))) == (
        if low_half(y, pow2(i) as int) {
            F::f_zero()
        } else {
            F::f_one()
        }).f_add(
            twiddle(
                access,
                coset * pow2((n - 1 - i) as nat) + y / (pow2(i + 1) as int),
            ),
        ),
{
    let c = b.skip(off as int);
    let nn = (b.len() - off) as nat;
    let k = point_number(n, coset, y);
    let d = images(b, off + i, c);
    let k2 = coset * pow2((n - 1 - i) as nat) + y / (pow2(i + 1) as int);
    assert(0 <= coset * pow2(n)) by (nonlinear_arith)
        requires
            0 <= coset,
    ;
    lemma_image_sum(b, off + i, c, nn, k);
    assert forall|j: int| 0 <= j < i && j < nn implies #[trigger] d[j] == F::f_zero() by {
        lemma_basis_in_span(b, off + j, off + i);
        lemma_normalized_poly(b, off + i, b[off + j], F::f_zero());
    }
    lemma_normalized_poly(b, off + i, F::f_zero(), F::f_zero());
    lemma_sum_from(d, i, nn, k);
    // The index.
    let h = pow2(i + 1) as int;
    let g = pow2((n - 1 - i) as nat) as int;
    lemma_pow2_pos(i + 1);
    lemma_pow2_adds((n - 1 - i) as nat, i + 1);
    lemma_split(y, h);
    assert(k == k2 * h + y % h) by (nonlinear_arith)
        requires
            k == coset * (g * h) + y,
            k2 == coset * g + y / h,
            y == (y / h) * h + y % h,
    ;
    lemma_digits(k2, h, y % h);
    lemma_bits_split(coset, n, y, i);
    // The basis of the round.
    let r = round_basis(b, off + i);
    assert forall|j: int| 0 <= j < nn - i - 1 implies d.skip(i as int + 1)[j] == r[j] by {
        assert(c[i + 1 + j] == b[off + i + 1 + j]);
    }
    lemma_subset_sum_ext(d.skip(i as int + 1), r, (nn - i - 1) as nat, k2);
    lemma_add_group(subset_sum(r, (nn - i - 1) as nat, k2), F::f_zero(), F::f_zero());
}

/// What a butterfly computes, in terms of the twiddle factor plus one in the upper half.
proof fn lemma_butterfly_value<F: BinaryField>(u: F, v: F, t: F)
    ensures
        butterfly(false, u, v, t).0 == u.f_add(v.f_mul(F::f_zero().f_add(t))),
        butterfly(false, u, v, t).1 == u.f_add(v.f_mul(F::f_one().f_add(t))),
{
    broadcast use group_coord;

    lemma_add_group(t, t, t);
    F::law_mul_add(v, F::f_one(), t);
    F::law_mul_one(v);
    F::law_coord_ext(
        v.f_add(u.f_add(v.f_mul(t))),
        u.f_add(v.f_add(v.f_mul(t))),
    );
}

/// The points of two positions that a butterfly of round `j` pairs agree in the rounds before it.
proof fn lemma_points_agree<F: BinaryField, TA: TwiddleAccess<F>>(
    rounds: Seq<TA>,
    b: Seq<F>,
    off: nat,
    n: nat,
    coset: int,
    q: int,
    j: nat,
    k: int,
)
    requires
        independent(b),
        rounds_of(rounds, b),
        off + n <= b.len(),
        0 <= coset,
        j < k < n,
        0 <= q,
        q + pow2(j) < pow2(n),
        low_half(q, pow2(j) as int),
    ensures
        normalized_poly(b, (off + k) as nat, domain_point(b, off, point_number(n, coset, q)))
            == normalized_poly(
            b,
            (off + k) as nat,
            domain_point(b, off, point_number(n, coset, q + pow2(j))),
        ),
{
    let h = pow2(j) as int;
    let e = pow2((k - j - 1) as nat) as int;
    lemma_pow2_pos(j);
    lemma_pow2_unfold(j + 1);
    lemma_residues(q, h);
    assert(round_of(rounds[off + k], b, off + k));
    lemma_point(rounds[off + k], b, off, n, coset, q, k as nat);
    lemma_point(rounds[off + k], b, off, n, coset, q + h, k as nat);
    lemma_pow2_pos((k - j - 1) as nat);
    lemma_pow2_adds(j + 1, (k - j - 1) as nat);
    lemma_pow2_unfold((k + 1) as nat);
    lemma_div_denominator(q, 2 * h, e);
    lemma_div_denominator(q + h, 2 * h, e);
    lemma_div_denominator(q, 2 * h, 2 * e);
    lemma_div_denominator(q + h, 2 * h, 2 * e);
    assert((2 * h) * (2 * e) == 2 * ((2 * h) * e)) by (nonlinear_arith);
}

/// What a round computes at position `y` of a column.
proof fn lemma_round_value<F: BinaryField, TA: TwiddleAccess<F>>(
    a: Seq<F>,
    rounds: Seq<TA>,
    b: Seq<F>,
    shape: NTTShape,
    coset: int,
    coset_bits: int,
    j: nat,
    y: int,
)
    requires
        shape.log_x == 0,
        shape.log_z == 0,
        a.len() == pow2(shape.log_y as nat),
        independent(b),
        rounds_of(rounds, b),
        0 <= coset,
        0 <= coset_bits,
        shape.log_y + coset_bits <= b.len(),
        j < shape.log_y,
        0 <= y < a.len(),
    ensures
        ({
            let off = (b.len() - (shape.log_y + coset_bits)) as nat;
            let tw = coset_twiddles(rounds, b.len() as int, shape, coset, coset_bits);
            let q = lower(y, pow2(j) as int);
            round(false, a, shape, 0, tw, j as int)[y] == a[q].f_add(
                a[q + pow2(j)].f_mul(
                    normalized_poly(
                        b,
                        off + j,
                        domain_point(b, off, point_number(shape.log_y as nat, coset, y)),
                    ),
                ),
            )
        }),
{
    let n = shape.log_y as nat;
    let off = (b.len() - (n + coset_bits)) as nat;
    let tw = coset_twiddles(rounds, b.len() as int, shape, coset, coset_bits);
    let h = pow2(j) as int;
    let q = lower(y, h);
    assert(round_of(rounds[(off + j) as int], b, (off + j) as int));
    lemma_point(rounds[(off + j) as int], b, off, n, coset, y, j);
    lemma2_to64();
    lemma_position(shape, j as int, 0, y, 0);
    assert(position(shape, 0, y, 0) == y) by (nonlinear_arith)
        requires
            position(shape, 0, y, 0) == (0 * pow2(n) + y) * 1 + 0,
    ;
    let t = tw(j as int, block_of(shape, 0, j as int, y));
    assert(t == twiddle(
        rounds[(off + j) as int],
        coset * pow2((n - 1 - j) as nat) + y / (pow2(j + 1) as int),
    ));
    lemma_butterfly_value(a[q], a[q + h], t);
}

/// The values after the rounds from `j` on.
proof fn lemma_rounds_value<F: BinaryField, TA: TwiddleAccess<F>>(
    m: Seq<F>,
    rounds: Seq<TA>,
    b: Seq<F>,
    shape: NTTShape,
    coset: int,
    coset_bits: int,
    j: nat,
    y: int,
)
    requires
        shape.log_x == 0,
        shape.log_z == 0,
        m.len() == pow2(shape.log_y as nat),
        independent(b),
        rounds_of(rounds, b),
        0 <= coset,
        0 <= coset_bits,
        shape.log_y + coset_bits <= b.len(),
        j <= shape.log_y,
        0 <= y < m.len(),
    ensures
        ({
            let off = (b.len() - (shape.log_y + coset_bits)) as nat;
            let tw = coset_twiddles(rounds, b.len() as int, shape, coset, coset_bits);
            forward_rounds(m, shape, 0, tw, j as int, shape.log_y as int)[y] == partial_value(
                m,
                b,
                off,
                shape.log_y as nat,
                j,
                y % (pow2(j) as int),
                domain_point(b, off, point_number(shape.log_y as nat, coset, y)),
            )
        }),
    decreases shape.log_y - j,
{
    let n = shape.log_y as nat;
    let off = (b.len() - (n + coset_bits)) as nat;
    let tw = coset_twiddles(rounds, b.len() as int, shape, coset, coset_bits);
    let h = pow2(j) as int;
    lemma_pow2_pos(j);
    if j == n {
        lemma_small_mod(y as nat, h as nat);
    } else {
        let a = forward_rounds(m, shape, 0, tw, j as int + 1, n as int);
        lemma_rounds_len(m, shape, 0, tw, j as int + 1, n as int);
        lemma2_to64();
        lemma_digits(1, m.len() as int, 0);
        assert(whole_slices(m.len(), shape));
        lemma_partner(m.len(), shape, 0, j as int, y);
        let q = lower(y, h);
        let x = domain_point(b, off, point_number(n, coset, y));
        let x0 = domain_point(b, off, point_number(n, coset, q));
        let x1 = domain_point(b, off, point_number(n, coset, q + h));
        lemma_rounds_value(m, rounds, b, shape, coset, coset_bits, j + 1, q);
        lemma_rounds_value(m, rounds, b, shape, coset, coset_bits, j + 1, q + h);
        lemma_pow2_unfold(j + 1);
        lemma_residues(q, h);
        let s = q % h;
        // The points of the pair agree in the rounds before.
        assert forall|k: int| j + 1 <= k < n implies #[trigger] normalized_poly(
            b,
            (off + k) as nat,
            x0,
        ) == normalized_poly(b, (off + k) as nat, x1) by {
            lemma_points_agree(rounds, b, off, n, coset, q, j, k);
        }
        lemma_partial_value_ext(m, b, off, n, j + 1, s, x0, x1);
        lemma_partial_value_ext(m, b, off, n, j + 1, s + h, x0, x1);
        assert(y == q || y == q + h);
        assert(partial_value(m, b, off, n, j + 1, s, x) == a[q]);
        assert(partial_value(m, b, off, n, j + 1, s + h, x) == a[q + h]);
        lemma_round_value(a, rounds, b, shape, coset, coset_bits, j, y);
        assert(y % h == s);
    }
}

/// The forward transform takes the coefficients of a polynomial, in the basis of the products of
/// normalized subspace polynomials, to its values: position `y` of a column holds the value at the
/// point number `coset 2^log_y + y` of the domain that the last `log_y + coset_bits` elements of
/// the basis `b` span.
pub proof fn law_evaluation<F: BinaryField, TA: TwiddleAccess<F>>(
    m: Seq<F>,
    rounds: Seq<TA>,
    b: Seq<F>,
    shape: NTTShape,
    log_w: nat,
    coset: int,
    coset_bits: int,
    x: int,
    y: int,
    z: int,
)
    requires
        whole_slices(m.len(), shape),
        log_w <= shape.log_size(),
        independent(b),
        rounds_of(rounds, b),
        0 <= coset_bits,
        0 <= coset < pow2(coset_bits as nat),
        shape.log_y + coset_bits <= b.len(),
        0 <= x < pow2(shape.log_x as nat),
        0 <= y < pow2(shape.log_y as nat),
        0 <= z < m.len() as int / pow2((shape.log_x + shape.log_y) as nat) as int,
    ensures
        ({
            let off = (b.len() - (shape.log_y + coset_bits)) as nat;
            forward_rounds(
                m,
                shape,
                log_w,
                coset_twiddles(rounds, b.len() as int, shape, coset, coset_bits),
                0,
                shape.log_y as int,
            )[position(shape, x, y, z)] == poly_value(
                column(m, shape, x, z),
                b,
                off,
                shape.log_y as nat,
                domain_point(b, off, coset * pow2(shape.log_y as nat) + y),
                pow2(shape.log_y as nat),
            )
        }),
{
    let n = shape.log_y as nat;
    let off = (b.len() - (n + coset_bits)) as nat;
    let tw = coset_twiddles(rounds, b.len() as int, shape, coset, coset_bits);
    let a = column(m, shape, x, z);
    let s = column_shape(shape);
    let pt = domain_point(b, off, coset * pow2(n) + y);
    law_batch(m, shape, log_w, tw, 0, n as int, x, z);
    assert(column(forward_rounds(m, shape, log_w, tw, 0, n as int), shape, x, z)[y]
        == forward_rounds(m, shape, log_w, tw, 0, n as int)[position(shape, x, y, z)]);
    assert(tw =~= coset_twiddles(rounds, b.len() as int, s, coset, coset_bits));
    lemma_rounds_value(a, rounds, b, s, coset, coset_bits, 0, y);
    lemma2_to64();
    lemma_partial_value(a, b, off, n, 0, 0, pt);
    lemma_strided_value(a, b, off, n, pt, pow2(n));
}

} // verus!
