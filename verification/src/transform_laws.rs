//! What the transforms and their parts compute, in terms of the operations of the field.
use vstd::arithmetic::div_mod::*;
use vstd::arithmetic::power2::*;
use vstd::prelude::*;

use crate::additive_twiddle::lane_twiddles;
use crate::arith::{lemma_digits_below, lemma_div_below, lemma_split};
use crate::butterfly::{
    butterfly_rows, lemma_butterfly_rows, lemma_wrapping_block, rows, wrapping_block, wrapping_step,
};
use crate::domain_laws::{law_normalized_poly, lemma_points, lemma_skipped_sum};
use crate::evaluation::{basis_poly, domain_point, law_evaluation, poly_value};
use crate::field::BinaryField;
use crate::laws::{column, lemma_position_below, position, whole_slices};
use crate::model::{
    coset_twiddles, forward_rounds, inverse_rounds, joined_twiddles, layer_offset, layer_twiddles,
    lemma_rounds_len, round, twiddles_at,
};
use crate::packed::{flat, PackedField};
use crate::padding::{
    coset_part, law_subcosets, lemma_coset_part, lemma_coset_position, lemma_slices, longer,
};
use crate::progress::round_done;
use crate::shape::NTTShape;
use crate::single_threaded::SingleThreadedNTT;
use crate::subspace::normalized_poly;
use crate::twiddle::{twiddle, TwiddleAccess};

verus! {

/// Which twiddle factors the rounds use: round `i` of a transform along an axis of length
/// `2^log_y`, on coset number `coset`, uses factor `coset 2^(log_y - 1 - i) + k` for block `k`. A
/// transform on one of `2^coset_bits` cosets runs over the last `log_y + coset_bits` rounds of the
/// domain, of which the twiddle access may leave out those at the end that are skipped.
pub proof fn law_round_twiddles<F: BinaryField, TA: TwiddleAccess<F>>(
    rounds: Seq<TA>,
    log_domain_size: int,
    shape: NTTShape,
    coset: int,
    coset_bits: int,
    i: int,
    k: int,
)
    requires
        0 <= log_domain_size - shape.log_y - coset_bits,
        0 <= i,
        log_domain_size - shape.log_y - coset_bits + i < rounds.len(),
    ensures
        twiddles_at(rounds, shape, coset)(i, k) == twiddle(
            rounds[i],
            coset * pow2((shape.log_y - 1 - i) as nat) + k,
        ),
        coset_twiddles(rounds, log_domain_size, shape, coset, coset_bits)(i, k) == twiddle(
            rounds[log_domain_size - shape.log_y - coset_bits + i],
            coset * pow2((shape.log_y - 1 - i) as nat) + k,
        ),
{
}

/// The twiddle factors of a single round.
pub proof fn law_layer_twiddles<F: BinaryField, TA: TwiddleAccess<F>>(
    access: TA,
    shape: NTTShape,
    coset: int,
    offset: usize,
    i: int,
    k: usize,
)
    ensures
        layer_offset(shape, coset, i) == coset * pow2((shape.log_y - 1 - i) as nat),
        layer_twiddles(access, offset as int)(i, k as int) == twiddle(access, offset + k),
        joined_twiddles(access, offset)(i, k as int) == twiddle(access, (offset | k) as int),
{
}

/// A round pairs the scalars across the distance `h = 2^(log_x + i)`. In the forward transform the
/// pair `(u, v)` with the twiddle factor `t` becomes `(u + v t, v + u + v t)`; in the inverse it
/// becomes `(u + (v + u) t, v + u)`. The blocks are numbered along axis `y`, and scalars past the
/// end of a batch smaller than a vector belong to block 0.
pub proof fn law_round<F: BinaryField>(
    m: Seq<F>,
    shape: NTTShape,
    log_w: nat,
    tw: spec_fn(int, int) -> F,
    i: int,
    p: int,
)
    requires
        0 <= i < shape.log_y,
        0 <= p < m.len(),
    ensures
        round(false, m, shape, log_w, tw, i).len() == m.len(),
        round(true, m, shape, log_w, tw, i).len() == m.len(),
        ({
            let h = pow2((shape.log_x + i) as nat) as int;
            let size = pow2((shape.log_x + shape.log_y + shape.log_z) as nat) as int;
            let k = if p % (pow2(log_w) as int) < size {
                (p / (2 * h)) % (pow2((shape.log_y - 1 - i) as nat) as int)
            } else {
                0
            };
            let t = tw(i, k);
            if (p / h) % 2 == 0 {
                &&& round(false, m, shape, log_w, tw, i)[p] == m[p].f_add(m[p + h].f_mul(t))
                &&& round(true, m, shape, log_w, tw, i)[p] == m[p].f_add(
                    m[p + h].f_add(m[p]).f_mul(t),
                )
            } else {
                &&& round(false, m, shape, log_w, tw, i)[p] == m[p].f_add(
                    m[p - h].f_add(m[p].f_mul(t)),
                )
                &&& round(true, m, shape, log_w, tw, i)[p] == m[p].f_add(m[p - h])
            }
        }),
{
    lemma_pow2_unfold((shape.log_x + i + 1) as nat);
}

/// The forward transform performs the rounds from the last one to the first, and the inverse
/// transform performs them in the opposite order.
pub proof fn law_rounds<F: BinaryField>(
    m: Seq<F>,
    shape: NTTShape,
    log_w: nat,
    tw: spec_fn(int, int) -> F,
    lo: int,
    hi: int,
)
    ensures
        lo >= hi ==> forward_rounds(m, shape, log_w, tw, lo, hi) == m,
        lo >= hi ==> inverse_rounds(m, shape, log_w, tw, lo, hi) == m,
        lo < hi ==> forward_rounds(m, shape, log_w, tw, lo, hi) == round(
            false,
            forward_rounds(m, shape, log_w, tw, lo + 1, hi),
            shape,
            log_w,
            tw,
            lo,
        ),
        lo < hi ==> inverse_rounds(m, shape, log_w, tw, lo, hi) == round(
            true,
            inverse_rounds(m, shape, log_w, tw, lo, hi - 1),
            shape,
            log_w,
            tw,
            hi - 1,
        ),
{
}

/// What it means that a round is done.
pub proof fn law_round_done<P: PackedField, TA: TwiddleAccess<P::Scalar>>(
    inverse: bool,
    before: Seq<P>,
    after: Seq<P>,
    access: TA,
    shape: NTTShape,
    i: int,
    offset: int,
)
    ensures
        round_done(inverse, before, after, access, shape, i, offset) <==> {
            &&& after.len() == before.len()
            &&& flat(after) == round(
                inverse,
                flat(before),
                shape,
                P::log_w(),
                layer_twiddles(access, offset),
                i,
            )
        },
{
}

/// The butterflies on a block of vectors whose halves do not overlap: the lanes `u` and `v` of two
/// vectors at the distance `stride` become `u + v t` and `v + u + v t`, or the inverse of that. The
/// vectors outside the block stay as they are.
pub proof fn law_block<P: PackedField>(
    before: Seq<P>,
    after: Seq<P>,
    base: int,
    stride: int,
    n: int,
    t: P::Scalar,
    e: int,
    l: int,
)
    requires
        0 <= n <= stride,
        0 <= base,
        base + stride + n <= before.len(),
        after.len() == before.len(),
        rows(after) == butterfly_rows(false, rows(before), base, stride, n, t),
        0 <= e < before.len(),
        0 <= l < pow2(P::log_w()),
    ensures
        base <= e < base + n ==> after[e].lanes()[l] == before[e].lanes()[l].f_add(
            before[e + stride].lanes()[l].f_mul(t),
        ),
        base + stride <= e < base + stride + n ==> after[e].lanes()[l]
            == before[e].lanes()[l].f_add(
            before[e - stride].lanes()[l].f_add(before[e].lanes()[l].f_mul(t)),
        ),
        !(base <= e < base + n) && !(base + stride <= e < base + stride + n) ==> after[e]
            == before[e],
{
    let m = rows(before);
    lemma_butterfly_rows(false, m, base, stride, n, t);
    assert(rows(after)[e] == after[e].lanes());
    assert(m[e] == before[e].lanes());
    before[e].law_lanes();
    if base <= e < base + n {
        assert(m[e + stride] == before[e + stride].lanes());
    } else if base + stride <= e < base + stride + n {
        assert(m[e - stride] == before[e - stride].lanes());
        before[e - stride].law_lanes();
    } else {
        P::law_lanes_ext(after[e], before[e]);
    }
}

/// A block of butterflies is a shorter block followed by one butterfly, so blocks whose halves
/// overlap are processed in order.
pub proof fn law_block_order<F: BinaryField>(
    inverse: bool,
    m: Seq<Seq<F>>,
    base: int,
    stride: int,
    n: int,
    t: F,
    e: int,
    l: int,
)
    requires
        0 < n,
        0 < stride,
        0 <= base,
        base + stride + n <= m.len(),
        0 <= e < m.len(),
    ensures
        butterfly_rows(inverse, m, base, stride, 0, t) == m,
        butterfly_rows(inverse, m, base, stride, n, t).len() == m.len(),
        ({
            let p = butterfly_rows(inverse, m, base, stride, n - 1, t);
            let r = butterfly_rows(inverse, m, base, stride, n, t);
            let i = base + n - 1;
            let j = i + stride;
            &&& e != i && e != j ==> r[e] == p[e]
            &&& r[i].len() == p[i].len()
            &&& r[j].len() == p[i].len()
            &&& 0 <= l < p[i].len() && !inverse ==> {
                &&& r[i][l] == p[i][l].f_add(p[j][l].f_mul(t))
                &&& r[j][l] == p[j][l].f_add(p[i][l].f_add(p[j][l].f_mul(t)))
            }
            &&& 0 <= l < p[i].len() && inverse ==> {
                &&& r[i][l] == p[i][l].f_add(p[j][l].f_add(p[i][l]).f_mul(t))
                &&& r[j][l] == p[j][l].f_add(p[i][l])
            }
        }),
{
    lemma_rows_len(inverse, m, base, stride, n - 1, t);
}

/// A block of butterflies keeps the number of rows.
proof fn lemma_rows_len<F: BinaryField>(
    inverse: bool,
    m: Seq<Seq<F>>,
    base: int,
    stride: int,
    n: int,
    t: F,
)
    requires
        0 <= base,
        0 <= stride,
        base + stride + n <= m.len(),
    ensures
        butterfly_rows(inverse, m, base, stride, n, t).len() == m.len(),
    decreases n,
{
    if n > 0 {
        lemma_rows_len(inverse, m, base, stride, n - 1, t);
    }
}

/// The butterflies on a block of machine words whose halves do not overlap: `u` and `v` become
/// `u + v t` and `v + u + v t` with wrapping arithmetic.
pub proof fn law_word_block(s: Seq<u32>, at: int, stride: int, n: nat, t: u32, e: int)
    requires
        n <= stride,
        0 <= at,
        at + stride + n <= s.len(),
        0 <= e < s.len(),
    ensures
        wrapping_block(s, at, stride, n, t).len() == s.len(),
        at <= e < at + n ==> wrapping_block(s, at, stride, n, t)[e] == s[e].wrapping_add(
            s[e + stride].wrapping_mul(t),
        ),
        at + stride <= e < at + stride + n ==> wrapping_block(s, at, stride, n, t)[e]
            == s[e].wrapping_add(s[e - stride].wrapping_add(s[e].wrapping_mul(t))),
        !(at <= e < at + n) && !(at + stride <= e < at + stride + n) ==> wrapping_block(
            s,
            at,
            stride,
            n,
            t,
        )[e] == s[e],
{
    lemma_wrapping_block(s, at, stride, n, t);
}

/// A block of machine words is processed eight at a time, and the rest one by one. The words that
/// are processed together are all read before any of them is written, the lower half first.
pub proof fn law_word_block_order(s: Seq<u32>, at: int, stride: int, n: nat, t: u32, e: int)
    requires
        0 <= at,
        0 <= stride,
        at + stride + n <= s.len(),
        0 <= e < s.len(),
    ensures
        wrapping_block(s, at, stride, 0, t) == s,
        n > 0 ==> {
            let c: nat = if n >= 8 {
                8
            } else {
                1
            };
            let p = wrapping_step(s, at, stride, c, t);
            &&& wrapping_block(s, at, stride, n, t) == wrapping_block(
                p,
                at + c,
                stride,
                (n - c) as nat,
                t,
            )
            &&& p.len() == s.len()
            &&& at + stride <= e < at + stride + c ==> p[e] == s[e].wrapping_add(
                s[e - stride].wrapping_add(s[e].wrapping_mul(t)),
            )
            &&& at <= e < at + c && !(at + stride <= e < at + stride + c) ==> p[e]
                == s[e].wrapping_add(s[e + stride].wrapping_mul(t))
            &&& !(at <= e < at + c) && !(at + stride <= e < at + stride + c) ==> p[e] == s[e]
        },
{
}

/// The twiddle factors of the lanes of two interleaved vectors. With blocks of `2 h` lanes, where
/// `h = 2^(log_x + i)`, lane `l` lies in block `l / (2 h)` of its vector. Where axis `y` fits in a
/// vector the blocks are numbered anew in each slice. Where it does not, the lanes in the upper
/// half of a block come from the second vector, whose blocks follow on those of the first. Lanes
/// past the end of the batch have the factor zero.
pub proof fn law_lane_twiddles<F: BinaryField, TA: TwiddleAccess<F>>(
    access: TA,
    shape: NTTShape,
    log_w: nat,
    i: int,
    l: int,
)
    requires
        0 <= i < shape.log_y,
        shape.log_x + i < log_w,
        0 <= l < pow2(log_w),
    ensures
        lane_twiddles(access, shape, log_w, i).len() == pow2(log_w),
        l >= pow2((shape.log_x + shape.log_y + shape.log_z) as nat) ==> lane_twiddles(
            access,
            shape,
            log_w,
            i,
        )[l] == F::f_zero(),
        l < pow2((shape.log_x + shape.log_y + shape.log_z) as nat) ==> {
            let h = pow2((shape.log_x + i) as nat) as int;
            let k = if shape.log_x + shape.log_y <= log_w {
                (l / (2 * h)) % (pow2((shape.log_y - 1 - i) as nat) as int)
            } else if (l / h) % 2 == 0 {
                l / (2 * h)
            } else {
                l / (2 * h) + pow2((log_w - shape.log_x - 1 - i) as nat)
            };
            lane_twiddles(access, shape, log_w, i)[l] == twiddle(access, k)
        },
{
}

/// The element of the polynomial basis whose number has one more binary digit one.
proof fn lemma_basis_digit<F: BinaryField>(b: Seq<F>, i: nat, n: nat, j: nat, q: int, x: F)
    requires
        j < n,
        0 <= q < pow2(j),
    ensures
        basis_poly(b, i, n, q + pow2(j), x) == basis_poly(b, i, n, q, x).f_mul(
            normalized_poly(b, i + j, x),
        ),
    decreases n,
{
    let w = normalized_poly(b, i, x);
    if j == 0 {
        lemma2_to64();
        let rest = basis_poly(b, i + 1, (n - 1) as nat, 0, x);
        F::law_mul_comm(w, rest);
    } else {
        lemma_pow2_unfold(j);
        lemma_basis_digit(b, i + 1, (n - 1) as nat, (j - 1) as nat, q / 2, x);
        assert((q + pow2(j)) / 2 == q / 2 + pow2((j - 1) as nat));
        assert((q + pow2(j)) % 2 == q % 2);
        let rest = basis_poly(b, i + 1, (n - 1) as nat, q / 2, x);
        F::law_mul_assoc(w, rest, normalized_poly(b, i + j, x));
        assert((i + 1) + ((j - 1) as nat) == i + j);
    }
}

/// The first element of the polynomial basis is one.
proof fn lemma_basis_one<F: BinaryField>(b: Seq<F>, i: nat, n: nat, x: F)
    ensures
        basis_poly(b, i, n, 0, x) == F::f_one(),
    decreases n,
{
    if n > 0 {
        lemma_basis_one(b, i + 1, (n - 1) as nat, x);
    }
}

/// The polynomial basis at a point, from the values of the normalized subspace polynomials.
proof fn lemma_basis_values<F: BinaryField>(
    b: Seq<F>,
    i: nat,
    n: nat,
    x: F,
    w: Seq<F>,
    basis: Seq<F>,
    k: nat,
    q: int,
)
    requires
        w.len() == n,
        forall|j: int|
            0 <= j < n ==> #[trigger] w[j] == normalized_poly(b, (i + j) as nat, x),
        basis[0] == F::f_one(),
        forall|j: nat, q: int|
            #![trigger w[j as int], basis[q]]
            j < n && 0 <= q < pow2(j) ==> basis[q + pow2(j)] == basis[q].f_mul(w[j as int]),
        k <= n,
        0 <= q < pow2(k),
    ensures
        basis[q] == basis_poly(b, i, n, q, x),
    decreases k,
{
    if k == 0 {
        lemma2_to64();
        lemma_basis_one(b, i, n, x);
    } else {
        let j = (k - 1) as nat;
        lemma_pow2_unfold(k);
        if q < pow2(j) {
            lemma_basis_values(b, i, n, x, w, basis, j, q);
        } else {
            let r = q - pow2(j);
            lemma_basis_values(b, i, n, x, w, basis, j, r);
            assert(basis[r + pow2(j)] == basis[r].f_mul(w[j as int]));
            lemma_basis_digit(b, i, n, j, r, x);
        }
    }
}

/// The value of a polynomial as a fold.
proof fn lemma_value_fold<F: BinaryField>(
    a: Seq<F>,
    b: Seq<F>,
    i: nat,
    n: nat,
    x: F,
    k: nat,
    s: Seq<F>,
)
    requires
        s.len() == k,
        forall|q: int|
            0 <= q < k ==> #[trigger] s[q] == a[q].f_mul(basis_poly(b, i, n, q, x)),
    ensures
        s.fold_left(F::f_zero(), |c: F, e: F| c.f_add(e)) == poly_value(a, b, i, n, x, k),
    decreases k,
{
    if k > 0 {
        let t = s.drop_last();
        assert forall|q: int| 0 <= q < k - 1 implies #[trigger] t[q] == a[q].f_mul(
            basis_poly(b, i, n, q, x),
        ) by {
            assert(t[q] == s[q]);
        }
        lemma_value_fold(a, b, i, n, x, (k - 1) as nat, t);
        assert(s.last() == s[k - 1]);
    }
}

/// Where a divisor is not zero there is only one quotient.
proof fn lemma_quotient<F: BinaryField>(v: F, w: F, d: F)
    requires
        d != F::f_zero(),
        v.f_mul(d) == w.f_mul(d),
    ensures
        v == w,
{
    F::law_inv(d);
    F::law_mul_assoc(v, d, d.f_inv());
    F::law_mul_assoc(w, d, d.f_inv());
    F::law_mul_one(v);
    F::law_mul_one(w);
}

/// What the forward transform is for: it takes the coefficients of polynomials to their values.
///
/// The domain that `b` spans has the points `u`. The transform runs over the points `u[k 2^first]`,
/// where `first` is the number of rounds of the domain that it does not use, and along axis `y`
/// those with the numbers `coset 2^log_y + y`. With `skip_rounds` the axis consists of shorter
/// parts, of length `2^n`, each with the coefficients of one polynomial.
///
/// Let `w[j]` be the product of the distances of the point to the first `2^(first + j)` points,
/// divided by that product for `b[first + j]`, and let `basis[q]` be the product of those `w[j]`
/// for which binary digit `j` of `q` is one. Then the scalar at `(x, y)` of slice `z` becomes the
/// sum of the products of the coefficients of its part with the elements of `basis`.
pub proof fn law_values<F: BinaryField, TA: TwiddleAccess<F>>(
    ntt: SingleThreadedNTT<F, TA>,
    b: Seq<F>,
    u: Seq<F>,
    m: Seq<F>,
    shape: NTTShape,
    log_w: nat,
    coset: int,
    coset_bits: int,
    skip_rounds: int,
    x: int,
    y: int,
    z: int,
    w: Seq<F>,
    basis: Seq<F>,
)
    requires
        ntt.over(b),
        u.len() == pow2(b.len()),
        u[0] == F::f_zero(),
        forall|j: nat, k: int|
            #![trigger b[j as int], u[k]]
            j < b.len() && 0 <= k < pow2(j) ==> u[k + pow2(j)] == u[k].f_add(b[j as int]),
        log_w <= shape.log_x + shape.log_y + shape.log_z,
        0 <= skip_rounds <= shape.log_y,
        0 <= coset_bits,
        0 <= coset < pow2(coset_bits as nat),
        shape.log_y + coset_bits <= b.len(),
        m.len() as int % (pow2((shape.log_x + shape.log_y) as nat) as int) == 0,
        0 <= x < pow2(shape.log_x as nat),
        0 <= y < pow2(shape.log_y as nat),
        0 <= z < m.len() as int / pow2((shape.log_x + shape.log_y) as nat) as int,
        w.len() == shape.log_y - skip_rounds,
        ({
            let first = b.len() - shape.log_y - coset_bits;
            let point = u[(coset * pow2(shape.log_y as nat) + y) * pow2(first as nat)];
            forall|j: int|
                0 <= j < w.len() ==> {
                    let c = b[first + j];
                    let at_point = Seq::new(
                        pow2((first + j) as nat),
                        |k: int| point.f_add(u[k]),
                    ).fold_left(F::f_one(), |a: F, e: F| a.f_mul(e));
                    let at_c = Seq::new(
                        pow2((first + j) as nat),
                        |k: int| c.f_add(u[k]),
                    ).fold_left(F::f_one(), |a: F, e: F| a.f_mul(e));
                    (#[trigger] w[j]).f_mul(at_c) == at_point
                }
        }),
        basis[0] == F::f_one(),
        forall|j: nat, q: int|
            #![trigger w[j as int], basis[q]]
            j < w.len() && 0 <= q < pow2(j) ==> basis[q + pow2(j)] == basis[q].f_mul(w[j as int]),
    ensures
        ({
            let n = (shape.log_y - skip_rounds) as nat;
            let part = y - y % (pow2(n) as int);
            let xs = pow2(shape.log_x as nat);
            let ys = pow2(shape.log_y as nat);
            forward_rounds(
                m,
                shape,
                log_w,
                coset_twiddles(ntt@, ntt@.len() as int, shape, coset, coset_bits),
                0,
                shape.log_y - skip_rounds,
            )[(z * ys + y) * xs + x] == Seq::new(
                pow2(n),
                |q: int| m[(z * ys + (part + q)) * xs + x].f_mul(basis[q]),
            ).fold_left(F::f_zero(), |c: F, e: F| c.f_add(e))
        }),
{
    let ly = shape.log_y as nat;
    let n = (shape.log_y - skip_rounds) as nat;
    let nu = skip_rounds as nat;
    let first = (b.len() - shape.log_y - coset_bits) as nat;
    let small = NTTShape { log_x: shape.log_x, log_y: n as usize, log_z: shape.log_z };
    let ns = pow2(n) as int;
    let ys = pow2(ly) as int;
    let xs = pow2(shape.log_x as nat) as int;
    let c = y / ns;
    let y2 = y % ns;
    let tw = coset_twiddles(ntt@, ntt@.len() as int, shape, coset, coset_bits);
    let number = coset * ys + y;
    let point = u[number * pow2(first)];
    assert(longer(small, nu) == shape);
    lemma_pow2_pos(n);
    lemma_pow2_pos(ly);
    lemma_pow2_adds(n, nu);
    lemma_pow2_adds(coset_bits as nat, ly);
    lemma_split(y, ns);
    lemma_div_below(y, ns, pow2(nu) as int);
    // The part of the data, and the coset of which it is.
    let coset2 = coset * pow2(nu) + c;
    let part = coset_part(m, small, nu, c);
    lemma_coset_part_facts(m, small, nu, c);
    law_subcosets(
        m,
        ntt@,
        ntt@.len() as int,
        small,
        log_w,
        0,
        nu,
        c,
        coset,
        coset_bits,
        0,
        n as int,
    );
    assert(coset2 * ns + y2 == number) by (nonlinear_arith)
        requires
            coset2 == coset * pow2(nu) + c,
            number == coset * ys + y,
            ys == ns * pow2(nu),
            y == c * ns + y2,
    ;
    lemma_digits_below(coset, pow2(nu) as int, c, pow2(coset_bits as nat) as int);
    lemma_pow2_adds(coset_bits as nat, nu);
    // The value of the polynomial of the part.
    law_evaluation(part, ntt@, b, small, 0, coset2, coset_bits + nu, x, y2, z);
    let a = column(part, small, x, z);
    let pt = domain_point(b, first, number);
    // The point.
    lemma_pow2_pos(first);
    lemma_pow2_adds(coset_bits as nat + ly, first);
    lemma_digits_below(coset, ys, y, pow2(coset_bits as nat) as int);
    lemma_digits_below(number, pow2(first) as int, 0, pow2(coset_bits as nat + ly) as int);
    lemma_points(b, u, b.len(), number * pow2(first));
    lemma_skipped_sum(b, first, (b.len() - first) as nat, number);
    assert(pt == point);
    // The polynomial basis at the point.
    assert forall|j: int| 0 <= j < w.len() implies #[trigger] w[j] == normalized_poly(
        b,
        (first + j) as nat,
        point,
    ) by {
        let cj = b[first + j];
        law_normalized_poly(b, u, (first + j) as nat, point);
        let at_c = Seq::new(pow2((first + j) as nat), |k: int| cj.f_add(u[k])).fold_left(
            F::f_one(),
            |a: F, e: F| a.f_mul(e),
        );
        lemma_quotient(w[j], normalized_poly(b, (first + j) as nat, point), at_c);
    }
    let terms = Seq::new(
        pow2(n),
        |q: int| m[(z * pow2(ly) + (y - y2 + q)) * pow2(shape.log_x as nat) + x].f_mul(basis[q]),
    );
    assert forall|q: int| 0 <= q < pow2(n) implies #[trigger] terms[q] == a[q].f_mul(
        basis_poly(b, first, n, q, point),
    ) by {
        lemma_basis_values(b, first, n, point, w, basis, n, q);
        lemma_coset_position(small, nu, c, x, q, z);
        lemma_position_below(small, part.len(), x, q, z);
        assert(part[position(small, x, q, z)] == m[position(shape, x, c * ns + q, z)]);
    }
    lemma_value_fold(a, b, first, n, point, pow2(n), terms);
    // Where the value stands.
    lemma_coset_position(small, nu, c, x, y2, z);
    lemma_position_below(small, part.len(), x, y2, z);
    let r = forward_rounds(m, shape, log_w, tw, 0, n as int);
    lemma_rounds_len(m, shape, log_w, tw, 0, n as int);
    assert(coset_part(r, small, nu, c)[position(small, x, y2, z)] == r[position(shape, x, y, z)]);
}

/// The size of the part of the data on a coset, and its number of slices.
proof fn lemma_coset_part_facts<F>(m: Seq<F>, shape: NTTShape, nu: nat, coset: int)
    requires
        whole_slices(m.len(), longer(shape, nu)),
        shape.log_y + nu <= usize::MAX,
        0 <= coset < pow2(nu),
    ensures
        whole_slices(coset_part(m, shape, nu, coset).len(), shape),
        coset_part(m, shape, nu, coset).len() as int / pow2(
            (shape.log_x + shape.log_y) as nat,
        ) as int == m.len() as int / pow2(
            (shape.log_x + longer(shape, nu).log_y) as nat,
        ) as int,
{
    lemma_coset_part(m, shape, nu, coset);
    lemma_slices(coset_part(m, shape, nu, coset).len(), shape, nu);
}

} // verus!
