//! What the domains, the subspace polynomials and the twiddle factors are.
//!
//! The points of the domain that `b` spans are taken in the order in which the binary digits of
//! their numbers select elements of `b`: `u[0]` is zero, and `u[k + 2^j]` is `u[k] + b[j]` for `k`
//! below `2^j`.
use vstd::arithmetic::div_mod::*;
use vstd::arithmetic::power2::*;
use vstd::prelude::*;

use crate::arith::{lemma_digits, lemma_digits_below, lemma_pow2_monotone};
use crate::field::{group_coord, lemma_add_group, BinaryField, FieldEmbedding};
use crate::single_threaded::SingleThreadedNTT;
use crate::subspace::{
    canonical_basis, embedded, in_span, independent, lemma_normalized_poly, normalized_poly,
    subspace_poly,
};
use crate::twiddle::{
    affine_sum, lemma_bits_split, lemma_subset_sum_split, lemma_subset_sum_unit, round_basis,
    round_domain, round_of, subset_sum, twiddle, TwiddleAccess,
};

verus! {

/// The canonical subspace of dimension `n` has unit vectors as its basis, so that of dimension
/// `n + 1` begins with that of dimension `n`.
pub proof fn law_canonical_basis<F: BinaryField>(n: nat, i: nat, j: nat)
    requires
        i < n <= F::n_bits(),
    ensures
        canonical_basis::<F>(n).len() == n,
        canonical_basis::<F>(n)[i as int].f_coord(j) == (i == j),
        canonical_basis::<F>(n)[i as int] == F::f_basis(i),
        canonical_basis::<F>(n + 1)[i as int] == canonical_basis::<F>(n)[i as int],
{
    F::law_coord_basis(i, j);
}

/// The canonical subspace of dimension `n` consists of the elements without coordinates from `n`
/// on.
pub proof fn law_canonical_span<F: BinaryField>(n: nat, x: F)
    requires
        n <= F::n_bits(),
    ensures
        in_span(canonical_basis::<F>(n), n, x) <==> forall|j: nat| j >= n ==> !x.f_coord(j),
{
    lemma_canonical_span(n, n, x);
}

/// The span of the first `k` elements of the canonical basis.
proof fn lemma_canonical_span<F: BinaryField>(n: nat, k: nat, x: F)
    requires
        k <= n <= F::n_bits(),
    ensures
        in_span(canonical_basis::<F>(n), k, x) <==> forall|j: nat| j >= k ==> !x.f_coord(j),
    decreases k,
{
    broadcast use group_coord;

    if k == 0 {
        if forall|j: nat| j >= 0 ==> !x.f_coord(j) {
            assert forall|j: nat| x.f_coord(j) == F::f_zero().f_coord(j) by {
                assert(j >= 0 ==> !x.f_coord(j));
            }
            F::law_coord_ext(x, F::f_zero());
        }
    } else {
        let m = (k - 1) as nat;
        let e = canonical_basis::<F>(n)[m as int];
        let y = x.f_add(e);
        assert forall|j: nat| e.f_coord(j) == (m == j) by {
            F::law_coord_basis(m, j);
        }
        assert forall|j: nat| y.f_coord(j) == (x.f_coord(j) != (m == j)) by {}
        lemma_canonical_span(n, m, x);
        lemma_canonical_span(n, m, y);
        let c = forall|j: nat| j >= k ==> !x.f_coord(j);
        if c && !x.f_coord(m) {
            assert forall|j: nat| j >= m implies !x.f_coord(j) by {}
        }
        if c && x.f_coord(m) {
            assert forall|j: nat| j >= m implies !y.f_coord(j) by {}
        }
        if in_span(canonical_basis::<F>(n), m, y) {
            assert forall|j: nat| j >= k implies !x.f_coord(j) by {
                assert(!y.f_coord(j));
            }
        }
    }
}

/// The image of a basis has the coordinates of the basis.
pub proof fn law_embedded_basis<F: BinaryField, G: FieldEmbedding<F>>(
    basis: Seq<F>,
    i: int,
    j: nat,
)
    requires
        0 <= i < basis.len(),
    ensures
        embedded::<F, G>(basis).len() == basis.len(),
        embedded::<F, G>(basis)[i].f_coord(j) == basis[i].f_coord(j),
{
    G::law_embed_coord(basis[i], j);
}

/// The points are the subset sums.
pub proof fn lemma_points<F: BinaryField>(b: Seq<F>, u: Seq<F>, n: nat, k: int)
    requires
        u.len() == pow2(b.len()),
        u[0] == F::f_zero(),
        forall|j: nat, k: int|
            #![trigger b[j as int], u[k]]
            j < b.len() && 0 <= k < pow2(j) ==> u[k + pow2(j)] == u[k].f_add(b[j as int]),
        n <= b.len(),
        0 <= k < pow2(n),
    ensures
        u[k] == subset_sum(b, n, k),
    decreases n,
{
    if n == 0 {
        lemma2_to64();
    } else {
        let m = (n - 1) as nat;
        let h = pow2(m) as int;
        lemma_pow2_pos(m);
        lemma_pow2_unfold(n);
        if k < h {
            lemma_points(b, u, m, k);
            lemma_digits(0, h, k);
        } else {
            let q = k - h;
            lemma_points(b, u, m, q);
            assert(u[q + pow2(m)] == u[q].f_add(b[m as int]));
            lemma_digits(1, h, q);
            lemma_subset_sum_top(b, m, q);
        }
    }
}

/// A digit past the first `n` does not change a subset sum of `n` elements.
proof fn lemma_subset_sum_top<F: BinaryField>(b: Seq<F>, n: nat, k: int)
    requires
        0 <= k < pow2(n),
    ensures
        subset_sum(b, n, k + pow2(n)) == subset_sum(b, n, k),
{
    lemma_subset_sum_split(b, n, 1, n, k);
    lemma_subset_sum_unit(b, n, n);
    lemma_add_group(subset_sum(b, n, k), F::f_zero(), F::f_zero());
}

/// A span consists of the points of its domain.
pub proof fn law_span<F: BinaryField>(b: Seq<F>, u: Seq<F>, n: nat, x: F)
    requires
        u.len() == pow2(b.len()),
        u[0] == F::f_zero(),
        forall|j: nat, k: int|
            #![trigger b[j as int], u[k]]
            j < b.len() && 0 <= k < pow2(j) ==> u[k + pow2(j)] == u[k].f_add(b[j as int]),
        n <= b.len(),
    ensures
        in_span(b, n, x) <==> exists|k: int| 0 <= k < pow2(n) && #[trigger] u[k] == x,
    decreases n,
{
    if n == 0 {
        lemma2_to64();
        if in_span(b, n, x) {
            assert(u[0] == x);
        }
    } else {
        let m = (n - 1) as nat;
        let h = pow2(m) as int;
        let y = x.f_add(b[m as int]);
        lemma_pow2_pos(m);
        lemma_pow2_unfold(n);
        law_span(b, u, m, x);
        law_span(b, u, m, y);
        lemma_add_group(x, b[m as int], b[m as int]);
        if in_span(b, m, x) {
            let k = choose|k: int| 0 <= k < pow2(m) && #[trigger] u[k] == x;
            assert(0 <= k < pow2(n) && u[k] == x);
        } else if in_span(b, m, y) {
            let k = choose|k: int| 0 <= k < pow2(m) && #[trigger] u[k] == y;
            assert(u[k + pow2(m)] == u[k].f_add(b[m as int]));
            assert(u[k + h] == x);
        } else if exists|k: int| 0 <= k < pow2(n) && #[trigger] u[k] == x {
            let k = choose|k: int| 0 <= k < pow2(n) && #[trigger] u[k] == x;
            if k < h {
                assert(0 <= k < pow2(m) && u[k] == x);
            } else {
                let q = k - h;
                assert(u[q + pow2(m)] == u[q].f_add(b[m as int]));
                lemma_add_group(u[q], b[m as int], b[m as int]);
                assert(0 <= q < pow2(m) && u[q] == y);
            }
        }
    }
}

/// Elements are linearly independent exactly if only the first point of their domain is zero.
pub proof fn law_independent<F: BinaryField>(b: Seq<F>, u: Seq<F>)
    requires
        u.len() == pow2(b.len()),
        u[0] == F::f_zero(),
        forall|j: nat, k: int|
            #![trigger b[j as int], u[k]]
            j < b.len() && 0 <= k < pow2(j) ==> u[k + pow2(j)] == u[k].f_add(b[j as int]),
    ensures
        independent(b) <==> forall|k: int| 0 < k < u.len() ==> #[trigger] u[k] != F::f_zero(),
{
    if independent(b) {
        assert forall|k: int| 0 < k < u.len() implies #[trigger] u[k] != F::f_zero() by {
            lemma_nonzero_point(b, u, b.len(), k);
        }
    }
    if forall|k: int| 0 < k < u.len() ==> #[trigger] u[k] != F::f_zero() {
        assert forall|i: int| 0 <= i < b.len() implies !in_span(b, i as nat, #[trigger] b[i]) by {
            law_span(b, u, i as nat, b[i]);
            if in_span(b, i as nat, b[i]) {
                let k = choose|k: int| 0 <= k < pow2(i as nat) && #[trigger] u[k] == b[i];
                assert(u[k + pow2(i as nat)] == u[k].f_add(b[(i as nat) as int]));
                lemma_add_group(b[i], b[i], b[i]);
                lemma_pow2_pos(i as nat);
                lemma_pow2_unfold((i + 1) as nat);
                lemma_pow2_monotone((i + 1) as nat, b.len());
            }
        }
    }
}

/// A point whose number is not zero is not zero.
proof fn lemma_nonzero_point<F: BinaryField>(b: Seq<F>, u: Seq<F>, n: nat, k: int)
    requires
        u.len() == pow2(b.len()),
        u[0] == F::f_zero(),
        forall|j: nat, k: int|
            #![trigger b[j as int], u[k]]
            j < b.len() && 0 <= k < pow2(j) ==> u[k + pow2(j)] == u[k].f_add(b[j as int]),
        independent(b),
        n <= b.len(),
        0 < k < pow2(n),
    ensures
        u[k] != F::f_zero(),
    decreases n,
{
    if n == 0 {
        lemma2_to64();
    } else {
        let m = (n - 1) as nat;
        let h = pow2(m) as int;
        lemma_pow2_unfold(n);
        if k < h {
            lemma_nonzero_point(b, u, m, k);
        } else {
            let q = k - h;
            assert(u[q + pow2(m)] == u[q].f_add(b[m as int]));
            law_span(b, u, m, b[m as int]);
            assert(!in_span(b, m, b[m as int]));
            lemma_add_group(u[q], b[m as int], b[m as int]);
            lemma_add_group(b[m as int], F::f_zero(), F::f_zero());
            if u[k] == F::f_zero() {
                assert(u[q] == b[m as int]);
            }
        }
    }
}

/// The product of `x + u[s + k]` over the `k` below `n`.
spec fn product<F: BinaryField>(x: F, u: Seq<F>, s: int, n: nat) -> F
    decreases n,
{
    if n == 0 {
        F::f_one()
    } else {
        product(x, u, s, (n - 1) as nat).f_mul(x.f_add(u[s + n - 1]))
    }
}

/// The product as a fold.
proof fn lemma_product_fold<F: BinaryField>(x: F, u: Seq<F>, n: nat)
    ensures
        Seq::new(n, |k: int| x.f_add(u[k])).fold_left(F::f_one(), |a: F, e: F| a.f_mul(e))
            == product(x, u, 0, n),
    decreases n,
{
    let s = Seq::new(n, |k: int| x.f_add(u[k]));
    if n > 0 {
        let m = (n - 1) as nat;
        lemma_product_fold(x, u, m);
        assert(s.drop_last() =~= Seq::new(m, |k: int| x.f_add(u[k])));
    }
}

/// A product splits into two.
proof fn lemma_product_split<F: BinaryField>(x: F, u: Seq<F>, s: int, n: nat, m: nat)
    ensures
        product(x, u, s, n + m) == product(x, u, s, n).f_mul(product(x, u, s + n, m)),
    decreases m,
{
    if m == 0 {
        F::law_mul_one(product(x, u, s, n));
    } else {
        lemma_product_split(x, u, s, n, (m - 1) as nat);
        F::law_mul_assoc(
            product(x, u, s, n),
            product(x, u, s + n, (m - 1) as nat),
            x.f_add(u[s + n + m - 1]),
        );
    }
}

/// The points in the upper half differ from those in the lower half by a basis element.
proof fn lemma_product_shift<F: BinaryField>(b: Seq<F>, u: Seq<F>, x: F, i: nat, n: nat)
    requires
        forall|j: nat, k: int|
            #![trigger b[j as int], u[k]]
            j < b.len() && 0 <= k < pow2(j) ==> u[k + pow2(j)] == u[k].f_add(b[j as int]),
        i < b.len(),
        n <= pow2(i),
    ensures
        product(x, u, pow2(i) as int, n) == product(x.f_add(b[i as int]), u, 0, n),
    decreases n,
{
    broadcast use group_coord;

    if n > 0 {
        let k = n - 1;
        lemma_product_shift(b, u, x, i, (n - 1) as nat);
        assert(u[k + pow2(i)] == u[k].f_add(b[i as int]));
        F::law_coord_ext(
            x.f_add(u[k].f_add(b[i as int])),
            x.f_add(b[i as int]).f_add(u[k]),
        );
    }
}

/// The `i`-th subspace polynomial is the product of the distances to the first `2^i` points.
proof fn lemma_subspace_product<F: BinaryField>(b: Seq<F>, u: Seq<F>, i: nat, x: F)
    requires
        u[0] == F::f_zero(),
        forall|j: nat, k: int|
            #![trigger b[j as int], u[k]]
            j < b.len() && 0 <= k < pow2(j) ==> u[k + pow2(j)] == u[k].f_add(b[j as int]),
        i <= b.len(),
    ensures
        subspace_poly(b, i, x) == product(x, u, 0, pow2(i)),
    decreases i,
{
    if i == 0 {
        lemma2_to64();
        lemma_add_group(x, x, x);
        F::law_mul_comm(F::f_one(), x);
        F::law_mul_one(x);
        assert(product(x, u, 0, 0) == F::f_one());
        assert(product(x, u, 0, 1) == F::f_one().f_mul(x.f_add(u[0])));
    } else {
        let m = (i - 1) as nat;
        lemma_subspace_product(b, u, m, x);
        lemma_subspace_product(b, u, m, x.f_add(b[m as int]));
        lemma_pow2_unfold(i);
        lemma_product_split(x, u, 0, pow2(m), pow2(m));
        lemma_product_shift(b, u, x, m, pow2(m));
    }
}

/// The `i`-th subspace polynomial is the product of the distances to the first `2^i` points.
pub proof fn law_subspace_poly<F: BinaryField>(b: Seq<F>, u: Seq<F>, i: nat, x: F)
    requires
        u[0] == F::f_zero(),
        forall|j: nat, k: int|
            #![trigger b[j as int], u[k]]
            j < b.len() && 0 <= k < pow2(j) ==> u[k + pow2(j)] == u[k].f_add(b[j as int]),
        i <= b.len(),
    ensures
        subspace_poly(b, i, x) == Seq::new(pow2(i), |k: int| x.f_add(u[k])).fold_left(
            F::f_one(),
            |a: F, e: F| a.f_mul(e),
        ),
{
    lemma_subspace_product(b, u, i, x);
    lemma_product_fold(x, u, pow2(i));
}

/// The normalized subspace polynomial is the product of the distances to the first `2^i` points,
/// divided by its value at `b[i]`.
pub proof fn law_normalized_poly<F: BinaryField>(b: Seq<F>, u: Seq<F>, i: nat, x: F)
    requires
        independent(b),
        u[0] == F::f_zero(),
        forall|j: nat, k: int|
            #![trigger b[j as int], u[k]]
            j < b.len() && 0 <= k < pow2(j) ==> u[k + pow2(j)] == u[k].f_add(b[j as int]),
        i < b.len(),
    ensures
        ({
            let at_x = Seq::new(pow2(i), |k: int| x.f_add(u[k])).fold_left(
                F::f_one(),
                |a: F, e: F| a.f_mul(e),
            );
            let y = b[i as int];
            let at_y = Seq::new(pow2(i), |k: int| y.f_add(u[k])).fold_left(
                F::f_one(),
                |a: F, e: F| a.f_mul(e),
            );
            &&& at_y != F::f_zero()
            &&& normalized_poly(b, i, x).f_mul(at_y) == at_x
        }),
{
    let y = b[i as int];
    law_subspace_poly(b, u, i, x);
    law_subspace_poly(b, u, i, y);
    lemma_normalized_poly(b, i, x, x);
    let p = subspace_poly(b, i, x);
    let c = subspace_poly(b, i, y);
    F::law_mul_assoc(p, c.f_inv(), c);
    F::law_mul_comm(c.f_inv(), c);
    F::law_inv(c);
    F::law_mul_one(p);
}

/// A subset sum of the elements of `b` from number `i` on, as a point of the whole domain.
pub proof fn lemma_skipped_sum<F: BinaryField>(b: Seq<F>, i: nat, n: nat, k: int)
    requires
        i + n <= b.len(),
        0 <= k,
    ensures
        subset_sum(b, i + n, k * pow2(i)) == subset_sum(b.skip(i as int), n, k),
    decreases n,
{
    if n == 0 {
        lemma_low_sum(b, i, i, k);
    } else {
        let m = (n - 1) as nat;
        lemma_skipped_sum(b, i, m, k);
        lemma_pow2_pos(i);
        lemma_bits_split(k, i, 0, i + m);
        assert(b.skip(i as int)[m as int] == b[i as int + m]);
        assert(i + n - 1 == i + m);
    }
}

/// A number whose first `i` binary digits are zero selects none of the first `i` elements.
proof fn lemma_low_sum<F: BinaryField>(b: Seq<F>, i: nat, n: nat, k: int)
    requires
        n <= i,
        0 <= k,
    ensures
        subset_sum(b, n, k * pow2(i)) == F::f_zero(),
    decreases n,
{
    if n > 0 {
        lemma_low_sum(b, i, (n - 1) as nat, k);
        lemma_pow2_pos(i);
        lemma_bits_split(k, i, 0, (n - 1) as nat);
    }
}

/// A normalized subspace polynomial at a sum of later basis elements.
proof fn lemma_round_sum<F: BinaryField>(b: Seq<F>, i: nat, n: nat, k: int)
    requires
        independent(b),
        i < b.len(),
        i + 1 + n <= b.len(),
    ensures
        normalized_poly(b, i, subset_sum(b.skip(i as int + 1), n, k)) == subset_sum(
            round_basis(b, i),
            n,
            k,
        ),
    decreases n,
{
    if n == 0 {
        lemma_normalized_poly(b, i, F::f_zero(), F::f_zero());
    } else {
        let c = b.skip(i as int + 1);
        lemma_round_sum(b, i, (n - 1) as nat, k);
        lemma_normalized_poly(b, i, subset_sum(c, (n - 1) as nat, k), c[n - 1]);
        assert(c[n - 1] == b[i as int + n]);
    }
}

/// The twiddle factors over the domain that `b` spans. Factor `k` of round `i` is the value of the
/// product of the distances to the first `2^i` points, at point `k 2^(i + 1)`, divided by the value
/// at `b[i]`. In round 0 it is the quotient of point `2 k` and `b[0]`.
pub proof fn law_twiddle_values<F: BinaryField, TA: TwiddleAccess<F>>(
    ntt: SingleThreadedNTT<F, TA>,
    b: Seq<F>,
    u: Seq<F>,
    i: nat,
    k: int,
)
    requires
        ntt.over(b),
        u.len() == pow2(b.len()),
        u[0] == F::f_zero(),
        forall|j: nat, k: int|
            #![trigger b[j as int], u[k]]
            j < b.len() && 0 <= k < pow2(j) ==> u[k + pow2(j)] == u[k].f_add(b[j as int]),
        i < b.len(),
        0 <= k < pow2((b.len() - 1 - i) as nat),
    ensures
        ntt@.len() == b.len(),
        ({
            let x = u[k * pow2(i + 1)];
            let at_x = Seq::new(pow2(i), |k: int| x.f_add(u[k])).fold_left(
                F::f_one(),
                |a: F, e: F| a.f_mul(e),
            );
            let y = b[i as int];
            let at_y = Seq::new(pow2(i), |k: int| y.f_add(u[k])).fold_left(
                F::f_one(),
                |a: F, e: F| a.f_mul(e),
            );
            &&& 0 <= k * pow2(i + 1) < u.len()
            &&& at_y != F::f_zero()
            &&& twiddle(ntt@[i as int], k).f_mul(at_y) == at_x
        }),
        i == 0 ==> twiddle(ntt@[0], k).f_mul(b[0]) == u[2 * k],
{
    let n = (b.len() - 1 - i) as nat;
    lemma_pow2_pos(i + 1);
    lemma_pow2_adds(n, i + 1);
    lemma_digits_below(k, pow2(i + 1) as int, 0, pow2(n) as int);
    let x = u[k * pow2(i + 1)];
    lemma_points(b, u, b.len(), k * pow2(i + 1));
    lemma_skipped_sum(b, i + 1, n, k);
    lemma_round_sum(b, i, n, k);
    assert(round_of(ntt@[i as int], b, i as int));
    lemma_add_group(subset_sum(round_basis(b, i), n, k), F::f_zero(), F::f_zero());
    assert(twiddle(ntt@[i as int], k) == normalized_poly(b, i, x));
    law_normalized_poly(b, u, i, x);
    if i == 0 {
        lemma2_to64();
        let y = b[0];
        lemma_subspace_product(b, u, 0, x);
        lemma_subspace_product(b, u, 0, y);
        lemma_product_fold(x, u, 1);
        lemma_product_fold(y, u, 1);
    }
}

/// The domain that is left in round `i`: its basis elements are the values of the product of the
/// distances to the first `2^i` points, divided by that at `b[i]`, so the first of them is one.
pub proof fn law_round_domain<F: BinaryField>(b: Seq<F>, u: Seq<F>, i: nat, j: int)
    requires
        independent(b),
        u[0] == F::f_zero(),
        forall|j: nat, k: int|
            #![trigger b[j as int], u[k]]
            j < b.len() && 0 <= k < pow2(j) ==> u[k + pow2(j)] == u[k].f_add(b[j as int]),
        i < b.len(),
        0 <= j < b.len() - i,
    ensures
        round_domain(b, i).len() == b.len() - i,
        round_domain(b, i)[0] == F::f_one(),
        ({
            let x = b[i + j];
            let at_x = Seq::new(pow2(i), |k: int| x.f_add(u[k])).fold_left(
                F::f_one(),
                |a: F, e: F| a.f_mul(e),
            );
            let y = b[i as int];
            let at_y = Seq::new(pow2(i), |k: int| y.f_add(u[k])).fold_left(
                F::f_one(),
                |a: F, e: F| a.f_mul(e),
            );
            &&& at_y != F::f_zero()
            &&& round_domain(b, i)[j].f_mul(at_y) == at_x
        }),
{
    law_normalized_poly(b, u, i, b[i + j]);
    lemma_normalized_poly(b, i, b[i as int], b[i as int]);
    if j > 0 {
        assert(round_domain(b, i)[j] == round_basis(b, i)[j - 1]);
    }
}

/// A sum with a shift: the number zero gives the shift, and digit `j` of the number adds element
/// `j`.
pub proof fn law_affine_sum<F: BinaryField>(shift: F, c: Seq<F>, n: nat, j: nat, k: int)
    requires
        j < n,
        0 <= k < pow2(j),
    ensures
        affine_sum(shift, c, n, 0) == shift,
        affine_sum(shift, c, n, k + pow2(j)) == affine_sum(shift, c, n, k).f_add(c[j as int]),
{
    broadcast use group_coord;

    lemma_subset_sum_split(c, n, 1, j, k);
    lemma_subset_sum_unit(c, n, j);
    lemma_add_group(shift, F::f_zero(), F::f_zero());
    F::law_coord_ext(
        shift.f_add(c[j as int].f_add(subset_sum(c, n, k))),
        affine_sum(shift, c, n, k).f_add(c[j as int]),
    );
}

/// The twiddle factors of a round: the first is the shift, and digit `j` of the index adds element
/// `j` of the basis.
pub proof fn law_twiddle_digits<F: BinaryField, TA: TwiddleAccess<F>>(access: TA, j: nat, k: int)
    requires
        j < access.log_len(),
        0 <= k < pow2(j),
    ensures
        twiddle(access, 0) == access.shift(),
        twiddle(access, k + pow2(j)) == twiddle(access, k).f_add(access.basis()[j as int]),
        twiddle(access, k) == affine_sum(
            access.shift(),
            access.basis(),
            access.log_len(),
            k,
        ),
{
    law_affine_sum(access.shift(), access.basis(), access.log_len(), j, k);
}

} // verus!
