//! Twiddle factors: the values of the normalized subspace polynomials on the domain.
use vstd::arithmetic::div_mod::*;
use vstd::arithmetic::power2::*;
use vstd::prelude::*;

use crate::arith::{
    lemma_digits, lemma_pow2_fits, lemma_pow2_monotone, lemma_split, low_half, pow2_usize,
};
use crate::field::{group_coord, lemma_add_group, BinaryField};
use crate::subspace::{
    in_span, independent, lemma_normalized_poly, lemma_subspace_poly_step, normalized_poly,
    subspace_poly, BinarySubspace,
};

verus! {

/// The sum of those of the first `n` elements of `c` whose numbers are the positions of the ones
/// in the binary digits of `k`.
pub open spec fn subset_sum<F: BinaryField>(c: Seq<F>, n: nat, k: int) -> F
    decreases n,
{
    if n == 0 {
        F::f_zero()
    } else {
        let rest = subset_sum(c, (n - 1) as nat, k);
        if low_half(k, pow2((n - 1) as nat) as int) {
            rest
        } else {
            rest.f_add(c[n - 1])
        }
    }
}

/// A shift plus a subset sum.
pub open spec fn affine_sum<F: BinaryField>(shift: F, c: Seq<F>, n: nat, k: int) -> F {
    shift.f_add(subset_sum(c, n, k))
}

/// The binary digits of `a 2^r + b`, with `b` below `2^r`, are those of `a 2^r` and those of `b`.
pub proof fn lemma_bits_split(a: int, r: nat, b: int, j: nat)
    requires
        0 <= a,
        0 <= b < pow2(r),
    ensures
        j < r ==> low_half(a * pow2(r), pow2(j) as int),
        j < r ==> low_half(a * pow2(r) + b, pow2(j) as int) == low_half(b, pow2(j) as int),
        j >= r ==> low_half(b, pow2(j) as int),
        j >= r ==> low_half(a * pow2(r) + b, pow2(j) as int) == low_half(
            a * pow2(r),
            pow2(j) as int,
        ),
        j >= r ==> low_half(a * pow2(r), pow2(j) as int) == low_half(
            a,
            pow2((j - r) as nat) as int,
        ),
{
    let h = pow2(j) as int;
    let x = pow2(r) as int;
    lemma_pow2_pos(j);
    lemma_pow2_pos(r);
    if j < r {
        let c = pow2((r - j - 1) as nat) as int;
        lemma_pow2_unfold((r - j) as nat);
        lemma_pow2_adds(j, (r - j) as nat);
        lemma_split(b, h);
        let q = b / h;
        let s = b % h;
        assert(a * x == (a * (2 * c)) * h + 0) by (nonlinear_arith)
            requires
                x == h * (2 * c),
        ;
        assert(a * x + b == (a * (2 * c) + q) * h + s) by (nonlinear_arith)
            requires
                x == h * (2 * c),
                b == q * h + s,
        ;
        lemma_digits(a * (2 * c), h, 0);
        lemma_digits(a * (2 * c) + q, h, s);
        assert(a * (2 * c) == 2 * (a * c)) by (nonlinear_arith);
        assert((2 * (a * c)) % 2 == 0);
        assert((2 * (a * c) + q) % 2 == q % 2);
    } else {
        let g = pow2((j - r) as nat) as int;
        lemma_pow2_pos((j - r) as nat);
        lemma_pow2_adds(r, (j - r) as nat);
        lemma_pow2_monotone(r, j);
        lemma_digits(0, h, b);
        lemma_div_denominator(a * x + b, x, g);
        lemma_div_denominator(a * x, x, g);
        lemma_digits(a, x, b);
        lemma_digits(a, x, 0);
    }
}

/// A subset sum splits where the binary digits of its index are split.
pub proof fn lemma_subset_sum_split<F: BinaryField>(c: Seq<F>, n: nat, a: int, r: nat, b: int)
    requires
        0 <= a,
        0 <= b < pow2(r),
    ensures
        subset_sum(c, n, a * pow2(r) + b) == subset_sum(c, n, a * pow2(r)).f_add(
            subset_sum(c, n, b),
        ),
    decreases n,
{
    broadcast use group_coord;

    if n == 0 {
        lemma_add_group(F::f_zero(), F::f_zero(), F::f_zero());
    } else {
        let m = (n - 1) as nat;
        lemma_subset_sum_split(c, m, a, r, b);
        lemma_bits_split(a, r, b, m);
        let s = subset_sum(c, m, a * pow2(r));
        let t = subset_sum(c, m, b);
        let x = c[n - 1];
        F::law_coord_ext(s.f_add(t).f_add(x), s.f_add(t.f_add(x)));
        F::law_coord_ext(s.f_add(t).f_add(x), s.f_add(x).f_add(t));
    }
}

/// The subset sum with the index zero is zero, and that with the index `2^j` is element `j`.
pub proof fn lemma_subset_sum_unit<F: BinaryField>(c: Seq<F>, n: nat, j: nat)
    ensures
        subset_sum(c, n, 0) == F::f_zero(),
        subset_sum(c, n, pow2(j) as int) == (if j < n {
            c[j as int]
        } else {
            F::f_zero()
        }),
    decreases n,
{
    if n > 0 {
        let m = (n - 1) as nat;
        lemma_subset_sum_unit(c, m, j);
        lemma_pow2_pos(m);
        lemma_pow2_pos(j);
        lemma_digits(0, pow2(m) as int, 0);
        lemma2_to64();
        if m < j {
            lemma_bits_split(1, j, 0, m);
        } else if m == j {
            lemma_digits(1, pow2(m) as int, 0);
            lemma_add_group(F::f_zero(), c[n - 1], c[n - 1]);
            lemma_add_group(c[n - 1], F::f_zero(), F::f_zero());
        } else {
            lemma_pow2_strictly_increases(j, m);
            lemma_digits(0, pow2(m) as int, pow2(j) as int);
        }
    }
}

/// The subset sum depends on the first `n` elements only.
pub proof fn lemma_subset_sum_ext<F: BinaryField>(c: Seq<F>, d: Seq<F>, n: nat, k: int)
    requires
        forall|j: int| 0 <= j < n ==> c[j] == d[j],
    ensures
        subset_sum(c, n, k) == subset_sum(d, n, k),
    decreases n,
{
    if n > 0 {
        lemma_subset_sum_ext(c, d, (n - 1) as nat, k);
    }
}

/// Computes a subset sum of the elements of `c`.
fn sum_of_subset<F: BinaryField>(c: &Vec<F>, n: usize, k: usize) -> (r: F)
    requires
        n <= c.len(),
    ensures
        r == subset_sum(c@, n as nat, k as int),
{
    let mut acc = F::zero();
    let mut j: usize = 0;
    let mut rest: usize = k;
    proof {
        lemma2_to64();
        lemma_digits(k as int, 1, 0);
    }
    while j < n
        invariant
            j <= n <= c.len(),
            rest == k as int / pow2(j as nat) as int,
            acc == subset_sum(c@, j as nat, k as int),
        decreases n - j,
    {
        if rest % 2 == 1 {
            acc = acc.add(c[j]);
        }
        proof {
            lemma_pow2_pos(j as nat);
            lemma_pow2_unfold((j + 1) as nat);
            lemma_div_denominator(k as int, pow2(j as nat) as int, 2);
        }
        rest = rest / 2;
        j = j + 1;
    }
    acc
}

/// Access to the twiddle factors of one round.
///
/// The twiddle factors are an affine function of their index: a shift plus a subset sum of a
/// basis.
pub trait TwiddleAccess<F: BinaryField>: Sized {
    /// Validity of the representation.
    spec fn wf(&self) -> bool;

    /// The binary logarithm of the number of twiddle factors.
    spec fn log_len(&self) -> nat;

    /// What is added to every twiddle factor.
    spec fn shift(&self) -> F;

    /// The elements of which the twiddle factors are subset sums.
    spec fn basis(&self) -> Seq<F>;

    /// There is one element of the basis for each binary digit of an index.
    proof fn law_basis(&self)
        requires
            self.wf(),
        ensures
            self.basis().len() == self.log_len(),
    ;

    /// Returns the binary logarithm of the number of twiddle factors.
    fn log_n(&self) -> (r: usize)
        requires
            self.wf(),
        ensures
            r == self.log_len(),
    ;

    /// Returns the twiddle factor with the given index.
    fn get(&self, index: usize) -> (r: F)
        requires
            self.wf(),
            index < pow2(self.log_len()),
        ensures
            r == affine_sum(self.shift(), self.basis(), self.log_len(), index as int),
    ;

    /// Returns the twiddle factors at `index` and at `index + 2^index_bits`.
    fn get_pair(&self, index_bits: usize, index: usize) -> (r: (F, F))
        requires
            self.wf(),
            index_bits < self.log_len(),
            index < pow2(index_bits as nat),
        ensures
            r.0 == affine_sum(self.shift(), self.basis(), self.log_len(), index as int),
            r.1 == affine_sum(
                self.shift(),
                self.basis(),
                self.log_len(),
                index + pow2(index_bits as nat),
            ),
    ;

    /// Returns the subspace that one and the basis span, and the shift.
    fn affine_subspace(&self) -> (r: (BinarySubspace<F>, F))
        requires
            self.wf(),
        ensures
            r.0@ == seq![F::f_one()] + self.basis(),
            r.1 == self.shift(),
    ;
}

/// The twiddle factor with index `k`.
pub open spec fn twiddle<F: BinaryField, TA: TwiddleAccess<F>>(access: TA, k: int) -> F {
    affine_sum(access.shift(), access.basis(), access.log_len(), k)
}

/// The twiddle factors of a round without a shift are linear in the binary digits of the index.
pub proof fn lemma_twiddle_split<F: BinaryField, TA: TwiddleAccess<F>>(
    access: TA,
    a: int,
    r: nat,
    b: int,
)
    requires
        access.shift() == F::f_zero(),
        0 <= a,
        0 <= b < pow2(r),
    ensures
        twiddle(access, a * pow2(r) + b) == twiddle(access, a * pow2(r)).f_add(twiddle(access, b)),
        twiddle(access, 0) == F::f_zero(),
{
    let c = access.basis();
    let n = access.log_len();
    lemma_subset_sum_split(c, n, a, r, b);
    lemma_subset_sum_unit(c, n, 0);
    lemma_add_group(subset_sum(c, n, a * pow2(r)), F::f_zero(), F::f_zero());
    lemma_add_group(subset_sum(c, n, b), F::f_zero(), F::f_zero());
    lemma_add_group(subset_sum(c, n, a * pow2(r) + b), F::f_zero(), F::f_zero());
    lemma_add_group(F::f_zero(), F::f_zero(), F::f_zero());
}

/// Adding `2^j` to an index below it adds element `j` of the basis.
proof fn lemma_affine_pair<F: BinaryField>(shift: F, c: Seq<F>, n: nat, j: nat, k: int)
    requires
        0 <= k < pow2(j),
        j < n,
    ensures
        affine_sum(shift, c, n, k + pow2(j)) == affine_sum(shift, c, n, k).f_add(c[j as int]),
{
    broadcast use group_coord;

    lemma_subset_sum_split(c, n, 1, j, k);
    lemma_subset_sum_unit(c, n, j);
    F::law_coord_ext(
        shift.f_add(c[j as int].f_add(subset_sum(c, n, k))),
        affine_sum(shift, c, n, k).f_add(c[j as int]),
    );
}

/// Twiddle access that computes each factor when it is asked for.
#[derive(Debug)]
pub struct OnTheFlyTwiddleAccess<F> {
    log_n: usize,
    offset: F,
    s_evals: Vec<F>,
}

impl<F: BinaryField> TwiddleAccess<F> for OnTheFlyTwiddleAccess<F> {
    closed spec fn wf(&self) -> bool {
        self.s_evals@.len() == self.log_n
    }

    closed spec fn log_len(&self) -> nat {
        self.log_n as nat
    }

    closed spec fn shift(&self) -> F {
        self.offset
    }

    closed spec fn basis(&self) -> Seq<F> {
        self.s_evals@
    }

    proof fn law_basis(&self) {
    }

    fn log_n(&self) -> (r: usize) {
        self.log_n
    }

    fn get(&self, index: usize) -> (r: F) {
        self.offset.add(sum_of_subset(&self.s_evals, self.log_n, index))
    }

    fn get_pair(&self, index_bits: usize, index: usize) -> (r: (F, F)) {
        let t = self.offset.add(sum_of_subset(&self.s_evals, self.log_n, index));
        proof {
            lemma_affine_pair(
                self.offset,
                self.s_evals@,
                self.log_n as nat,
                index_bits as nat,
                index as int,
            );
        }
        (t, t.add(self.s_evals[index_bits]))
    }

    fn affine_subspace(&self) -> (r: (BinarySubspace<F>, F)) {
        let mut basis: Vec<F> = Vec::new();
        basis.push(F::one());
        let mut j: usize = 0;
        while j < self.log_n
            invariant
                self.wf(),
                j <= self.log_n,
                basis@ == seq![F::f_one()] + self.s_evals@.take(j as int),
            decreases self.log_n - j,
        {
            basis.push(self.s_evals[j]);
            j = j + 1;
            proof {
                assert(basis@ =~= seq![F::f_one()] + self.s_evals@.take(j as int));
            }
        }
        proof {
            assert(self.s_evals@.take(j as int) =~= self.s_evals@);
        }
        (BinarySubspace::from_basis(basis), self.offset)
    }
}

impl<F: BinaryField> OnTheFlyTwiddleAccess<F> {
    /// Returns the twiddle access of each round of the transforms over a domain.
    pub fn generate(subspace: &BinarySubspace<F>) -> (r: Vec<Self>)
        requires
            subspace.wf(),
        ensures
            rounds_of(r@, subspace@),
    {
        let ghost b = subspace@;
        let d = subspace.dim();
        let mut rounds: Vec<Self> = Vec::new();
        // The values of the current subspace polynomial at the basis elements it is not zero at.
        let mut evals: Vec<F> = Vec::new();
        let mut j: usize = 0;
        while j < d
            invariant
                j <= d,
                d == b.len(),
                b == subspace@,
                evals@ == b.take(j as int),
            decreases d - j,
        {
            evals.push(subspace.basis()[j]);
            j = j + 1;
            proof {
                assert(evals@ =~= b.take(j as int));
            }
        }
        proof {
            assert(evals@ =~= poly_evals(b, 0));
        }
        let mut i: usize = 0;
        while i < d
            invariant
                i <= d,
                d == b.len(),
                independent(b),
                evals@ == poly_evals(b, i as nat),
                rounds@.len() == i,
                forall|k: int| 0 <= k < i ==> round_of(#[trigger] rounds@[k], b, k),
            decreases d - i,
        {
            proof {
                lemma_normalized_poly(b, i as nat, b[i as int], b[i as int]);
            }
            let norm = evals[0];
            let inv = match norm.invert() {
                Some(inv) => inv,
                // The normalization constant is never zero.
                None => norm,
            };
            let mut s_evals: Vec<F> = Vec::new();
            let mut next: Vec<F> = Vec::new();
            let mut j: usize = 1;
            while j < d - i
                invariant
                    i < d,
                    1 <= j <= d - i,
                    d == b.len(),
                    evals@ == poly_evals(b, i as nat),
                    norm == subspace_poly(b, i as nat, b[i as int]),
                    inv == norm.f_inv(),
                    s_evals@ == round_basis(b, i as nat).take(j - 1),
                    next@ == poly_evals(b, (i + 1) as nat).take(j - 1),
                decreases d - i - j,
            {
                let w = evals[j];
                proof {
                    lemma_subspace_poly_step(b, i as nat, b[i + j]);
                }
                s_evals.push(w.mul(inv));
                next.push(w.mul(w).add(norm.mul(w)));
                j = j + 1;
                proof {
                    assert(s_evals@ =~= round_basis(b, i as nat).take(j - 1));
                    assert(next@ =~= poly_evals(b, (i + 1) as nat).take(j - 1));
                }
            }
            proof {
                assert(s_evals@ =~= round_basis(b, i as nat));
                assert(next@ =~= poly_evals(b, (i + 1) as nat));
            }
            let round = OnTheFlyTwiddleAccess { log_n: d - 1 - i, offset: F::zero(), s_evals };
            rounds.push(round);
            evals = next;
            i = i + 1;
        }
        rounds
    }
}

/// The values of the `i`-th subspace polynomial at the basis elements from number `i` on.
spec fn poly_evals<F: BinaryField>(b: Seq<F>, i: nat) -> Seq<F> {
    Seq::new((b.len() - i) as nat, |j: int| subspace_poly(b, i, b[i + j]))
}

/// The values of the `i`-th normalized subspace polynomial at the basis elements after number
/// `i`.
pub open spec fn round_basis<F: BinaryField>(b: Seq<F>, i: nat) -> Seq<F> {
    Seq::new((b.len() - 1 - i) as nat, |j: int| normalized_poly(b, i, b[i + 1 + j]))
}

/// The twiddle factors of round `i` over the domain that `b` spans: the values of the `i`-th
/// normalized subspace polynomial on the span of the basis elements after number `i`.
pub open spec fn round_of<F: BinaryField, TA: TwiddleAccess<F>>(
    access: TA,
    b: Seq<F>,
    i: int,
) -> bool {
    &&& access.wf()
    &&& access.log_len() == b.len() - 1 - i
    &&& access.shift() == F::f_zero()
    &&& access.basis() == round_basis(b, i as nat)
}

/// The twiddle factors of all rounds over the domain that `b` spans.
pub open spec fn rounds_of<F: BinaryField, TA: TwiddleAccess<F>>(
    rounds: Seq<TA>,
    b: Seq<F>,
) -> bool {
    &&& rounds.len() == b.len()
    &&& forall|i: int| 0 <= i < b.len() ==> round_of(#[trigger] rounds[i], b, i)
}

/// Rounds with the same twiddle factors.
pub open spec fn same_twiddles<F: BinaryField, TA: TwiddleAccess<F>, TB: TwiddleAccess<F>>(
    a: Seq<TA>,
    b: Seq<TB>,
) -> bool {
    &&& a.len() == b.len()
    &&& forall|i: int|
        #![trigger a[i]]
        #![trigger b[i]]
        0 <= i < a.len() ==> {
            &&& a[i].shift() == b[i].shift()
            &&& a[i].basis() == b[i].basis()
            &&& a[i].log_len() == b[i].log_len()
        }
}

/// Equal bases and shifts give equal twiddle factors.
pub proof fn law_same_twiddles<F: BinaryField, TA: TwiddleAccess<F>, TB: TwiddleAccess<F>>(
    a: Seq<TA>,
    b: Seq<TB>,
    i: int,
    k: int,
)
    requires
        same_twiddles(a, b),
        0 <= i < a.len(),
    ensures
        a.len() == b.len(),
        a[i].log_len() == b[i].log_len(),
        twiddle(a[i], k) == twiddle(b[i], k),
{
}

/// The basis of the domain that is left in round `i`: the values of the `i`-th normalized subspace
/// polynomial at the basis elements from number `i` on.
pub open spec fn round_domain<F: BinaryField>(b: Seq<F>, i: nat) -> Seq<F> {
    seq![F::f_one()] + round_basis(b, i)
}

/// What lies in the span of the images of basis elements is the image only of elements of the span
/// of those basis elements and the ones before.
proof fn lemma_round_domain_span<F: BinaryField>(b: Seq<F>, i: nat, n: nat, x: F)
    requires
        independent(b),
        i + n <= b.len(),
        i < b.len(),
        in_span(round_domain(b, i), n, normalized_poly(b, i, x)),
    ensures
        in_span(b, i + n, x),
    decreases n,
{
    lemma_normalized_poly(b, i, x, x);
    if n > 0 {
        let c = round_domain(b, i);
        let y = b[i + n - 1];
        lemma_normalized_poly(b, i, x, y);
        assert(c[n - 1] == normalized_poly(b, i, y));
        if in_span(c, (n - 1) as nat, normalized_poly(b, i, x)) {
            lemma_round_domain_span(b, i, (n - 1) as nat, x);
        } else {
            lemma_round_domain_span(b, i, (n - 1) as nat, x.f_add(y));
        }
    }
}

/// The images of the basis elements from number `i` on are linearly independent.
pub proof fn lemma_round_domain_independent<F: BinaryField>(b: Seq<F>, i: nat)
    requires
        independent(b),
        i < b.len(),
    ensures
        independent(round_domain(b, i)),
{
    let c = round_domain(b, i);
    assert forall|n: int| 0 <= n < c.len() implies !in_span(c, n as nat, #[trigger] c[n]) by {
        let x = b[i + n];
        lemma_normalized_poly(b, i, x, x);
        assert(c[n] == normalized_poly(b, i, x));
        if in_span(c, n as nat, c[n]) {
            lemma_round_domain_span(b, i, n as nat, x);
        }
    }
}

/// Twiddle access to a table of all factors.
#[derive(Debug)]
pub struct PrecomputedTwiddleAccess<F> {
    log_n: usize,
    s_evals: Vec<F>,
}

impl<F: BinaryField> TwiddleAccess<F> for PrecomputedTwiddleAccess<F> {
    closed spec fn wf(&self) -> bool {
        &&& self.s_evals@.len() == pow2(self.log_n as nat)
        &&& forall|k: int|
            0 <= k < self.s_evals@.len() ==> #[trigger] self.s_evals@[k] == self.shift().f_add(
                subset_sum(self.basis(), self.log_n as nat, k),
            )
    }

    closed spec fn log_len(&self) -> nat {
        self.log_n as nat
    }

    closed spec fn shift(&self) -> F {
        self.s_evals@[0]
    }

    closed spec fn basis(&self) -> Seq<F> {
        Seq::new(
            self.log_n as nat,
            |j: int| self.s_evals@[pow2(j as nat) as int].f_add(self.s_evals@[0]),
        )
    }

    proof fn law_basis(&self) {
    }

    fn log_n(&self) -> (r: usize) {
        self.log_n
    }

    fn get(&self, index: usize) -> (r: F) {
        self.s_evals[index]
    }

    fn get_pair(&self, index_bits: usize, index: usize) -> (r: (F, F)) {
        proof {
            lemma_pow2_unfold((index_bits + 1) as nat);
            lemma_pow2_monotone((index_bits + 1) as nat, self.log_len());
            assert(self.s_evals@.len() == self.s_evals.len());
        }
        (self.s_evals[index], self.s_evals[index + pow2_usize(index_bits)])
    }

    fn affine_subspace(&self) -> (r: (BinarySubspace<F>, F)) {
        let mut basis: Vec<F> = Vec::new();
        basis.push(F::one());
        proof {
            lemma_pow2_pos(self.log_n as nat);
        }
        let mut j: usize = 0;
        while j < self.log_n
            invariant
                self.wf(),
                0 < self.s_evals@.len(),
                j <= self.log_n,
                basis@ == seq![F::f_one()] + self.basis().take(j as int),
            decreases self.log_n - j,
        {
            proof {
                lemma_pow2_strictly_increases(j as nat, self.log_n as nat);
                assert(self.s_evals@.len() == self.s_evals.len());
            }
            basis.push(self.s_evals[pow2_usize(j)].add(self.s_evals[0]));
            j = j + 1;
            proof {
                assert(basis@ =~= seq![F::f_one()] + self.basis().take(j as int));
            }
        }
        proof {
            assert(self.basis().take(j as int) =~= self.basis());
        }
        (BinarySubspace::from_basis(basis), self.s_evals[0])
    }
}

/// Tabulates the twiddle factors of every round.
pub fn expand_subspace_evals<F: BinaryField>(rounds: &[OnTheFlyTwiddleAccess<F>]) -> (r: Vec<
    PrecomputedTwiddleAccess<F>,
>)
    requires
        forall|i: int|
            0 <= i < rounds@.len() ==> (#[trigger] rounds@[i]).wf() && rounds@[i].log_len()
                < usize::BITS,
    ensures
        r@.len() == rounds@.len(),
        forall|i: int|
            0 <= i < r@.len() ==> {
                &&& (#[trigger] r@[i]).wf()
                &&& r@[i].log_len() == rounds@[i].log_len()
                &&& r@[i].shift() == rounds@[i].shift()
                &&& r@[i].basis() == rounds@[i].basis()
            },
{
    let mut tables: Vec<PrecomputedTwiddleAccess<F>> = Vec::new();
    let mut i: usize = 0;
    while i < rounds.len()
        invariant
            i <= rounds@.len(),
            tables@.len() == i,
            forall|k: int|
                0 <= k < rounds@.len() ==> (#[trigger] rounds@[k]).wf() && rounds@[k].log_len()
                    < usize::BITS,
            forall|k: int|
                0 <= k < i ==> {
                    &&& (#[trigger] tables@[k]).wf()
                    &&& tables@[k].log_len() == rounds@[k].log_len()
                    &&& tables@[k].shift() == rounds@[k].shift()
                    &&& tables@[k].basis() == rounds@[k].basis()
                },
        decreases rounds@.len() - i,
    {
        let round = &rounds[i];
        let log_n = round.log_n();
        proof {
            lemma_pow2_fits(log_n as nat);
        }
        let n = pow2_usize(log_n);
        let mut s_evals: Vec<F> = Vec::new();
        let mut k: usize = 0;
        while k < n
            invariant
                k <= n,
                n == pow2(log_n as nat),
                round.wf(),
                log_n == round.log_len(),
                s_evals@.len() == k,
                forall|j: int| 0 <= j < k ==> #[trigger] s_evals@[j] == twiddle(*round, j),
            decreases n - k,
        {
            s_evals.push(round.get(k));
            k = k + 1;
        }
        let table = PrecomputedTwiddleAccess { log_n, s_evals };
        proof {
            let c = round.basis();
            let m = log_n as nat;
            round.law_basis();
            lemma_pow2_pos(m);
            lemma_subset_sum_unit(c, m, 0);
            lemma_add_group(round.shift(), F::f_zero(), F::f_zero());
            assert(table.shift() == round.shift());
            assert forall|j: int| 0 <= j < log_n implies table.basis()[j] == c[j] by {
                broadcast use group_coord;

                lemma_pow2_strictly_increases(j as nat, m);
                lemma_subset_sum_unit(c, m, j as nat);
                F::law_coord_ext(round.shift().f_add(c[j]).f_add(round.shift()), c[j]);
            }
            assert(table.basis() =~= c);
        }
        tables.push(table);
        i = i + 1;
    }
    tables
}

} // verus!
