//! Subspaces of a binary field over the field of two elements, and the polynomials that vanish
//! on them.
use vstd::prelude::*;

use crate::error::MathError;
use crate::field::{
    group_coord, lemma_add_group, lemma_add_mul, lemma_mul_nonzero, lemma_mul_zero,
    lemma_square_add, BinaryField, FieldEmbedding,
};

verus! {

/// Tells whether `x` is a sum of some of the first `n` elements of `basis`.
pub open spec fn in_span<F: BinaryField>(basis: Seq<F>, n: nat, x: F) -> bool
    decreases n,
{
    if n == 0 {
        x == F::f_zero()
    } else {
        in_span(basis, (n - 1) as nat, x) || in_span(
            basis,
            (n - 1) as nat,
            x.f_add(basis[n - 1]),
        )
    }
}

/// Linear independence: no element is a sum of elements before it.
pub open spec fn independent<F: BinaryField>(basis: Seq<F>) -> bool {
    forall|i: int| 0 <= i < basis.len() ==> !in_span(basis, i as nat, #[trigger] basis[i])
}

/// The `i`-th subspace polynomial at `x`: the product of `x + u` over all sums `u` of some of the
/// first `i` elements of `basis`.
pub open spec fn subspace_poly<F: BinaryField>(basis: Seq<F>, i: nat, x: F) -> F
    decreases i,
{
    if i == 0 {
        x
    } else {
        subspace_poly(basis, (i - 1) as nat, x).f_mul(
            subspace_poly(basis, (i - 1) as nat, x.f_add(basis[i - 1])),
        )
    }
}

/// The `i`-th subspace polynomial, normalized so that it is one at `basis[i]`.
pub open spec fn normalized_poly<F: BinaryField>(basis: Seq<F>, i: nat, x: F) -> F {
    subspace_poly(basis, i, x).f_mul(subspace_poly(basis, i, basis[i as int]).f_inv())
}

/// The subspace polynomials are additive.
pub proof fn lemma_subspace_poly_add<F: BinaryField>(basis: Seq<F>, i: nat, x: F, y: F)
    ensures
        subspace_poly(basis, i, x.f_add(y)) == subspace_poly(basis, i, x).f_add(
            subspace_poly(basis, i, y),
        ),
    decreases i, 0nat,
{
    broadcast use group_coord;

    if i > 0 {
        let j = (i - 1) as nat;
        let c = subspace_poly(basis, j, basis[i - 1]);
        lemma_subspace_poly_add(basis, j, x, y);
        lemma_subspace_poly_step(basis, j, x);
        lemma_subspace_poly_step(basis, j, y);
        lemma_subspace_poly_step(basis, j, x.f_add(y));
        let wx = subspace_poly(basis, j, x);
        let wy = subspace_poly(basis, j, y);
        lemma_square_add(wx, wy);
        F::law_mul_add(c, wx, wy);
        F::law_coord_ext(
            wx.f_mul(wx).f_add(wy.f_mul(wy)).f_add(c.f_mul(wx).f_add(c.f_mul(wy))),
            wx.f_mul(wx).f_add(c.f_mul(wx)).f_add(wy.f_mul(wy).f_add(c.f_mul(wy))),
        );
    }
}

/// Each subspace polynomial comes from the one before by `w -> w^2 + c w`, where `c` is the value
/// at the basis element that joins the subspace.
pub proof fn lemma_subspace_poly_step<F: BinaryField>(basis: Seq<F>, i: nat, x: F)
    ensures
        subspace_poly(basis, i + 1, x) == subspace_poly(basis, i, x).f_mul(
            subspace_poly(basis, i, x),
        ).f_add(
            subspace_poly(basis, i, basis[i as int]).f_mul(subspace_poly(basis, i, x)),
        ),
    decreases i, 1nat,
{
    lemma_subspace_poly_add(basis, i, x, basis[i as int]);
    let w = subspace_poly(basis, i, x);
    let c = subspace_poly(basis, i, basis[i as int]);
    F::law_mul_add(w, w, c);
    F::law_mul_comm(w, c);
}

/// A field element is zero under the polynomial exactly if it lies in the span.
pub proof fn lemma_subspace_poly_zero<F: BinaryField>(basis: Seq<F>, i: nat, x: F)
    ensures
        subspace_poly(basis, i, x) == F::f_zero() <==> in_span(basis, i, x),
    decreases i,
{
    if i > 0 {
        let j = (i - 1) as nat;
        let y = x.f_add(basis[i - 1]);
        lemma_subspace_poly_zero(basis, j, x);
        lemma_subspace_poly_zero(basis, j, y);
        lemma_mul_nonzero(subspace_poly(basis, j, x), subspace_poly(basis, j, y));
    }
}

/// The normalized polynomials are additive, one at the basis element with their number, and zero
/// exactly on the span of the basis elements before it.
pub proof fn lemma_normalized_poly<F: BinaryField>(basis: Seq<F>, i: nat, x: F, y: F)
    requires
        i < basis.len(),
        independent(basis),
    ensures
        subspace_poly(basis, i, basis[i as int]) != F::f_zero(),
        normalized_poly(basis, i, x.f_add(y)) == normalized_poly(basis, i, x).f_add(
            normalized_poly(basis, i, y),
        ),
        normalized_poly(basis, i, F::f_zero()) == F::f_zero(),
        normalized_poly(basis, i, basis[i as int]) == F::f_one(),
        normalized_poly(basis, i, x) == F::f_zero() <==> in_span(basis, i, x),
{
    let z = F::f_zero();
    let c = subspace_poly(basis, i, basis[i as int]);
    let n = c.f_inv();
    lemma_subspace_poly_zero(basis, i, basis[i as int]);
    assert(!in_span(basis, i, basis[i as int]));
    F::law_inv(c);
    lemma_subspace_poly_add(basis, i, x, y);
    lemma_add_mul(subspace_poly(basis, i, x), subspace_poly(basis, i, y), n);
    lemma_subspace_poly_add(basis, i, z, z);
    lemma_add_group(z, z, z);
    lemma_add_group(subspace_poly(basis, i, z), z, z);
    lemma_mul_zero(n);
    lemma_mul_zero(c);
    F::law_one_nonzero();
    lemma_mul_nonzero(subspace_poly(basis, i, x), n);
    lemma_subspace_poly_zero(basis, i, x);
}

/// A basis element lies in the span of any longer part of the basis.
pub proof fn lemma_basis_in_span<F: BinaryField>(basis: Seq<F>, j: int, n: nat)
    requires
        0 <= j < n,
    ensures
        in_span(basis, n, basis[j]),
        in_span(basis, n, F::f_zero()),
    decreases n,
{
    lemma_add_group(basis[j], basis[j], basis[j]);
    lemma_zero_in_span(basis, (n - 1) as nat);
    if j < n - 1 {
        lemma_basis_in_span(basis, j, (n - 1) as nat);
    }
}

/// Zero lies in every span.
pub proof fn lemma_zero_in_span<F: BinaryField>(basis: Seq<F>, n: nat)
    ensures
        in_span(basis, n, F::f_zero()),
    decreases n,
{
    if n > 0 {
        lemma_zero_in_span(basis, (n - 1) as nat);
    }
}

/// Sequences whose elements have the same coordinates are equal.
pub proof fn lemma_same_coords<F: BinaryField>(b: Seq<F>, c: Seq<F>)
    requires
        b.len() == c.len(),
        forall|i: int, j: nat|
            0 <= i < b.len() ==> (#[trigger] b[i].f_coord(j) == #[trigger] c[i].f_coord(j)),
    ensures
        b == c,
{
    assert forall|i: int| 0 <= i < b.len() implies b[i] == c[i] by {
        assert forall|j: nat| b[i].f_coord(j) == c[i].f_coord(j) by {}
        F::law_coord_ext(b[i], c[i]);
    }
    assert(b =~= c);
}

/// The first `n` elements of the canonical basis.
pub open spec fn canonical_basis<F: BinaryField>(n: nat) -> Seq<F> {
    Seq::new(n, |i: int| F::f_basis(i as nat))
}

/// The canonical basis is linearly independent.
pub proof fn lemma_canonical_independent<F: BinaryField>(n: nat)
    requires
        n <= F::n_bits(),
    ensures
        independent(canonical_basis::<F>(n)),
{
    let basis = canonical_basis::<F>(n);
    assert forall|i: int| 0 <= i < basis.len() implies !in_span(
        basis,
        i as nat,
        #[trigger] basis[i],
    ) by {
        F::law_coord_basis(i as nat, i as nat);
        if in_span(basis, i as nat, basis[i]) {
            lemma_span_coord(n, i as nat, i as nat, basis[i]);
        }
    }
}

/// A sum of the first `k` canonical basis elements has no coordinate from `k` on.
proof fn lemma_span_coord<F: BinaryField>(n: nat, k: nat, i: nat, x: F)
    requires
        k <= i < n <= F::n_bits(),
        in_span(canonical_basis::<F>(n), k, x),
    ensures
        !x.f_coord(i),
    decreases k,
{
    broadcast use group_coord;

    let basis = canonical_basis::<F>(n);
    if k > 0 {
        let j = (k - 1) as nat;
        F::law_coord_basis(j, i);
        if in_span(basis, j, x) {
            lemma_span_coord(n, j, i, x);
        } else {
            lemma_span_coord(n, j, i, x.f_add(basis[k - 1]));
        }
    }
}

/// The images of the elements of `basis` under an embedding.
pub open spec fn embedded<F: BinaryField, G: FieldEmbedding<F>>(basis: Seq<F>) -> Seq<G> {
    Seq::new(basis.len(), |i: int| G::f_embed(basis[i]))
}

/// An embedding sends only zero to zero.
proof fn lemma_embed_zero<F: BinaryField, G: FieldEmbedding<F>>(x: F)
    ensures
        G::f_embed(x) == G::f_zero() <==> x == F::f_zero(),
{
    let z = F::f_zero();
    lemma_add_group(z, z, z);
    G::law_embed_add(z, z);
    lemma_add_group(G::f_embed(z), G::f_zero(), G::f_zero());
    if x != z {
        F::law_inv(x);
        G::law_embed_mul(x, x.f_inv());
        G::law_embed_one();
        G::law_one_nonzero();
        lemma_mul_zero(G::f_embed(x.f_inv()));
    }
}

/// An embedding neither adds to a span nor takes from it.
proof fn lemma_embed_span<F: BinaryField, G: FieldEmbedding<F>>(basis: Seq<F>, n: nat, x: F)
    requires
        n <= basis.len(),
    ensures
        in_span(embedded::<F, G>(basis), n, G::f_embed(x)) <==> in_span(basis, n, x),
    decreases n,
{
    if n == 0 {
        lemma_embed_zero::<F, G>(x);
    } else {
        lemma_embed_span::<F, G>(basis, (n - 1) as nat, x);
        lemma_embed_span::<F, G>(basis, (n - 1) as nat, x.f_add(basis[n - 1]));
        G::law_embed_add(x, basis[n - 1]);
    }
}

/// An embedding keeps linear independence.
pub proof fn lemma_embed_independent<F: BinaryField, G: FieldEmbedding<F>>(basis: Seq<F>)
    requires
        independent(basis),
    ensures
        independent(embedded::<F, G>(basis)),
{
    let image = embedded::<F, G>(basis);
    assert forall|i: int| 0 <= i < image.len() implies !in_span(
        image,
        i as nat,
        #[trigger] image[i],
    ) by {
        lemma_embed_span::<F, G>(basis, i as nat, basis[i]);
    }
}

/// A subspace, given by a basis.
#[derive(Debug)]
pub struct BinarySubspace<F> {
    basis: Vec<F>,
}

impl<F: BinaryField> View for BinarySubspace<F> {
    type V = Seq<F>;

    closed spec fn view(&self) -> Seq<F> {
        self.basis@
    }
}

impl<F: BinaryField> BinarySubspace<F> {
    /// The basis is one: its elements are linearly independent.
    pub open spec fn wf(&self) -> bool {
        independent(self@)
    }

    /// Returns the subspace with this basis.
    pub(crate) fn from_basis(basis: Vec<F>) -> (r: Self)
        ensures
            r@ == basis@,
    {
        BinarySubspace { basis }
    }

    /// Returns the subspace that the first `dim` elements of the canonical basis span.
    pub fn with_dim(dim: usize) -> (r: Result<Self, MathError>)
        requires
            F::n_bits() <= usize::MAX,
        ensures
            match r {
                Ok(s) => {
                    &&& dim <= F::n_bits()
                    &&& s.wf()
                    &&& s@ == canonical_basis::<F>(dim as nat)
                    &&& s@.len() == dim
                    &&& forall|i: int, j: nat|
                        0 <= i < dim ==> (#[trigger] s@[i].f_coord(j) == (i == j))
                },
                Err(e) => dim > F::n_bits() && e == MathError::DomainSizeTooLarge,
            },
    {
        if dim > F::degree() {
            return Err(MathError::DomainSizeTooLarge);
        }
        let mut basis: Vec<F> = Vec::new();
        let mut i: usize = 0;
        while i < dim
            invariant
                i <= dim <= F::n_bits() <= usize::MAX,
                basis@ == canonical_basis::<F>(i as nat),
            decreases dim - i,
        {
            basis.push(F::basis(i));
            i = i + 1;
            proof {
                assert(basis@ =~= canonical_basis::<F>(i as nat));
            }
        }
        proof {
            lemma_canonical_independent::<F>(dim as nat);
            assert forall|i: int, j: nat| 0 <= i < dim implies (#[trigger] basis@[i].f_coord(j) == (
            i == j)) by {
                F::law_coord_basis(i as nat, j);
            }
        }
        Ok(BinarySubspace { basis })
    }

    /// Returns the dimension.
    pub fn dim(&self) -> (r: usize)
        ensures
            r == self@.len(),
    {
        self.basis.len()
    }

    /// Returns the basis.
    pub fn basis(&self) -> (r: &[F])
        ensures
            r@ == self@,
    {
        self.basis.as_slice()
    }

    /// Returns the image of the subspace in the field `G`.
    pub fn isomorphic<G: FieldEmbedding<F>>(&self) -> (r: BinarySubspace<G>)
        ensures
            r@ == embedded::<F, G>(self@),
            r@.len() == self@.len(),
            forall|i: int, j: nat|
                0 <= i < r@.len() ==> (#[trigger] r@[i].f_coord(j) == self@[i].f_coord(j)),
            self.wf() ==> r.wf(),
    {
        let mut basis: Vec<G> = Vec::new();
        let mut i: usize = 0;
        while i < self.basis.len()
            invariant
                i <= self.basis.len(),
                basis@ == embedded::<F, G>(self.basis@.take(i as int)),
            decreases self.basis.len() - i,
        {
            basis.push(G::embed(self.basis[i]));
            i = i + 1;
            proof {
                assert(basis@ =~= embedded::<F, G>(self.basis@.take(i as int)));
            }
        }
        proof {
            assert(self.basis@.take(i as int) =~= self.basis@);
            if self.wf() {
                lemma_embed_independent::<F, G>(self.basis@);
            }
            assert forall|i: int, j: nat|
                0 <= i < basis@.len() implies (#[trigger] basis@[i].f_coord(j)
                == self.basis@[i].f_coord(j)) by {
                G::law_embed_coord(self.basis@[i], j);
            }
        }
        BinarySubspace { basis }
    }
}

} // verus!
