//! How far a round has come.
//!
//! Every round goes through its butterflies in the order of the vectors, so that at any time the
//! vectors before some position hold the result and those after it are unchanged.
use vstd::arithmetic::mul::*;
use vstd::arithmetic::power2::*;
use vstd::prelude::*;

use crate::arith::{
    lemma_digits, lemma_digits_below, lemma_div_below, lemma_pow2_fits, lemma_pow2_monotone,
    lemma_split, low_half,
};
use crate::butterfly::{butterfly_rows, lemma_butterfly_rows, rows};
use crate::field::BinaryField;
use crate::model::{block_of, butterfly_at, layer_twiddles, lower, round};
use crate::packed::{flat, lemma_flat, PackedField};
use crate::shape::NTTShape;
use crate::twiddle::TwiddleAccess;

verus! {

/// The scalars after round `i` with the twiddle factors of `access` from the index `offset` on.
pub open spec fn round_target<P: PackedField, TA: TwiddleAccess<P::Scalar>>(
    inverse: bool,
    before: Seq<P>,
    access: TA,
    shape: NTTShape,
    i: int,
    offset: int,
) -> Seq<P::Scalar> {
    round(inverse, flat(before), shape, P::log_w(), layer_twiddles(access, offset), i)
}

/// The data after round `i` with the twiddle factors of `access` from the index `offset` on.
pub open spec fn round_done<P: PackedField, TA: TwiddleAccess<P::Scalar>>(
    inverse: bool,
    before: Seq<P>,
    after: Seq<P>,
    access: TA,
    shape: NTTShape,
    i: int,
    offset: int,
) -> bool {
    &&& after.len() == before.len()
    &&& flat(after) == round_target(inverse, before, access, shape, i, offset)
}

/// Vector `e` holds its part of `target`.
pub open spec fn vector_done<P: PackedField>(v: P, target: Seq<P::Scalar>, e: int) -> bool {
    forall|l: int|
        0 <= l < pow2(P::log_w()) ==> #[trigger] v.lanes()[l] == target[e * pow2(P::log_w()) + l]
}

/// The first `n` vectors hold their parts of `target`, and the others are unchanged.
pub open spec fn prefix_done<P: PackedField>(
    cur: Seq<P>,
    old: Seq<P>,
    target: Seq<P::Scalar>,
    n: int,
) -> bool {
    &&& cur.len() == old.len()
    &&& forall|e: int| 0 <= e < n ==> vector_done(#[trigger] cur[e], target, e)
    &&& forall|e: int| n <= e < cur.len() ==> (#[trigger] cur[e]).lanes() == old[e].lanes()
}

/// When all vectors are done the data is the result.
pub proof fn lemma_all_done<P: PackedField>(cur: Seq<P>, old: Seq<P>, target: Seq<P::Scalar>)
    requires
        prefix_done(cur, old, target, cur.len() as int),
        target.len() == cur.len() * pow2(P::log_w()),
    ensures
        flat(cur) == target,
{
    let w = pow2(P::log_w()) as int;
    lemma_pow2_pos(P::log_w());
    assert forall|p: int| 0 <= p < target.len() implies flat(cur)[p] == target[p] by {
        lemma_split(p, w);
        lemma_div_below(p, w, cur.len() as int);
        let e = p / w;
        assert(vector_done(cur[e], target, e));
        assert(cur[e].lanes()[p % w] == target[e * w + p % w]);
    }
    assert(flat(cur) =~= target);
}

/// Round `i` pairs whole vectors, and the data has exactly the shape.
pub open spec fn pairs_vectors(len: nat, log_w: nat, shape: NTTShape, i: int) -> bool {
    &&& 0 <= i < shape.log_y
    &&& log_w <= shape.log_x + i
    &&& pow2(shape.log_size()) == len * pow2(log_w)
    &&& len * pow2(log_w) <= usize::MAX
}

/// The number of vectors between the vectors that round `i` pairs.
pub open spec fn vector_stride(log_w: nat, shape: NTTShape, i: int) -> int {
    pow2((shape.log_x + i - log_w) as nat) as int
}

/// The twiddle access has the factors that round `i` needs from `coset_offset` on.
pub open spec fn has_blocks<F: BinaryField, TA: TwiddleAccess<F>>(
    access: TA,
    shape: NTTShape,
    i: int,
    coset_offset: int,
) -> bool {
    &&& access.wf()
    &&& 0 <= coset_offset
    &&& coset_offset + pow2((shape.log_y - 1 - i) as nat) <= pow2(access.log_len())
    &&& coset_offset + pow2((shape.log_y - 1 - i) as nat) <= usize::MAX + 1
}

/// The twiddle access has the factors whose indices come from joining the binary digits of `offset`
/// and of the numbers of the blocks of round `i`.
pub open spec fn has_joined_blocks<F: BinaryField, TA: TwiddleAccess<F>>(
    access: TA,
    shape: NTTShape,
    i: int,
    offset: int,
) -> bool {
    &&& access.wf()
    &&& offset < pow2(access.log_len())
    &&& shape.log_y - 1 - i <= access.log_len()
}

/// The first `n` rounds have the twiddle factors that they need on the coset.
pub open spec fn rounds_ready<F: BinaryField, TA: TwiddleAccess<F>>(
    rounds: Seq<TA>,
    shape: NTTShape,
    coset: int,
    n: int,
) -> bool {
    &&& n <= rounds.len()
    &&& forall|i: int|
        0 <= i < n ==> has_blocks(
            #[trigger] rounds[i],
            shape,
            i,
            coset * pow2((shape.log_y - 1 - i) as nat),
        )
}

/// The dimensions of a round that pairs whole vectors.
pub proof fn lemma_vector_dims(len: nat, log_w: nat, shape: NTTShape, i: int)
    requires
        pairs_vectors(len, log_w, shape, i),
    ensures
        shape.log_size() < usize::BITS,
        0 < pow2(log_w) <= usize::MAX,
        0 < vector_stride(log_w, shape, i),
        0 < pow2((shape.log_y - 1 - i) as nat),
        0 < pow2(shape.log_z as nat),
        vector_stride(log_w, shape, i) * pow2(log_w) == pow2((shape.log_x + i) as nat),
        2 * (vector_stride(log_w, shape, i) * pow2(log_w)) == pow2((shape.log_x + i + 1) as nat),
        (pow2(shape.log_z as nat) * pow2((shape.log_y - 1 - i) as nat)) * (2 * vector_stride(
            log_w,
            shape,
            i,
        )) == len,
        pow2(shape.log_z as nat) <= pow2(shape.log_z as nat) * pow2((shape.log_y - 1 - i) as nat)
            <= len,
        vector_stride(log_w, shape, i) <= len,
        pow2((shape.log_y - 1 - i) as nat) <= len,
        len <= usize::MAX,
{
    let s = vector_stride(log_w, shape, i);
    let w = pow2(log_w) as int;
    let nb = pow2((shape.log_y - 1 - i) as nat) as int;
    let nz = pow2(shape.log_z as nat) as int;
    lemma_pow2_fits(shape.log_size());
    lemma_pow2_pos(log_w);
    lemma_pow2_pos((shape.log_x + i - log_w) as nat);
    lemma_pow2_pos((shape.log_y - 1 - i) as nat);
    lemma_pow2_pos(shape.log_z as nat);
    lemma_pow2_adds((shape.log_x + i - log_w) as nat, log_w);
    lemma_pow2_unfold((shape.log_x + i + 1) as nat);
    lemma_pow2_adds((shape.log_x + i + 1) as nat, (shape.log_y - 1 - i) as nat);
    lemma_pow2_adds((shape.log_x + shape.log_y) as nat, shape.log_z as nat);
    assert(len * w == ((2 * (s * w)) * nb) * nz);
    assert(len == (nz * nb) * (2 * s)) by (nonlinear_arith)
        requires
            len * w == ((2 * (s * w)) * nb) * nz,
            w > 0,
    ;
    assert(nz <= nz * nb && nz * nb <= (nz * nb) * (2 * s)) by (nonlinear_arith)
        requires
            nz > 0,
            nb > 0,
            s > 0,
    ;
    assert(s <= (nz * nb) * (2 * s)) by (nonlinear_arith)
        requires
            nz > 0,
            nb > 0,
            s > 0,
    ;
    assert(nb <= nz * nb) by (nonlinear_arith)
        requires
            nz > 0,
            nb > 0,
    ;
    assert(len <= len * w && w <= len * w) by (nonlinear_arith)
        requires
            w > 0,
            len >= 1,
    ;
}

/// Block `k` of slice `j` lies within the data.
pub proof fn lemma_block_base(len: nat, log_w: nat, shape: NTTShape, i: int, j: int, k: int)
    requires
        pairs_vectors(len, log_w, shape, i),
        0 <= j < pow2(shape.log_z as nat),
        0 <= k < pow2((shape.log_y - 1 - i) as nat),
    ensures
        0 <= j * pow2((shape.log_y - 1 - i) as nat) + k < pow2(shape.log_z as nat) * pow2(
            (shape.log_y - 1 - i) as nat,
        ),
        (j * pow2((shape.log_y - 1 - i) as nat) + k) % (pow2((shape.log_y - 1 - i) as nat) as int)
            == k,
        0 <= j * pow2((shape.log_y - 1 - i) as nat),
        j * pow2((shape.log_y - 1 - i) as nat) + k <= len,
        0 <= (j * pow2((shape.log_y - 1 - i) as nat) + k) * (2 * vector_stride(log_w, shape, i)),
        (j * pow2((shape.log_y - 1 - i) as nat) + k) * (2 * vector_stride(log_w, shape, i)) + 2
            * vector_stride(log_w, shape, i) <= len <= usize::MAX,
{
    let nb = pow2((shape.log_y - 1 - i) as nat) as int;
    let nz = pow2(shape.log_z as nat) as int;
    let s = vector_stride(log_w, shape, i);
    lemma_vector_dims(len, log_w, shape, i);
    lemma_digits_below(j, nb, k, nz);
    lemma_digits(j, nb, k);
    lemma_digits_below(j * nb + k, 2 * s, 0, nz * nb);
    assert((j * nb + k + 1) * (2 * s) == (j * nb + k) * (2 * s) + 2 * s) by (nonlinear_arith);
}

/// Where a lane of a vector of block `b` lies: in the lower half if `up` is zero and in the upper
/// half if it is one.
proof fn lemma_vector_position(s: int, w: int, b: int, up: int, l: int, x: int)
    requires
        0 < s,
        0 < w,
        0 <= b,
        0 <= up < 2,
        0 <= l < s,
        0 <= x < w,
    ensures
        ((b * (2 * s) + up * s + l) * w + x) / (s * w) == 2 * b + up,
        ((b * (2 * s) + up * s + l) * w + x) / (2 * (s * w)) == b,
        ((b * (2 * s) + up * s + l) * w + x) % w == x,
        low_half((b * (2 * s) + up * s + l) * w + x, s * w) == (up == 0),
        (b * (2 * s) + s + l) * w + x == (b * (2 * s) + l) * w + x + s * w,
{
    let p = (b * (2 * s) + up * s + l) * w + x;
    let r = l * w + x;
    lemma_digits_below(l, w, x, s);
    assert(p == (2 * b + up) * (s * w) + r) by (nonlinear_arith)
        requires
            p == (b * (2 * s) + up * s + l) * w + x,
            r == l * w + x,
    ;
    lemma_digits(2 * b + up, s * w, r);
    assert(p == b * (2 * (s * w)) + (up * (s * w) + r)) by (nonlinear_arith)
        requires
            p == (2 * b + up) * (s * w) + r,
    ;
    assert(0 <= up * (s * w) + r < 2 * (s * w)) by (nonlinear_arith)
        requires
            0 <= r < s * w,
            0 <= up < 2,
    ;
    lemma_digits(b, 2 * (s * w), up * (s * w) + r);
    lemma_digits(b * (2 * s) + up * s + l, w, x);
    assert((b * (2 * s) + s + l) * w + x == (b * (2 * s) + l) * w + x + s * w) by (nonlinear_arith);
}

/// The butterflies of block `b` bring a round that pairs whole vectors past the block.
pub proof fn lemma_block_done<F: BinaryField, P: PackedField<Scalar = F>>(
    inverse: bool,
    old: Seq<P>,
    mid: Seq<P>,
    cur: Seq<P>,
    shape: NTTShape,
    tw: spec_fn(int, int) -> F,
    i: int,
    b: int,
)
    requires
        pairs_vectors(old.len(), P::log_w(), shape, i),
        0 <= b < pow2(shape.log_z as nat) * pow2((shape.log_y - 1 - i) as nat),
        prefix_done(
            mid,
            old,
            round(inverse, flat(old), shape, P::log_w(), tw, i),
            b * (2 * vector_stride(P::log_w(), shape, i)),
        ),
        cur.len() == mid.len(),
        rows(cur) == butterfly_rows(
            inverse,
            rows(mid),
            b * (2 * vector_stride(P::log_w(), shape, i)),
            vector_stride(P::log_w(), shape, i),
            vector_stride(P::log_w(), shape, i),
            tw(i, b % (pow2((shape.log_y - 1 - i) as nat) as int)),
        ),
    ensures
        prefix_done(
            cur,
            old,
            round(inverse, flat(old), shape, P::log_w(), tw, i),
            (b + 1) * (2 * vector_stride(P::log_w(), shape, i)),
        ),
{
    let log_w = P::log_w();
    let w = pow2(log_w) as int;
    let s = vector_stride(log_w, shape, i);
    let h = s * w;
    let nb = pow2((shape.log_y - 1 - i) as nat) as int;
    let nz = pow2(shape.log_z as nat) as int;
    let n = old.len() as int;
    let m = flat(old);
    let target = round(inverse, m, shape, log_w, tw, i);
    let base = b * (2 * s);
    let t = tw(i, b % nb);
    lemma_vector_dims(old.len(), log_w, shape, i);
    lemma_digits_below(b, 2 * s, 0, nz * nb);
    assert((b + 1) * (2 * s) == base + 2 * s) by (nonlinear_arith)
        requires
            base == b * (2 * s),
    ;
    lemma_butterfly_rows(inverse, rows(mid), base, s, s, t);
    assert forall|e: int| 0 <= e < base + 2 * s implies vector_done(
        #[trigger] cur[e],
        target,
        e,
    ) by {
        assert(rows(cur)[e] == cur[e].lanes());
        if e < base {
            assert(rows(mid)[e] == mid[e].lanes());
            assert(vector_done(mid[e], target, e));
            assert forall|x: int| 0 <= x < w implies #[trigger] cur[e].lanes()[x] == target[e * w
                + x] by {
                assert(mid[e].lanes()[x] == target[e * w + x]);
            }
        } else {
            let up: int = if e < base + s {
                0
            } else {
                1
            };
            let l = e - base - up * s;
            let e0 = base + l;
            assert(rows(mid)[e0] == mid[e0].lanes());
            assert(rows(mid)[e0 + s] == mid[e0 + s].lanes());
            old[e0].law_lanes();
            assert forall|x: int| 0 <= x < w implies #[trigger] cur[e].lanes()[x] == target[e * w
                + x] by {
                lemma_vector_position(s, w, b, up, l, x);
                lemma_vector_position(s, w, b, 0, l, x);
                lemma_flat(old, e0, x);
                lemma_flat(old, e0 + s, x);
                lemma_flat(old, e, x);
                let p = e * w + x;
                lemma_pow2_monotone(0, shape.log_size());
                assert(w <= pow2(shape.log_size())) by (nonlinear_arith)
                    requires
                        pow2(shape.log_size()) == n * w,
                        n >= 1,
                        w > 0,
                ;
                assert(block_of(shape, log_w, i, p) == b % nb);
                assert(lower(p, h) == e0 * w + x);
                assert(target[p] == butterfly_at(inverse, m, h, t, p));
            }
        }
    }
    assert forall|e: int| base + 2 * s <= e < cur.len() implies (#[trigger] cur[e]).lanes()
        == old[e].lanes() by {
        assert(rows(cur)[e] == cur[e].lanes());
        assert(rows(mid)[e] == mid[e].lanes());
        assert(mid[e].lanes() == old[e].lanes());
    }
}

} // verus!
