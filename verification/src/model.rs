//! What the transforms compute, as functions on sequences of scalars.
use vstd::arithmetic::power2::*;
use vstd::prelude::*;

use crate::arith::low_half;
use crate::field::BinaryField;
use crate::packed::lemma_lane_bit;
use crate::shape::NTTShape;
use crate::twiddle::{twiddle, TwiddleAccess};

verus! {

/// The butterfly on the pair `(u, v)` with the twiddle factor `t`: to `u + t v` and
/// `v + u + t v`, or its inverse.
pub open spec fn butterfly<F: BinaryField>(inverse: bool, u: F, v: F, t: F) -> (F, F) {
    if inverse {
        let b = v.f_add(u);
        (u.f_add(b.f_mul(t)), b)
    } else {
        let a = u.f_add(v.f_mul(t));
        (a, v.f_add(a))
    }
}

/// The lower of the two positions that the butterfly across the distance `h` pairs with `p`.
pub open spec fn lower(p: int, h: int) -> int {
    if low_half(p, h) {
        p
    } else {
        p - h
    }
}

/// What the butterfly across the distance `h` puts at position `p`.
pub open spec fn butterfly_at<F: BinaryField>(
    inverse: bool,
    m: Seq<F>,
    h: int,
    t: F,
    p: int,
) -> F {
    let q = lower(p, h);
    let r = butterfly(inverse, m[q], m[q + h], t);
    if low_half(p, h) {
        r.0
    } else {
        r.1
    }
}

/// The number of the block of butterflies with a common twiddle factor to which position `p`
/// belongs in round `i`.
///
/// Where the whole batch is smaller than a vector of `2^log_w` scalars, the positions past its end
/// take part in the butterflies too, with the first twiddle factor.
pub open spec fn block_of(shape: NTTShape, log_w: nat, i: int, p: int) -> int {
    if p % (pow2(log_w) as int) < pow2(shape.log_size()) {
        (p / (pow2((shape.log_x + i + 1) as nat) as int)) % (pow2(
            (shape.log_y - 1 - i) as nat,
        ) as int)
    } else {
        0
    }
}

/// Round `i` of a transform: butterflies along axis `y` across the distance `2^i`. The twiddle
/// factor of block `k` is `tw(i, k)`.
pub open spec fn round<F: BinaryField>(
    inverse: bool,
    m: Seq<F>,
    shape: NTTShape,
    log_w: nat,
    tw: spec_fn(int, int) -> F,
    i: int,
) -> Seq<F> {
    Seq::new(
        m.len(),
        |p: int|
            butterfly_at(
                inverse,
                m,
                pow2((shape.log_x + i) as nat) as int,
                tw(i, block_of(shape, log_w, i, p)),
                p,
            ),
    )
}

/// The rounds from `hi - 1` down to `lo` of the forward transform.
pub open spec fn forward_rounds<F: BinaryField>(
    m: Seq<F>,
    shape: NTTShape,
    log_w: nat,
    tw: spec_fn(int, int) -> F,
    lo: int,
    hi: int,
) -> Seq<F>
    decreases hi - lo,
{
    if lo >= hi {
        m
    } else {
        round(false, forward_rounds(m, shape, log_w, tw, lo + 1, hi), shape, log_w, tw, lo)
    }
}

/// The rounds from `lo` up to `hi - 1` of the inverse transform.
pub open spec fn inverse_rounds<F: BinaryField>(
    m: Seq<F>,
    shape: NTTShape,
    log_w: nat,
    tw: spec_fn(int, int) -> F,
    lo: int,
    hi: int,
) -> Seq<F>
    decreases hi - lo,
{
    if lo >= hi {
        m
    } else {
        round(true, inverse_rounds(m, shape, log_w, tw, lo, hi - 1), shape, log_w, tw, hi - 1)
    }
}

/// The twiddle factors of a transform on coset number `coset`, where `rounds` holds the twiddle
/// access of its rounds: `rounds[i]` at the index `coset 2^(log_y - 1 - i) + k`.
pub open spec fn twiddles_at<F: BinaryField, TA: TwiddleAccess<F>>(
    rounds: Seq<TA>,
    shape: NTTShape,
    coset: int,
) -> spec_fn(int, int) -> F {
    |i: int, k: int| twiddle(rounds[i], coset * pow2((shape.log_y - 1 - i) as nat) + k)
}

/// The twiddle factors of a transform on a coset of a subdomain. The transform uses the last
/// `log_y + coset_bits` rounds of the domain, so that transforms of different sizes with the same
/// number of cosets share the twiddle factors of the last rounds.
pub open spec fn coset_twiddles<F: BinaryField, TA: TwiddleAccess<F>>(
    rounds: Seq<TA>,
    log_domain_size: int,
    shape: NTTShape,
    coset: int,
    coset_bits: int,
) -> spec_fn(int, int) -> F {
    twiddles_at(
        rounds.subrange(log_domain_size - (shape.log_y + coset_bits), rounds.len() as int),
        shape,
        coset,
    )
}

/// The index of the first twiddle factor of round `i` on a coset.
pub open spec fn layer_offset(shape: NTTShape, coset: int, i: int) -> int {
    coset * pow2((shape.log_y - 1 - i) as nat)
}

/// The twiddle factors of a single round: those of `access` from the index `offset` on.
pub open spec fn layer_twiddles<F: BinaryField, TA: TwiddleAccess<F>>(
    access: TA,
    offset: int,
) -> spec_fn(int, int) -> F {
    |i: int, k: int| twiddle(access, offset + k)
}

/// The twiddle factors of a single round whose blocks have the indices that come from joining the
/// binary digits of `offset` and of the number of the block.
pub open spec fn joined_twiddles<F: BinaryField, TA: TwiddleAccess<F>>(
    access: TA,
    offset: usize,
) -> spec_fn(int, int) -> F {
    |i: int, k: int| twiddle(access, (offset | (k as usize)) as int)
}

/// A round depends on the twiddle factors of its blocks only.
pub proof fn lemma_round_ext<F: BinaryField>(
    inverse: bool,
    m: Seq<F>,
    shape: NTTShape,
    log_w: nat,
    tw: spec_fn(int, int) -> F,
    tw2: spec_fn(int, int) -> F,
    i: int,
)
    requires
        0 <= i < shape.log_y,
        forall|k: int|
            0 <= k < pow2((shape.log_y - 1 - i) as nat) ==> #[trigger] tw(i, k) == tw2(i, k),
    ensures
        round(inverse, m, shape, log_w, tw, i) == round(inverse, m, shape, log_w, tw2, i),
{
    let n = pow2((shape.log_y - 1 - i) as nat) as int;
    lemma_pow2_pos((shape.log_y - 1 - i) as nat);
    lemma_pow2_pos((shape.log_x + i + 1) as nat);
    assert forall|p: int| 0 <= p < m.len() implies round(
        inverse,
        m,
        shape,
        log_w,
        tw,
        i,
    )[p] == round(inverse, m, shape, log_w, tw2, i)[p] by {
        let k = block_of(shape, log_w, i, p);
        vstd::arithmetic::div_mod::lemma_mod_bound(
            p / (pow2((shape.log_x + i + 1) as nat) as int),
            n,
        );
        assert(0 <= k < n);
        assert(tw(i, k) == tw2(i, k));
    }
    assert(round(inverse, m, shape, log_w, tw, i) =~= round(inverse, m, shape, log_w, tw2, i));
}

/// The rounds of the forward transform can be performed in two parts.
pub proof fn lemma_forward_rounds_compose<F: BinaryField>(
    m: Seq<F>,
    shape: NTTShape,
    log_w: nat,
    tw: spec_fn(int, int) -> F,
    lo: int,
    mid: int,
    hi: int,
)
    requires
        lo <= mid <= hi,
    ensures
        forward_rounds(forward_rounds(m, shape, log_w, tw, mid, hi), shape, log_w, tw, lo, mid)
            == forward_rounds(m, shape, log_w, tw, lo, hi),
    decreases mid - lo,
{
    if lo < mid {
        lemma_forward_rounds_compose(m, shape, log_w, tw, lo + 1, mid, hi);
    }
}

/// The rounds of the inverse transform can be performed in two parts.
pub proof fn lemma_inverse_rounds_compose<F: BinaryField>(
    m: Seq<F>,
    shape: NTTShape,
    log_w: nat,
    tw: spec_fn(int, int) -> F,
    lo: int,
    mid: int,
    hi: int,
)
    requires
        lo <= mid <= hi,
    ensures
        inverse_rounds(inverse_rounds(m, shape, log_w, tw, lo, mid), shape, log_w, tw, mid, hi)
            == inverse_rounds(m, shape, log_w, tw, lo, hi),
    decreases hi - mid,
{
    if mid < hi {
        lemma_inverse_rounds_compose(m, shape, log_w, tw, lo, mid, hi - 1);
    }
}

/// The rounds keep the length.
pub proof fn lemma_rounds_len<F: BinaryField>(
    m: Seq<F>,
    shape: NTTShape,
    log_w: nat,
    tw: spec_fn(int, int) -> F,
    lo: int,
    hi: int,
)
    ensures
        forward_rounds(m, shape, log_w, tw, lo, hi).len() == m.len(),
        inverse_rounds(m, shape, log_w, tw, lo, hi).len() == m.len(),
    decreases hi - lo,
{
    if lo < hi {
        lemma_rounds_len(m, shape, log_w, tw, lo + 1, hi);
        lemma_rounds_len(m, shape, log_w, tw, lo, hi - 1);
    }
}

/// A round of a batch that fits in one vector does not mix vectors.
proof fn lemma_round_prefix<F: BinaryField>(
    inverse: bool,
    m: Seq<F>,
    shape: NTTShape,
    log_w: nat,
    tw: spec_fn(int, int) -> F,
    i: int,
)
    requires
        0 <= i < shape.log_y,
        shape.log_size() <= log_w,
        m.len() >= pow2(log_w),
    ensures
        round(inverse, m, shape, log_w, tw, i).take(pow2(log_w) as int) == round(
            inverse,
            m.take(pow2(log_w) as int),
            shape,
            log_w,
            tw,
            i,
        ),
{
    let w = pow2(log_w) as int;
    let a = round(inverse, m, shape, log_w, tw, i).take(w);
    let b = round(inverse, m.take(w), shape, log_w, tw, i);
    assert forall|p: int| 0 <= p < w implies a[p] == b[p] by {
        lemma_lane_bit((shape.log_x + i) as nat, log_w, p);
    }
    assert(a =~= b);
}

/// The rounds of a batch that fits in one vector do not mix vectors.
pub proof fn lemma_rounds_prefix<F: BinaryField>(
    m: Seq<F>,
    shape: NTTShape,
    log_w: nat,
    tw: spec_fn(int, int) -> F,
    lo: int,
    hi: int,
)
    requires
        0 <= lo,
        hi <= shape.log_y,
        shape.log_size() <= log_w,
        m.len() >= pow2(log_w),
    ensures
        forward_rounds(m, shape, log_w, tw, lo, hi).take(pow2(log_w) as int) == forward_rounds(
            m.take(pow2(log_w) as int),
            shape,
            log_w,
            tw,
            lo,
            hi,
        ),
        inverse_rounds(m, shape, log_w, tw, lo, hi).take(pow2(log_w) as int) == inverse_rounds(
            m.take(pow2(log_w) as int),
            shape,
            log_w,
            tw,
            lo,
            hi,
        ),
    decreases hi - lo,
{
    if lo < hi {
        lemma_rounds_prefix(m, shape, log_w, tw, lo + 1, hi);
        lemma_rounds_prefix(m, shape, log_w, tw, lo, hi - 1);
        lemma_rounds_len(m, shape, log_w, tw, lo + 1, hi);
        lemma_rounds_len(m, shape, log_w, tw, lo, hi - 1);
        lemma_round_prefix(
            false,
            forward_rounds(m, shape, log_w, tw, lo + 1, hi),
            shape,
            log_w,
            tw,
            lo,
        );
        lemma_round_prefix(
            true,
            inverse_rounds(m, shape, log_w, tw, lo, hi - 1),
            shape,
            log_w,
            tw,
            hi - 1,
        );
    }
}

} // verus!
