//! Rounds whose butterflies lie within vectors.
use vstd::arithmetic::power2::*;
use vstd::prelude::*;

use crate::additive_twiddle::{calculate_packed_additive_twiddle, lane_twiddles};
use crate::arith::{lemma_pow2_fits, lemma_pow2_monotone, lemma_pow2_order, pow2_usize};
use crate::field::BinaryField;
use crate::interleave::{
    butterflied_first, butterflied_second, interleaved_butterfly, lemma_lane_dims,
    lemma_pair_base, lemma_pair_done, lemma_pair_factors, log_pairs, log_slices, pairs_lanes,
};
use crate::model::{layer_offset, layer_twiddles};
use crate::packed::{flat, PackedField};
use crate::progress::{has_blocks, lemma_all_done, prefix_done, round_done, round_target};
use crate::shape::NTTShape;
use crate::twiddle::{twiddle, TwiddleAccess};

verus! {

/// The number of slices that are processed between two fetches of the twiddle factors.
pub const OUTER_BLOCK_SIZE: usize = 64;

/// Performs the butterflies within the two vectors of pair `r`.
fn pair_butterfly<F: BinaryField, P: PackedField<Scalar = F>>(
    inverse: bool,
    data: &mut [P],
    r: usize,
    t: P,
    log_block_len: usize,
)
    requires
        2 * r + 2 <= old(data)@.len(),
        log_block_len < P::log_w(),
        pow2(P::log_w()) <= usize::MAX,
    ensures
        final(data)@.len() == old(data)@.len(),
        forall|e: int|
            0 <= e < final(data)@.len() && e != 2 * r && e != 2 * r + 1
                ==> #[trigger] final(data)@[e] == old(data)@[e],
        final(data)@[2 * r as int].lanes() == butterflied_first(
            inverse,
            old(data)@[2 * r as int].lanes(),
            t.lanes(),
            pow2(log_block_len as nat) as int,
        ),
        final(data)@[2 * r + 1].lanes() == butterflied_second(
            inverse,
            old(data)@[2 * r + 1].lanes(),
            t.lanes(),
            pow2(log_block_len as nat) as int,
        ),
{
    proof {
        assert(data@.len() == data.len());
    }
    let index = 2 * r;
    let (a, b) = interleaved_butterfly(inverse, data[index], data[index + 1], t, log_block_len);
    data[index] = a;
    data[index + 1] = b;
}

/// The dimensions of a round within vectors, and what its twiddle factors have in common.
///
/// The vectors are processed in pairs, `packed_count` along axis `y` in each of `outer_count`
/// groups.
struct LaneRound<P> {
    /// The twiddle factors of the lanes, relative to that of the first lane.
    block_twiddle: P,
    /// The index of the first twiddle factor.
    coset_offset: usize,
    /// The distance of the indices of the first twiddle factors of neighbouring pairs.
    step: usize,
    outer_count: usize,
    packed_count: usize,
}

impl<F: BinaryField, P: PackedField<Scalar = F>> LaneRound<P> {
    /// The round is round `i` on a coset, on data of `len` vectors.
    spec fn ready<TA: TwiddleAccess<F>>(
        &self,
        access: TA,
        len: nat,
        shape: NTTShape,
        coset: int,
        i: int,
    ) -> bool {
        &&& 0 <= coset
        &&& pairs_lanes(len, P::log_w(), shape, i)
        &&& has_blocks(access, shape, i, layer_offset(shape, coset, i))
        &&& access.shift() == F::f_zero()
        &&& self.coset_offset == layer_offset(shape, coset, i)
        &&& self.step == pow2((P::log_w() - shape.log_x - i) as nat)
        &&& self.outer_count == pow2(log_slices(P::log_w(), shape))
        &&& self.packed_count == pow2(log_pairs(P::log_w(), shape))
        &&& self.block_twiddle.lanes() == lane_twiddles(access, shape, P::log_w(), i)
    }

    /// The twiddle factors of the lanes of pair `k` along axis `y`.
    spec fn factors<TA: TwiddleAccess<F>>(&self, access: TA, k: int) -> Seq<F> {
        Seq::new(
            pow2(P::log_w()),
            |l: int|
                twiddle(access, self.coset_offset + k * self.step).f_add(
                    self.block_twiddle.lanes()[l],
                ),
        )
    }

    /// Computes the dimensions of a round and its common twiddle factors.
    ///
    /// A block is a block of butterflies that all have the same twiddle factor. Within vectors a
    /// block is shorter than a vector, so that the twiddle factors differ from lane to lane. Since
    /// they are linear in the binary digits of their index, those of the lanes can be computed
    /// once, and the common one of a pair of vectors is added to them.
    fn new<TA: TwiddleAccess<F>>(
        s_evals_i: &TA,
        Ghost(len): Ghost<nat>,
        shape: NTTShape,
        coset: usize,
        i: usize,
    ) -> (r: Self)
        requires
            pairs_lanes(len, P::log_w(), shape, i as int),
            has_blocks(*s_evals_i, shape, i as int, layer_offset(shape, coset as int, i as int)),
            s_evals_i.shift() == F::f_zero(),
        ensures
            r.ready(*s_evals_i, len, shape, coset as int, i as int),
    {
        proof {
            lemma_lane_dims(len, P::log_w(), shape, i as int);
            lemma_pow2_pos((shape.log_y - 1 - i) as nat);
            lemma_pow2_monotone((shape.log_y - 1 - i) as nat, shape.log_size());
            lemma_pow2_fits(shape.log_size());
            lemma_pow2_order((shape.log_y - 1 - i) as nat, s_evals_i.log_len());
            lemma_pair_base(len, P::log_w(), shape, i as int, 0, 0);
        }
        let NTTShape { log_x, log_y, log_z } = shape;
        let log_w = P::log_width();
        let cutoff = log_w - log_x;
        let coset_offset = coset * pow2_usize(log_y - 1 - i);
        let block_twiddle = calculate_packed_additive_twiddle::<F, P, TA>(s_evals_i, shape, i);
        let log_packed_count = if log_y - 1 > cutoff {
            log_y - 1 - cutoff
        } else {
            0
        };
        let log_len = log_x + log_y + log_z;
        let outer_count = pow2_usize(
            if log_len > log_w + log_packed_count + 1 {
                log_len - (log_w + log_packed_count + 1)
            } else {
                0
            },
        );
        let packed_count = pow2_usize(log_packed_count);
        let step = pow2_usize(cutoff - i);
        LaneRound { block_twiddle, coset_offset, step, outer_count, packed_count }
    }

    /// Returns the twiddle factors of the lanes of pair `k` along axis `y`.
    fn pair_twiddle<TA: TwiddleAccess<F>>(
        &self,
        s_evals_i: &TA,
        Ghost(len): Ghost<nat>,
        Ghost(shape): Ghost<NTTShape>,
        Ghost(coset): Ghost<int>,
        Ghost(i): Ghost<int>,
        k: usize,
    ) -> (r: P)
        requires
            self.ready(*s_evals_i, len, shape, coset, i),
            k < self.packed_count,
        ensures
            r.lanes() == self.factors(*s_evals_i, k as int),
    {
        proof {
            lemma_lane_dims(len, P::log_w(), shape, i);
            lemma_pair_base(len, P::log_w(), shape, i, 0, k as int);
            self.block_twiddle.law_lanes();
        }
        let first = s_evals_i.get(self.coset_offset + k * self.step);
        let r = P::broadcast(first).add_lanes(self.block_twiddle);
        proof {
            assert(r.lanes() =~= self.factors(*s_evals_i, k as int));
        }
        r
    }

    /// Performs the butterflies of pair `k` along axis `y` in group `j`.
    fn butterfly_pair<TA: TwiddleAccess<F>>(
        &self,
        inverse: bool,
        data: &mut [P],
        Ghost(start): Ghost<Seq<P>>,
        Ghost(access): Ghost<TA>,
        shape: NTTShape,
        Ghost(coset): Ghost<int>,
        i: usize,
        j: usize,
        k: usize,
        t: P,
    )
        requires
            self.ready(access, start.len(), shape, coset, i as int),
            j < self.outer_count,
            k < self.packed_count,
            t.lanes() == self.factors(access, k as int),
            prefix_done(
                old(data)@,
                start,
                round_target(
                    inverse,
                    start,
                    access,
                    shape,
                    i as int,
                    layer_offset(shape, coset, i as int),
                ),
                2 * (j * self.packed_count + k),
            ),
        ensures
            prefix_done(
                final(data)@,
                start,
                round_target(
                    inverse,
                    start,
                    access,
                    shape,
                    i as int,
                    layer_offset(shape, coset, i as int),
                ),
                2 * (j * self.packed_count + k + 1),
            ),
    {
        proof {
            lemma_pair_base(start.len(), P::log_w(), shape, i as int, j as int, k as int);
            lemma_lane_dims(start.len(), P::log_w(), shape, i as int);
        }
        let ghost mid = data@;
        pair_butterfly(inverse, data, j * self.packed_count + k, t, i + shape.log_x);
        proof {
            assert(t.lanes() =~= Seq::new(
                pow2(P::log_w()),
                |l: int|
                    twiddle(
                        access,
                        coset * pow2((shape.log_y - 1 - i) as nat) + k * pow2(
                            (P::log_w() - shape.log_x - i) as nat,
                        ),
                    ).f_add(lane_twiddles(access, shape, P::log_w(), i as int)[l]),
            ));
            lemma_pair_factors(
                access,
                start.len(),
                P::log_w(),
                shape,
                i as int,
                coset,
                j as int,
                k as int,
                t.lanes(),
            );
            lemma_pair_done(
                inverse,
                start,
                mid,
                data@,
                shape,
                layer_twiddles(access, layer_offset(shape, coset, i as int)),
                i as int,
                j * self.packed_count + k,
                t.lanes(),
            );
        }
    }
}

/// When all pairs are done the round is.
proof fn lemma_pairs_done<F: BinaryField, P: PackedField<Scalar = F>>(
    cur: Seq<P>,
    start: Seq<P>,
    target: Seq<F>,
    shape: NTTShape,
    i: int,
)
    requires
        pairs_lanes(start.len(), P::log_w(), shape, i),
        target.len() == flat(start).len(),
        prefix_done(
            cur,
            start,
            target,
            2 * (pow2(log_slices(P::log_w(), shape)) * pow2(log_pairs(P::log_w(), shape))) as int,
        ),
    ensures
        flat(cur) == target,
{
    lemma_lane_dims(start.len(), P::log_w(), shape, i);
    lemma_all_done(cur, start, target);
}

/// Performs a round of the forward transform within vectors, with the twiddle factors fetched
/// ahead.
pub(crate) fn forward_round_below_cutoff<
    F: BinaryField,
    P: PackedField<Scalar = F>,
    TA: TwiddleAccess<F>,
>(data: &mut [P], s_evals_i: &TA, shape: NTTShape, coset: usize, i: usize)
    requires
        pairs_lanes(old(data)@.len(), P::log_w(), shape, i as int),
        has_blocks(*s_evals_i, shape, i as int, layer_offset(shape, coset as int, i as int)),
        s_evals_i.shift() == F::f_zero(),
    ensures
        round_done(
            false,
            old(data)@,
            final(data)@,
            *s_evals_i,
            shape,
            i as int,
            layer_offset(shape, coset as int, i as int),
        ),
{
    let ghost start = data@;
    let ghost offset = layer_offset(shape, coset as int, i as int);
    let ghost target = round_target(false, start, *s_evals_i, shape, i as int, offset);
    let lanes: LaneRound<P> = LaneRound::new(s_evals_i, Ghost(start.len()), shape, coset, i);
    let outer_count = lanes.outer_count;
    let packed_count = lanes.packed_count;
    proof {
        assert(0 * packed_count == 0);
    }
    let mut j_block: usize = 0;
    while j_block < outer_count
        invariant
            j_block <= outer_count,
            outer_count == lanes.outer_count,
            packed_count == lanes.packed_count,
            lanes.ready(*s_evals_i, start.len(), shape, coset as int, i as int),
            offset == layer_offset(shape, coset as int, i as int),
            target == round_target(false, start, *s_evals_i, shape, i as int, offset),
            prefix_done(data@, start, target, 2 * (j_block * packed_count)),
        decreases outer_count - j_block,
    {
        let j_end = if outer_count - j_block > OUTER_BLOCK_SIZE {
            j_block + OUTER_BLOCK_SIZE
        } else {
            outer_count
        };
        let mut twiddles: Vec<P> = Vec::new();
        let mut k: usize = 0;
        while k < packed_count
            invariant
                k <= packed_count,
                packed_count == lanes.packed_count,
                lanes.ready(*s_evals_i, start.len(), shape, coset as int, i as int),
                twiddles@.len() == k,
                forall|x: int|
                    0 <= x < k ==> (#[trigger] twiddles@[x]).lanes() == lanes.factors(
                        *s_evals_i,
                        x,
                    ),
            decreases packed_count - k,
        {
            twiddles.push(
                lanes.pair_twiddle(
                    s_evals_i,
                    Ghost(start.len()),
                    Ghost(shape),
                    Ghost(coset as int),
                    Ghost(i as int),
                    k,
                ),
            );
            k = k + 1;
        }
        let mut j: usize = j_block;
        while j < j_end
            invariant
                j <= j_end <= outer_count,
                outer_count == lanes.outer_count,
                packed_count == lanes.packed_count,
                lanes.ready(*s_evals_i, start.len(), shape, coset as int, i as int),
                offset == layer_offset(shape, coset as int, i as int),
                target == round_target(false, start, *s_evals_i, shape, i as int, offset),
                twiddles@.len() == packed_count,
                forall|x: int|
                    0 <= x < packed_count ==> (#[trigger] twiddles@[x]).lanes() == lanes.factors(
                        *s_evals_i,
                        x,
                    ),
                prefix_done(data@, start, target, 2 * (j * packed_count)),
            decreases j_end - j,
        {
            let mut k: usize = 0;
            while k < packed_count
                invariant
                    j < outer_count,
                    k <= packed_count,
                    outer_count == lanes.outer_count,
                    packed_count == lanes.packed_count,
                    lanes.ready(*s_evals_i, start.len(), shape, coset as int, i as int),
                    offset == layer_offset(shape, coset as int, i as int),
                    target == round_target(false, start, *s_evals_i, shape, i as int, offset),
                    twiddles@.len() == packed_count,
                    forall|x: int|
                        0 <= x < packed_count ==> (#[trigger] twiddles@[x]).lanes()
                            == lanes.factors(*s_evals_i, x),
                    prefix_done(data@, start, target, 2 * (j * packed_count + k)),
                decreases packed_count - k,
            {
                lanes.butterfly_pair::<TA>(
                    false,
                    data,
                    Ghost(start),
                    Ghost(*s_evals_i),
                    shape,
                    Ghost(coset as int),
                    i,
                    j,
                    k,
                    twiddles[k],
                );
                k = k + 1;
            }
            proof {
                assert(j * packed_count + packed_count == (j + 1) * packed_count)
                    by (nonlinear_arith);
            }
            j = j + 1;
        }
        j_block = j_end;
    }
    proof {
        lemma_pairs_done(data@, start, target, shape, i as int);
    }
}

/// Performs a round of the inverse transform within vectors.
pub(crate) fn inverse_round_below_cutoff<
    F: BinaryField,
    P: PackedField<Scalar = F>,
    TA: TwiddleAccess<F>,
>(data: &mut [P], s_evals_i: &TA, shape: NTTShape, coset: usize, i: usize)
    requires
        pairs_lanes(old(data)@.len(), P::log_w(), shape, i as int),
        has_blocks(*s_evals_i, shape, i as int, layer_offset(shape, coset as int, i as int)),
        s_evals_i.shift() == F::f_zero(),
    ensures
        round_done(
            true,
            old(data)@,
            final(data)@,
            *s_evals_i,
            shape,
            i as int,
            layer_offset(shape, coset as int, i as int),
        ),
{
    let ghost start = data@;
    let ghost offset = layer_offset(shape, coset as int, i as int);
    let ghost target = round_target(true, start, *s_evals_i, shape, i as int, offset);
    let lanes: LaneRound<P> = LaneRound::new(s_evals_i, Ghost(start.len()), shape, coset, i);
    let outer_count = lanes.outer_count;
    let packed_count = lanes.packed_count;
    proof {
        assert(0 * packed_count == 0);
    }
    let mut j: usize = 0;
    while j < outer_count
        invariant
            j <= outer_count,
            outer_count == lanes.outer_count,
            packed_count == lanes.packed_count,
            lanes.ready(*s_evals_i, start.len(), shape, coset as int, i as int),
            offset == layer_offset(shape, coset as int, i as int),
            target == round_target(true, start, *s_evals_i, shape, i as int, offset),
            prefix_done(data@, start, target, 2 * (j * packed_count)),
        decreases outer_count - j,
    {
        let mut k: usize = 0;
        while k < packed_count
            invariant
                j < outer_count,
                k <= packed_count,
                outer_count == lanes.outer_count,
                packed_count == lanes.packed_count,
                lanes.ready(*s_evals_i, start.len(), shape, coset as int, i as int),
                offset == layer_offset(shape, coset as int, i as int),
                target == round_target(true, start, *s_evals_i, shape, i as int, offset),
                prefix_done(data@, start, target, 2 * (j * packed_count + k)),
            decreases packed_count - k,
        {
            let t = lanes.pair_twiddle(
                s_evals_i,
                Ghost(start.len()),
                Ghost(shape),
                Ghost(coset as int),
                Ghost(i as int),
                k,
            );
            lanes.butterfly_pair::<TA>(
                true,
                data,
                Ghost(start),
                Ghost(*s_evals_i),
                shape,
                Ghost(coset as int),
                i,
                j,
                k,
                t,
            );
            k = k + 1;
        }
        proof {
            assert(j * packed_count + packed_count == (j + 1) * packed_count) by (nonlinear_arith);
        }
        j = j + 1;
    }
    proof {
        lemma_pairs_done(data@, start, target, shape, i as int);
    }
}

} // verus!
