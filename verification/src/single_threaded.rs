//! The transforms, run on a single thread.
use core::marker::PhantomData;

use vstd::arithmetic::mul::*;
use vstd::arithmetic::power2::*;
use vstd::prelude::*;
use vstd::slice::slice_subrange;

use crate::arith::{
    is_power_of_two, lemma_digits, lemma_digits_below, lemma_is_pow2_exponent, lemma_or_below,
    lemma_or_sum, lemma_pow2_fits, lemma_pow2_is_pow2, lemma_pow2_monotone, lemma_pow2_order,
    pow2_usize,
};
use crate::butterfly::{butterfly_block, butterfly_block_simd};
use crate::error::{Error, MathError};
use crate::field::{BinaryField, FieldEmbedding, TowerField};
use crate::interleave::pairs_lanes;
use crate::lane_round::{forward_round_below_cutoff, inverse_round_below_cutoff};
use crate::laws::law_packing;
use crate::model::{
    coset_twiddles, forward_rounds, inverse_rounds, joined_twiddles, layer_offset, layer_twiddles,
    lemma_forward_rounds_compose, lemma_round_ext, lemma_rounds_prefix, round, twiddles_at,
};
use crate::packed::{flat, lemma_flat_first, PackedField};
use crate::progress::{
    has_blocks, has_joined_blocks, lemma_all_done, lemma_block_base, lemma_block_done,
    lemma_vector_dims, pairs_vectors, prefix_done, round_done, rounds_ready, vector_stride,
};
use crate::shape::{batch_fits, NTTShape};
use crate::subspace::{
    canonical_basis, embedded, independent, lemma_same_coords, BinarySubspace,
};
use crate::twiddle::{
    expand_subspace_evals, lemma_round_domain_independent, round_domain, round_of, rounds_of,
    same_twiddles, twiddle, OnTheFlyTwiddleAccess, PrecomputedTwiddleAccess, TwiddleAccess,
};

verus! {

/// What is wrong with a request, if anything is.
pub open spec fn request_error(
    log_domain_size: nat,
    len: nat,
    log_w: nat,
    shape: NTTShape,
    coset: usize,
    coset_bits: usize,
    skip_rounds: usize,
) -> Option<Error> {
    if !is_pow2(len as int) {
        Some(Error::PowerOfTwoLengthRequired)
    } else if skip_rounds > shape.log_y {
        Some(Error::SkipRoundsTooLarge)
    } else if !batch_fits(len, log_w, shape) {
        Some(Error::BatchTooLarge)
    } else if coset >= pow2(coset_bits as nat) {
        Some(Error::CosetIndexOutOfBounds { coset, coset_bits })
    } else if shape.log_y + coset_bits > log_domain_size {
        Some(
            Error::DomainTooSmall {
                log_required_domain_size: (shape.log_y + coset_bits) as usize,
            },
        )
    } else {
        None
    }
}

/// The numbers of a request that is not refused before they are looked at fit in a machine word.
pub open spec fn request_in_range(
    len: nat,
    log_w: nat,
    shape: NTTShape,
    coset_bits: usize,
    skip_rounds: usize,
) -> bool {
    &&& pow2(log_w) <= usize::MAX
    &&& is_pow2(len as int) && skip_rounds <= shape.log_y ==> {
        &&& len * pow2(log_w) <= usize::MAX
        &&& shape.log_x + shape.log_z < usize::BITS
        &&& shape.log_y < usize::BITS
        &&& batch_fits(len, log_w, shape) ==> coset_bits < usize::BITS
    }
}

/// Checks the arguments of a transform.
pub fn check_batch_transform_inputs_and_params<PB: PackedField>(
    log_domain_size: usize,
    data: &[PB],
    shape: NTTShape,
    coset: usize,
    coset_bits: usize,
    skip_rounds: usize,
) -> (r: Result<(), Error>)
    requires
        request_in_range(data@.len(), PB::log_w(), shape, coset_bits, skip_rounds),
    ensures
        match request_error(
            log_domain_size as nat,
            data@.len(),
            PB::log_w(),
            shape,
            coset,
            coset_bits,
            skip_rounds,
        ) {
            Some(e) => r == Err::<(), Error>(e),
            None => r == Ok::<(), Error>(()),
        },
{
    let NTTShape { log_x, log_y, log_z } = shape;
    if !is_power_of_two(data.len()) {
        return Err(Error::PowerOfTwoLengthRequired);
    }
    if skip_rounds > log_y {
        return Err(Error::SkipRoundsTooLarge);
    }
    let log_w = PB::log_width();
    let ghost d = lemma_is_pow2_exponent(data@.len() as int);
    proof {
        lemma_pow2_adds(d, log_w as nat);
        lemma_pow2_fits(d + log_w as nat);
        lemma_pow2_fits((log_x + log_z) as nat);
        lemma_pow2_fits(log_y as nat);
        lemma_full_size(d + log_w as nat, shape);
    }
    let full_sized_y = (data.len() * pow2_usize(log_w)) / pow2_usize(log_x + log_z);
    let size_y = pow2_usize(log_y);
    if (size_y != full_sized_y && data.len() > 2) || size_y > full_sized_y {
        return Err(Error::BatchTooLarge);
    }
    proof {
        lemma_pow2_fits(coset_bits as nat);
    }
    if coset >= pow2_usize(coset_bits) {
        return Err(Error::CosetIndexOutOfBounds { coset, coset_bits });
    }
    let log_required_domain_size = log_y + coset_bits;
    if log_required_domain_size > log_domain_size {
        return Err(Error::DomainTooSmall { log_required_domain_size });
    }
    Ok(())
}

/// How the length of axis `y` that the data leaves room for compares with that of the shape.
proof fn lemma_full_size(n: nat, shape: NTTShape)
    ensures
        pow2((shape.log_x + shape.log_z) as nat) > 0,
        pow2(shape.log_y as nat) == pow2(n) as int / pow2((shape.log_x + shape.log_z) as nat) as int
            <==> pow2(shape.log_size()) == pow2(n),
        pow2(shape.log_y as nat) > pow2(n) as int / pow2((shape.log_x + shape.log_z) as nat) as int
            <==> pow2(shape.log_size()) > pow2(n),
{
    let a = (shape.log_x + shape.log_z) as nat;
    let y = shape.log_y as nat;
    lemma_pow2_pos(a);
    lemma_pow2_pos(y);
    lemma_pow2_pos(n);
    lemma_pow2_order(shape.log_size(), n);
    lemma_pow2_order(n, shape.log_size());
    if a <= n {
        lemma_pow2_subtracts(a, n);
        lemma_pow2_order(y, (n - a) as nat);
        lemma_pow2_order((n - a) as nat, y);
    } else {
        lemma_pow2_strictly_increases(n, a);
        lemma_digits(0, pow2(a) as int, pow2(n) as int);
    }
}

/// Where the binary digits of the offset and of the numbers of the blocks do not overlap, joining
/// them is adding.
proof fn lemma_joined_round<F: BinaryField, TA: TwiddleAccess<F>>(
    inverse: bool,
    m: Seq<F>,
    access: TA,
    shape: NTTShape,
    log_w: nat,
    i: int,
    offset: usize,
)
    requires
        0 <= i < shape.log_y,
        pow2((shape.log_y - 1 - i) as nat) <= usize::MAX,
        offset as int % pow2((shape.log_y - 1 - i) as nat) as int == 0,
    ensures
        round(inverse, m, shape, log_w, joined_twiddles(access, offset), i) == round(
            inverse,
            m,
            shape,
            log_w,
            layer_twiddles(access, offset as int),
            i,
        ),
{
    let tw = joined_twiddles(access, offset);
    let tw2 = layer_twiddles(access, offset as int);
    let n = (shape.log_y - 1 - i) as nat;
    assert forall|k: int| 0 <= k < pow2(n) implies #[trigger] tw(i, k) == tw2(i, k) by {
        lemma_or_sum(offset, k as usize, n);
    }
    lemma_round_ext(inverse, m, shape, log_w, tw, tw2, i);
}

/// The offset of a coset leaves room for the numbers of the blocks.
proof fn lemma_coset_offset<F: BinaryField, TA: TwiddleAccess<F>>(
    access: TA,
    shape: NTTShape,
    i: int,
    coset: int,
)
    requires
        0 <= i < shape.log_y,
        has_blocks(access, shape, i, layer_offset(shape, coset, i)),
    ensures
        layer_offset(shape, coset, i) % pow2((shape.log_y - 1 - i) as nat) as int == 0,
        has_joined_blocks(access, shape, i, layer_offset(shape, coset, i)),
{
    let n = (shape.log_y - 1 - i) as nat;
    lemma_pow2_pos(n);
    lemma_digits(coset, pow2(n) as int, 0);
    lemma_pow2_order(n, access.log_len());
}

/// Performs a round that pairs whole vectors, block by block.
fn round_above_cutoff<F: BinaryField, P: PackedField<Scalar = F>, TA: TwiddleAccess<F>>(
    inverse: bool,
    data: &mut [P],
    s_evals_i: &TA,
    shape: NTTShape,
    i: usize,
    coset_offset: usize,
)
    requires
        pairs_vectors(old(data)@.len(), P::log_w(), shape, i as int),
        has_joined_blocks(*s_evals_i, shape, i as int, coset_offset as int),
    ensures
        final(data)@.len() == old(data)@.len(),
        flat(final(data)@) == round(
            inverse,
            flat(old(data)@),
            shape,
            P::log_w(),
            joined_twiddles(*s_evals_i, coset_offset),
            i as int,
        ),
        coset_offset as int % pow2((shape.log_y - 1 - i) as nat) as int == 0 ==> round_done(
            inverse,
            old(data)@,
            final(data)@,
            *s_evals_i,
            shape,
            i as int,
            coset_offset as int,
        ),
{
    let ghost start = data@;
    let ghost tw = joined_twiddles(*s_evals_i, coset_offset);
    let ghost target = round(inverse, flat(start), shape, P::log_w(), tw, i as int);
    proof {
        lemma_vector_dims(start.len(), P::log_w(), shape, i as int);
    }
    let log_w = P::log_width();
    let stride = pow2_usize(shape.log_x + i - log_w);
    let blocks = pow2_usize(shape.log_y - 1 - i);
    let outer = pow2_usize(shape.log_z);
    proof {
        assert(0 * (2 * stride) == 0);
    }
    // j indexes the outer axis.
    let mut j: usize = 0;
    while j < outer
        invariant
            j <= outer,
            pairs_vectors(start.len(), P::log_w(), shape, i as int),
            has_joined_blocks(*s_evals_i, shape, i as int, coset_offset as int),
            stride == vector_stride(P::log_w(), shape, i as int),
            blocks == pow2((shape.log_y - 1 - i) as nat),
            outer == pow2(shape.log_z as nat),
            tw == joined_twiddles(*s_evals_i, coset_offset),
            target == round(inverse, flat(start), shape, P::log_w(), tw, i as int),
            prefix_done(data@, start, target, (j * blocks) * (2 * stride)),
        decreases outer - j,
    {
        // k indexes the block within the slice.
        let mut k: usize = 0;
        while k < blocks
            invariant
                j < outer,
                k <= blocks,
                pairs_vectors(start.len(), P::log_w(), shape, i as int),
                has_joined_blocks(*s_evals_i, shape, i as int, coset_offset as int),
                stride == vector_stride(P::log_w(), shape, i as int),
                blocks == pow2((shape.log_y - 1 - i) as nat),
                outer == pow2(shape.log_z as nat),
                tw == joined_twiddles(*s_evals_i, coset_offset),
                target == round(inverse, flat(start), shape, P::log_w(), tw, i as int),
                prefix_done(data@, start, target, (j * blocks + k) * (2 * stride)),
            decreases blocks - k,
        {
            proof {
                lemma_block_base(start.len(), P::log_w(), shape, i as int, j as int, k as int);
                lemma_pow2_monotone((shape.log_y - 1 - i) as nat, s_evals_i.log_len());
                lemma_or_below(coset_offset, k, s_evals_i.log_len());
            }
            let factor = s_evals_i.get(coset_offset | k);
            let base = (j * blocks + k) * (2 * stride);
            let ghost mid = data@;
            butterfly_block(inverse, data, base, stride, stride, factor);
            proof {
                lemma_block_done(
                    inverse,
                    start,
                    mid,
                    data@,
                    shape,
                    tw,
                    i as int,
                    j * blocks + k,
                );
            }
            k = k + 1;
        }
        proof {
            assert(j * blocks + blocks == (j + 1) * blocks) by (nonlinear_arith);
        }
        j = j + 1;
    }
    proof {
        lemma_vector_dims(start.len(), P::log_w(), shape, i as int);
        lemma_all_done(data@, start, target);
        if coset_offset as int % pow2((shape.log_y - 1 - i) as nat) as int == 0 {
            lemma_joined_round(
                inverse,
                flat(start),
                *s_evals_i,
                shape,
                P::log_w(),
                i as int,
                coset_offset,
            );
        }
    }
}

/// Performs a round of the forward transform that pairs whole vectors, block by block. The index of
/// a twiddle factor comes from joining the binary digits of `coset_offset` and of the number of the
/// block.
pub fn forward_transform_above_cutoff_simple<
    F: BinaryField,
    P: PackedField<Scalar = F>,
    TA: TwiddleAccess<F>,
>(data: &mut [P], s_evals_i: &TA, shape: NTTShape, i: usize, coset_offset: usize)
    requires
        pairs_vectors(old(data)@.len(), P::log_w(), shape, i as int),
        has_joined_blocks(*s_evals_i, shape, i as int, coset_offset as int),
    ensures
        final(data)@.len() == old(data)@.len(),
        flat(final(data)@) == round(
            false,
            flat(old(data)@),
            shape,
            P::log_w(),
            joined_twiddles(*s_evals_i, coset_offset),
            i as int,
        ),
        coset_offset as int % pow2((shape.log_y - 1 - i) as nat) as int == 0 ==> round_done(
            false,
            old(data)@,
            final(data)@,
            *s_evals_i,
            shape,
            i as int,
            coset_offset as int,
        ),
{
    round_above_cutoff(false, data, s_evals_i, shape, i, coset_offset)
}

/// The binary logarithm of the number of blocks whose twiddle factors are fetched together.
pub const CACHE_BLOCK_LOG_SIZE: usize = 6;

/// Performs a round of the forward transform that pairs whole vectors, with the twiddle factors
/// fetched ahead for a chunk of blocks.
fn forward_transform_above_cutoff_chunked<
    F: BinaryField,
    P: PackedField<Scalar = F>,
    TA: TwiddleAccess<F>,
>(data: &mut [P], s_evals_i: &TA, shape: NTTShape, i: usize, coset_offset: usize)
    requires
        pairs_vectors(old(data)@.len(), P::log_w(), shape, i as int),
        has_blocks(*s_evals_i, shape, i as int, coset_offset as int),
        coset_offset as int % pow2((shape.log_y - 1 - i) as nat) as int == 0,
    ensures
        round_done(
            false,
            old(data)@,
            final(data)@,
            *s_evals_i,
            shape,
            i as int,
            coset_offset as int,
        ),
{
    let ghost start = data@;
    let ghost tw = layer_twiddles(*s_evals_i, coset_offset as int);
    let ghost target = round(false, flat(start), shape, P::log_w(), tw, i as int);
    proof {
        lemma_vector_dims(start.len(), P::log_w(), shape, i as int);
        lemma2_to64();
    }
    let log_w = P::log_width();
    let stride = pow2_usize(shape.log_x + i - log_w);
    let num_blocks = pow2_usize(shape.log_y - 1 - i);
    let outer_blocks = pow2_usize(shape.log_z);
    let log_blocks = shape.log_y - 1 - i;
    let chunk = pow2_usize(
        if log_blocks < CACHE_BLOCK_LOG_SIZE {
            log_blocks
        } else {
            CACHE_BLOCK_LOG_SIZE
        },
    );
    proof {
        lemma_pow2_pos(CACHE_BLOCK_LOG_SIZE as nat);
        assert(0 * (2 * stride) == 0);
    }
    let mut outer_block: usize = 0;
    while outer_block < outer_blocks
        invariant
            outer_block <= outer_blocks,
            chunk > 0,
            pairs_vectors(start.len(), P::log_w(), shape, i as int),
            has_blocks(*s_evals_i, shape, i as int, coset_offset as int),
            coset_offset as int % pow2((shape.log_y - 1 - i) as nat) as int == 0,
            stride == vector_stride(P::log_w(), shape, i as int),
            num_blocks == pow2((shape.log_y - 1 - i) as nat),
            outer_blocks == pow2(shape.log_z as nat),
            tw == layer_twiddles(*s_evals_i, coset_offset as int),
            target == round(false, flat(start), shape, P::log_w(), tw, i as int),
            prefix_done(data@, start, target, (outer_block * num_blocks) * (2 * stride)),
        decreases outer_blocks - outer_block,
    {
        let mut chunk_start: usize = 0;
        while chunk_start < num_blocks
            invariant
                outer_block < outer_blocks,
                chunk_start <= num_blocks,
                chunk > 0,
                pairs_vectors(start.len(), P::log_w(), shape, i as int),
                has_blocks(*s_evals_i, shape, i as int, coset_offset as int),
                coset_offset as int % pow2((shape.log_y - 1 - i) as nat) as int == 0,
                stride == vector_stride(P::log_w(), shape, i as int),
                num_blocks == pow2((shape.log_y - 1 - i) as nat),
                outer_blocks == pow2(shape.log_z as nat),
                tw == layer_twiddles(*s_evals_i, coset_offset as int),
                target == round(false, flat(start), shape, P::log_w(), tw, i as int),
                prefix_done(
                    data@,
                    start,
                    target,
                    (outer_block * num_blocks + chunk_start) * (2 * stride),
                ),
            decreases num_blocks - chunk_start,
        {
            let chunk_end = if num_blocks - chunk_start > chunk {
                chunk_start + chunk
            } else {
                num_blocks
            };
            // Fetch the twiddle factors of this chunk.
            let mut chunk_twiddles: Vec<F> = Vec::new();
            let mut k: usize = chunk_start;
            while k < chunk_end
                invariant
                    chunk_start <= k <= chunk_end <= num_blocks,
                    has_blocks(*s_evals_i, shape, i as int, coset_offset as int),
                    coset_offset as int % pow2((shape.log_y - 1 - i) as nat) as int == 0,
                    num_blocks == pow2((shape.log_y - 1 - i) as nat),
                    chunk_twiddles@.len() == k - chunk_start,
                    forall|x: int|
                        0 <= x < k - chunk_start ==> #[trigger] chunk_twiddles@[x] == twiddle(
                            *s_evals_i,
                            coset_offset + chunk_start + x,
                        ),
                decreases chunk_end - k,
            {
                proof {
                    lemma_or_sum(coset_offset, k, (shape.log_y - 1 - i) as nat);
                }
                chunk_twiddles.push(s_evals_i.get(coset_offset | k));
                k = k + 1;
            }
            // Process each block of the chunk.
            let mut k: usize = chunk_start;
            while k < chunk_end
                invariant
                    outer_block < outer_blocks,
                    chunk_start <= k <= chunk_end <= num_blocks,
                    pairs_vectors(start.len(), P::log_w(), shape, i as int),
                    stride == vector_stride(P::log_w(), shape, i as int),
                    num_blocks == pow2((shape.log_y - 1 - i) as nat),
                    outer_blocks == pow2(shape.log_z as nat),
                    tw == layer_twiddles(*s_evals_i, coset_offset as int),
                    target == round(false, flat(start), shape, P::log_w(), tw, i as int),
                    chunk_twiddles@.len() == chunk_end - chunk_start,
                    forall|x: int|
                        0 <= x < chunk_end - chunk_start ==> #[trigger] chunk_twiddles@[x]
                            == twiddle(*s_evals_i, coset_offset + chunk_start + x),
                    prefix_done(
                        data@,
                        start,
                        target,
                        (outer_block * num_blocks + k) * (2 * stride),
                    ),
                decreases chunk_end - k,
            {
                proof {
                    lemma_block_base(
                        start.len(),
                        P::log_w(),
                        shape,
                        i as int,
                        outer_block as int,
                        k as int,
                    );
                }
                let factor = chunk_twiddles[k - chunk_start];
                let block_base = (outer_block * num_blocks + k) * (2 * stride);
                let ghost mid = data@;
                butterfly_block_simd(data, block_base, stride, stride, factor);
                proof {
                    lemma_block_done(
                        false,
                        start,
                        mid,
                        data@,
                        shape,
                        tw,
                        i as int,
                        outer_block * num_blocks + k,
                    );
                }
                k = k + 1;
            }
            chunk_start = chunk_end;
        }
        proof {
            assert(outer_block * num_blocks + num_blocks == (outer_block + 1) * num_blocks)
                by (nonlinear_arith);
        }
        outer_block = outer_block + 1;
    }
    proof {
        lemma_vector_dims(start.len(), P::log_w(), shape, i as int);
        lemma_all_done(data@, start, target);
    }
}

/// Performs the rounds of the forward transform that pair whole vectors: those from `cutoff` on.
///
/// Fetching the twiddle factors ahead for large rounds is an optimization only: the result is that
/// of the plain rounds one after the other, and also that of the plain rounds on the scalars.
pub fn forward_transform_above_cutoff<
    F: BinaryField,
    P: PackedField<Scalar = F>,
    TA: TwiddleAccess<F>,
>(
    data: &mut [P],
    s_evals: &[TA],
    shape: NTTShape,
    coset: usize,
    cutoff: usize,
    skip_rounds: usize,
)
    requires
        skip_rounds <= shape.log_y,
        cutoff < shape.log_y - skip_rounds ==> {
            &&& pairs_vectors(old(data)@.len(), P::log_w(), shape, cutoff as int)
            &&& rounds_ready(s_evals@, shape, coset as int, shape.log_y - skip_rounds)
        },
    ensures
        final(data)@.len() == old(data)@.len(),
        flat(final(data)@) == forward_rounds(
            flat(old(data)@),
            shape,
            P::log_w(),
            twiddles_at(s_evals@, shape, coset as int),
            cutoff as int,
            shape.log_y - skip_rounds,
        ),
        flat(final(data)@) == forward_rounds(
            flat(old(data)@),
            shape,
            0,
            twiddles_at(s_evals@, shape, coset as int),
            cutoff as int,
            shape.log_y - skip_rounds,
        ),
        cutoff >= shape.log_y - skip_rounds ==> final(data)@ == old(data)@,
{
    let ghost start = data@;
    let ghost tw = twiddles_at(s_evals@, shape, coset as int);
    let top = shape.log_y - skip_rounds;
    let mut i: usize = if cutoff < top {
        top
    } else {
        cutoff
    };
    while i > cutoff
        invariant
            cutoff <= i,
            cutoff < top ==> i <= top,
            cutoff >= top ==> i == cutoff,
            top == shape.log_y - skip_rounds,
            cutoff < top ==> {
                &&& pairs_vectors(start.len(), P::log_w(), shape, cutoff as int)
                &&& rounds_ready(s_evals@, shape, coset as int, top as int)
            },
            tw == twiddles_at(s_evals@, shape, coset as int),
            data@.len() == start.len(),
            cutoff >= top ==> data@ == start,
            flat(data@) == forward_rounds(
                flat(start),
                shape,
                P::log_w(),
                tw,
                i as int,
                top as int,
            ),
        decreases i,
    {
        i = i - 1;
        proof {
            assert(pairs_vectors(start.len(), P::log_w(), shape, i as int));
            lemma_vector_dims(start.len(), P::log_w(), shape, i as int);
            assert(has_blocks(
                s_evals@[i as int],
                shape,
                i as int,
                coset * pow2((shape.log_y - 1 - i) as nat),
            ));
            lemma_coset_offset(s_evals@[i as int], shape, i as int, coset as int);
        }
        let s_evals_i = &s_evals[i];
        let coset_offset = coset * pow2_usize(shape.log_y - 1 - i);
        let log_w = P::log_width();
        let ghost m = flat(data@);
        if shape.log_z + (shape.log_y - 1 - i) + (i + shape.log_x - log_w) >= CACHE_BLOCK_LOG_SIZE {
            forward_transform_above_cutoff_chunked(data, s_evals_i, shape, i, coset_offset);
        } else {
            forward_transform_above_cutoff_simple(data, s_evals_i, shape, i, coset_offset);
        }
        proof {
            let tw2 = layer_twiddles(*s_evals_i, coset_offset as int);
            lemma_round_ext(false, m, shape, P::log_w(), tw2, tw, i as int);
        }
    }
    proof {
        if cutoff < top {
            law_packing(flat(start), shape, P::log_w(), tw, cutoff as int, top as int);
        }
    }
}

/// The first `n` rounds have twiddle factors that are linear in the binary digits of the index.
pub open spec fn rounds_linear<F: BinaryField, TA: TwiddleAccess<F>>(
    rounds: Seq<TA>,
    n: int,
) -> bool {
    forall|i: int| 0 <= i < n ==> (#[trigger] rounds[i]).shift() == F::f_zero()
}

/// The number of rounds within vectors that are not skipped.
pub open spec fn rounds_within(shape: NTTShape, cutoff: int, skip_rounds: int) -> int {
    if cutoff < shape.log_y - skip_rounds {
        cutoff
    } else {
        shape.log_y - skip_rounds
    }
}

/// Performs the rounds of the forward transform within vectors: those before `cutoff`.
///
/// Where the batch fills a vector, the result is that of the plain rounds on the scalars.
pub fn forward_transform_below_cutoff<
    F: BinaryField,
    P: PackedField<Scalar = F>,
    TA: TwiddleAccess<F>,
>(
    data: &mut [P],
    s_evals: &[TA],
    shape: NTTShape,
    coset: usize,
    cutoff: usize,
    skip_rounds: usize,
)
    requires
        skip_rounds <= shape.log_y,
        cutoff == if P::log_w() > shape.log_x {
            P::log_w() - shape.log_x
        } else {
            0
        },
        rounds_within(shape, cutoff as int, skip_rounds as int) > 0 ==> pairs_lanes(
            old(data)@.len(),
            P::log_w(),
            shape,
            0,
        ),
        rounds_ready(
            s_evals@,
            shape,
            coset as int,
            rounds_within(shape, cutoff as int, skip_rounds as int),
        ),
        rounds_linear(s_evals@, rounds_within(shape, cutoff as int, skip_rounds as int)),
    ensures
        final(data)@.len() == old(data)@.len(),
        flat(final(data)@) == forward_rounds(
            flat(old(data)@),
            shape,
            P::log_w(),
            twiddles_at(s_evals@, shape, coset as int),
            0,
            rounds_within(shape, cutoff as int, skip_rounds as int),
        ),
        P::log_w() <= shape.log_size() ==> flat(final(data)@) == forward_rounds(
            flat(old(data)@),
            shape,
            0,
            twiddles_at(s_evals@, shape, coset as int),
            0,
            rounds_within(shape, cutoff as int, skip_rounds as int),
        ),
        cutoff == 0 || skip_rounds == shape.log_y ==> final(data)@ == old(data)@,
{
    let ghost start = data@;
    let ghost tw = twiddles_at(s_evals@, shape, coset as int);
    let top = if cutoff < shape.log_y - skip_rounds {
        cutoff
    } else {
        shape.log_y - skip_rounds
    };
    let mut i: usize = top;
    while i > 0
        invariant
            i <= top <= cutoff,
            top <= shape.log_y - skip_rounds,
            cutoff == if P::log_w() > shape.log_x {
                P::log_w() - shape.log_x
            } else {
                0
            },
            top > 0 ==> pairs_lanes(start.len(), P::log_w(), shape, 0),
            rounds_ready(s_evals@, shape, coset as int, top as int),
            rounds_linear(s_evals@, top as int),
            tw == twiddles_at(s_evals@, shape, coset as int),
            data@.len() == start.len(),
            top == 0 ==> data@ == start,
            flat(data@) == forward_rounds(
                flat(start),
                shape,
                P::log_w(),
                tw,
                i as int,
                top as int,
            ),
        decreases i,
    {
        i = i - 1;
        let s_evals_i = &s_evals[i];
        let ghost m = flat(data@);
        proof {
            assert(s_evals@[i as int].shift() == F::f_zero());
            assert(pairs_lanes(start.len(), P::log_w(), shape, i as int));
        }
        forward_round_below_cutoff(data, s_evals_i, shape, coset, i);
        proof {
            let tw2 = layer_twiddles(*s_evals_i, layer_offset(shape, coset as int, i as int));
            lemma_round_ext(false, m, shape, P::log_w(), tw2, tw, i as int);
        }
    }
    proof {
        if P::log_w() <= shape.log_size() {
            law_packing(flat(start), shape, P::log_w(), tw, 0, top as int);
        }
    }
}

/// The twiddle access covers the rounds from `lo` up to `hi - 1` of a domain.
pub open spec fn rounds_cover<F: BinaryField, TA: TwiddleAccess<F>>(
    rounds: Seq<TA>,
    log_domain_size: int,
    lo: int,
    hi: int,
) -> bool {
    &&& hi <= rounds.len()
    &&& forall|i: int|
        lo <= i < hi ==> (#[trigger] rounds[i]).wf() && rounds[i].log_len() >= log_domain_size - 1
            - i
}

/// The last rounds of a covered domain have the twiddle factors that a transform needs.
proof fn lemma_rounds_ready<F: BinaryField, TA: TwiddleAccess<F>>(
    rounds: Seq<TA>,
    log_domain_size: int,
    shape: NTTShape,
    coset: int,
    coset_bits: nat,
    n: int,
)
    requires
        rounds_cover(
            rounds,
            log_domain_size,
            log_domain_size - (shape.log_y + coset_bits),
            log_domain_size - (shape.log_y + coset_bits) + n,
        ),
        0 <= n <= shape.log_y,
        0 <= coset < pow2(coset_bits),
        shape.log_y + coset_bits <= log_domain_size,
        n > 0 ==> (coset + 1) * pow2((shape.log_y - 1) as nat) <= usize::MAX + 1,
    ensures
        rounds_ready(
            rounds.subrange(
                log_domain_size - (shape.log_y + coset_bits),
                rounds.len() as int,
            ),
            shape,
            coset,
            n,
        ),
{
    let off = log_domain_size - (shape.log_y + coset_bits);
    let sub = rounds.subrange(off, rounds.len() as int);
    assert forall|i: int| 0 <= i < n implies has_blocks(
        #[trigger] sub[i],
        shape,
        i,
        coset * pow2((shape.log_y - 1 - i) as nat),
    ) by {
        let e = (shape.log_y - 1 - i) as nat;
        let nb = pow2(e) as int;
        assert(sub[i] == rounds[off + i]);
        lemma_pow2_pos(e);
        lemma_pow2_adds(coset_bits, e);
        lemma_digits_below(coset, nb, 0, pow2(coset_bits) as int);
        assert((coset + 1) * nb == coset * nb + nb) by (nonlinear_arith);
        lemma_pow2_monotone(coset_bits + e, sub[i].log_len());
        lemma_pow2_monotone(e, (shape.log_y - 1) as nat);
        lemma_mul_inequality(nb, pow2((shape.log_y - 1) as nat) as int, coset + 1);
        lemma_mul_is_commutative(nb, coset + 1);
        lemma_mul_is_commutative(pow2((shape.log_y - 1) as nat) as int, coset + 1);
    }
}

/// Performs the forward transform on data of at least two vectors.
fn forward_transform_vectors<F: BinaryField, P: PackedField<Scalar = F>, TA: TwiddleAccess<F>>(
    data: &mut [P],
    s_evals: &[TA],
    shape: NTTShape,
    coset: usize,
    skip_rounds: usize,
)
    requires
        skip_rounds <= shape.log_y,
        is_pow2(old(data)@.len() as int),
        old(data)@.len() >= 2,
        batch_fits(old(data)@.len(), P::log_w(), shape),
        old(data)@.len() * pow2(P::log_w()) <= usize::MAX,
        rounds_ready(s_evals@, shape, coset as int, shape.log_y - skip_rounds),
        shape.log_x < P::log_w() ==> rounds_linear(
            s_evals@,
            rounds_within(shape, P::log_w() - shape.log_x, skip_rounds as int),
        ),
    ensures
        final(data)@.len() == old(data)@.len(),
        flat(final(data)@) == forward_rounds(
            flat(old(data)@),
            shape,
            P::log_w(),
            twiddles_at(s_evals@, shape, coset as int),
            0,
            shape.log_y - skip_rounds,
        ),
{
    let ghost m = flat(data@);
    let ghost tw = twiddles_at(s_evals@, shape, coset as int);
    let ghost top = shape.log_y - skip_rounds;
    proof {
        lemma_width_fits(data@.len(), P::log_w());
        lemma_vectors_full(data@.len(), P::log_w(), shape);
    }
    let log_w = P::log_width();
    // The cutoff is the round from which on the butterflies pair whole vectors.
    let cutoff = if log_w > shape.log_x {
        log_w - shape.log_x
    } else {
        0
    };
    if shape.log_y > skip_rounds {
        forward_transform_above_cutoff(data, s_evals, shape, coset, cutoff, skip_rounds);
    }
    if cutoff > 0 {
        forward_transform_below_cutoff(data, s_evals, shape, coset, cutoff, skip_rounds);
    }
    proof {
        if cutoff < top {
            lemma_forward_rounds_compose(m, shape, P::log_w(), tw, 0, cutoff as int, top);
        }
    }
}

/// The width of a vector fits if the size of the data does.
proof fn lemma_width_fits(len: nat, log_w: nat)
    requires
        len >= 1,
        len * pow2(log_w) <= usize::MAX,
    ensures
        0 < pow2(log_w) <= usize::MAX,
{
    lemma_pow2_pos(log_w);
    assert(pow2(log_w) <= len * pow2(log_w)) by (nonlinear_arith)
        requires
            len >= 1,
            pow2(log_w) > 0,
    ;
}

/// Where a round pairs whole vectors, the data has exactly the shape.
proof fn lemma_vectors_full(len: nat, log_w: nat, shape: NTTShape)
    requires
        len >= 2,
        batch_fits(len, log_w, shape),
    ensures
        shape.log_x + shape.log_y > log_w ==> pow2(shape.log_size()) == len * pow2(log_w),
{
    if shape.log_x + shape.log_y > log_w {
        lemma_pow2_monotone(log_w + 1, shape.log_size());
        lemma_pow2_unfold(log_w + 1);
    }
}

/// The numbers of a request to transform data fit in a machine word: also the indices of the
/// twiddle factors, and the second vector that a single one is transformed with.
pub open spec fn transform_in_range(
    log_domain_size: nat,
    len: nat,
    log_w: nat,
    shape: NTTShape,
    coset: usize,
    coset_bits: usize,
    skip_rounds: usize,
) -> bool {
    &&& request_in_range(len, log_w, shape, coset_bits, skip_rounds)
    &&& request_error(
        log_domain_size,
        len,
        log_w,
        shape,
        coset,
        coset_bits,
        skip_rounds,
    ) is None ==> {
        &&& skip_rounds < shape.log_y ==> (coset + 1) * pow2((shape.log_y - 1) as nat)
            <= usize::MAX + 1
        &&& len == 1 ==> 2 * pow2(log_w) <= usize::MAX
    }
}

/// The twiddle access covers the rounds that a request needs, if it needs any. Where butterflies
/// lie within vectors, twiddle factors are computed from others, so they are linear.
pub open spec fn rounds_usable<F: BinaryField, TA: TwiddleAccess<F>>(
    rounds: Seq<TA>,
    log_domain_size: nat,
    len: nat,
    log_w: nat,
    shape: NTTShape,
    coset_bits: usize,
    skip_rounds: usize,
) -> bool {
    let first = log_domain_size - (shape.log_y + coset_bits);
    len > 1 || log_w > 0 ==> {
        &&& rounds_cover(
            rounds,
            log_domain_size as int,
            first,
            first + shape.log_y - skip_rounds,
        )
        &&& shape.log_x < log_w ==> rounds_linear(
            rounds.subrange(first, rounds.len() as int),
            rounds_within(shape, log_w - shape.log_x, skip_rounds as int),
        )
    }
}

/// Transforms the data from coefficients to values on a coset of the domain.
pub fn forward_transform<F: BinaryField, P: PackedField<Scalar = F>, TA: TwiddleAccess<F>>(
    log_domain_size: usize,
    s_evals: &[TA],
    data: &mut [P],
    shape: NTTShape,
    coset: usize,
    coset_bits: usize,
    skip_rounds: usize,
) -> (r: Result<(), Error>)
    requires
        transform_in_range(
            log_domain_size as nat,
            old(data)@.len(),
            P::log_w(),
            shape,
            coset,
            coset_bits,
            skip_rounds,
        ),
        request_error(
            log_domain_size as nat,
            old(data)@.len(),
            P::log_w(),
            shape,
            coset,
            coset_bits,
            skip_rounds,
        ) is None ==> rounds_usable(
            s_evals@,
            log_domain_size as nat,
            old(data)@.len(),
            P::log_w(),
            shape,
            coset_bits,
            skip_rounds,
        ),
    ensures
        match request_error(
            log_domain_size as nat,
            old(data)@.len(),
            P::log_w(),
            shape,
            coset,
            coset_bits,
            skip_rounds,
        ) {
            Some(e) => r == Err::<(), Error>(e) && final(data)@ == old(data)@,
            None => {
                &&& r == Ok::<(), Error>(())
                &&& final(data)@.len() == old(data)@.len()
                &&& flat(final(data)@) == forward_rounds(
                    flat(old(data)@),
                    shape,
                    P::log_w(),
                    coset_twiddles(
                        s_evals@,
                        log_domain_size as int,
                        shape,
                        coset as int,
                        coset_bits as int,
                    ),
                    0,
                    shape.log_y - skip_rounds,
                )
            },
        },
{
    match check_batch_transform_inputs_and_params(
        log_domain_size,
        data,
        shape,
        coset,
        coset_bits,
        skip_rounds,
    ) {
        Ok(()) => {},
        Err(e) => {
            return Err(e);
        },
    }
    let ghost start = data@;
    let ghost top = shape.log_y - skip_rounds;
    if data.len() == 1 && P::log_width() == 0 {
        proof {
            lemma_pow2_order(shape.log_size(), 0);
        }
        return Ok(());
    }
    proof {
        lemma_is_pow2_exponent(start.len() as int);
        lemma2_to64();
        reveal(is_pow2);
        lemma_rounds_ready(
            s_evals@,
            log_domain_size as int,
            shape,
            coset as int,
            coset_bits as nat,
            top,
        );
    }
    // Choose the twiddle factors so that transforms on domains of different sizes, with the same
    // number of cosets, share those of the last rounds.
    let rounds = slice_subrange(
        s_evals,
        log_domain_size - (shape.log_y + coset_bits),
        s_evals.len(),
    );
    if data.len() == 1 {
        proof {
            lemma_pow2_order(shape.log_size(), P::log_w());
        }
        // A single vector has no other one to be interleaved with: transform it together with
        // a vector of zeros.
        let mut buffer: [P; 2] = [data[0], P::zeros()];
        proof {
            lemma_pow2_is_pow2(1);
        }
        let ghost pair = buffer@;
        forward_transform_vectors(&mut buffer, rounds, shape, coset, skip_rounds);
        data[0] = buffer[0];
        proof {
            lemma_flat_first(pair, start);
            lemma_flat_first(buffer@, data@);
            lemma_rounds_prefix(
                flat(pair),
                shape,
                P::log_w(),
                twiddles_at(rounds@, shape, coset as int),
                0,
                top,
            );
        }
    } else {
        forward_transform_vectors(data, rounds, shape, coset, skip_rounds);
    }
    Ok(())
}

/// Performs the inverse transform on data of at least two vectors.
fn inverse_transform_vectors<F: BinaryField, P: PackedField<Scalar = F>, TA: TwiddleAccess<F>>(
    data: &mut [P],
    s_evals: &[TA],
    shape: NTTShape,
    coset: usize,
    skip_rounds: usize,
)
    requires
        skip_rounds <= shape.log_y,
        is_pow2(old(data)@.len() as int),
        old(data)@.len() >= 2,
        batch_fits(old(data)@.len(), P::log_w(), shape),
        old(data)@.len() * pow2(P::log_w()) <= usize::MAX,
        rounds_ready(s_evals@, shape, coset as int, shape.log_y - skip_rounds),
        shape.log_x < P::log_w() ==> rounds_linear(
            s_evals@,
            rounds_within(shape, P::log_w() - shape.log_x, skip_rounds as int),
        ),
    ensures
        final(data)@.len() == old(data)@.len(),
        flat(final(data)@) == inverse_rounds(
            flat(old(data)@),
            shape,
            P::log_w(),
            twiddles_at(s_evals@, shape, coset as int),
            0,
            shape.log_y - skip_rounds,
        ),
{
    let ghost start = data@;
    let ghost tw = twiddles_at(s_evals@, shape, coset as int);
    proof {
        lemma_width_fits(data@.len(), P::log_w());
        lemma_vectors_full(data@.len(), P::log_w(), shape);
    }
    let log_w = P::log_width();
    // The cutoff is the round from which on the butterflies pair whole vectors.
    let cutoff = if log_w > shape.log_x {
        log_w - shape.log_x
    } else {
        0
    };
    let top = shape.log_y - skip_rounds;
    let mut i: usize = 0;
    while i < top
        invariant
            i <= top,
            top == shape.log_y - skip_rounds,
            log_w == P::log_w(),
            log_w > shape.log_x ==> cutoff == log_w - shape.log_x,
            log_w <= shape.log_x ==> cutoff == 0,
            is_pow2(start.len() as int),
            start.len() >= 2,
            batch_fits(start.len(), P::log_w(), shape),
            start.len() * pow2(P::log_w()) <= usize::MAX,
            shape.log_x + shape.log_y > log_w ==> pow2(shape.log_size()) == start.len() * pow2(
                P::log_w(),
            ),
            rounds_ready(s_evals@, shape, coset as int, top as int),
            shape.log_x < P::log_w() ==> rounds_linear(
                s_evals@,
                rounds_within(shape, P::log_w() - shape.log_x, skip_rounds as int),
            ),
            tw == twiddles_at(s_evals@, shape, coset as int),
            data@.len() == start.len(),
            flat(data@) == inverse_rounds(
                flat(start),
                shape,
                P::log_w(),
                tw,
                0,
                i as int,
            ),
        decreases top - i,
    {
        let s_evals_i = &s_evals[i];
        let ghost m = flat(data@);
        let ghost nb = pow2((shape.log_y - 1 - i) as nat) as int;
        proof {
            assert(has_blocks(s_evals@[i as int], shape, i as int, coset * nb));
        }
        if i < cutoff {
            proof {
                assert(s_evals@[i as int].shift() == F::f_zero());
            }
            inverse_round_below_cutoff(data, s_evals_i, shape, coset, i);
        } else {
            proof {
                assert(pairs_vectors(start.len(), P::log_w(), shape, i as int));
                lemma_vector_dims(start.len(), P::log_w(), shape, i as int);
                lemma_coset_offset(s_evals@[i as int], shape, i as int, coset as int);
            }
            let coset_offset = coset * pow2_usize(shape.log_y - 1 - i);
            round_above_cutoff(true, data, s_evals_i, shape, i, coset_offset);
        }
        proof {
            let tw2 = layer_twiddles(*s_evals_i, coset * nb);
            lemma_round_ext(true, m, shape, P::log_w(), tw2, tw, i as int);
        }
        i = i + 1;
    }
}

/// Transforms the data from values on a coset of the domain to coefficients.
pub fn inverse_transform<F: BinaryField, P: PackedField<Scalar = F>, TA: TwiddleAccess<F>>(
    log_domain_size: usize,
    s_evals: &[TA],
    data: &mut [P],
    shape: NTTShape,
    coset: usize,
    coset_bits: usize,
    skip_rounds: usize,
) -> (r: Result<(), Error>)
    requires
        transform_in_range(
            log_domain_size as nat,
            old(data)@.len(),
            P::log_w(),
            shape,
            coset,
            coset_bits,
            skip_rounds,
        ),
        request_error(
            log_domain_size as nat,
            old(data)@.len(),
            P::log_w(),
            shape,
            coset,
            coset_bits,
            skip_rounds,
        ) is None ==> rounds_usable(
            s_evals@,
            log_domain_size as nat,
            old(data)@.len(),
            P::log_w(),
            shape,
            coset_bits,
            skip_rounds,
        ),
    ensures
        match request_error(
            log_domain_size as nat,
            old(data)@.len(),
            P::log_w(),
            shape,
            coset,
            coset_bits,
            skip_rounds,
        ) {
            Some(e) => r == Err::<(), Error>(e) && final(data)@ == old(data)@,
            None => {
                &&& r == Ok::<(), Error>(())
                &&& final(data)@.len() == old(data)@.len()
                &&& flat(final(data)@) == inverse_rounds(
                    flat(old(data)@),
                    shape,
                    P::log_w(),
                    coset_twiddles(
                        s_evals@,
                        log_domain_size as int,
                        shape,
                        coset as int,
                        coset_bits as int,
                    ),
                    0,
                    shape.log_y - skip_rounds,
                )
            },
        },
{
    match check_batch_transform_inputs_and_params(
        log_domain_size,
        data,
        shape,
        coset,
        coset_bits,
        skip_rounds,
    ) {
        Ok(()) => {},
        Err(e) => {
            return Err(e);
        },
    }
    let ghost start = data@;
    let ghost top = shape.log_y - skip_rounds;
    if data.len() == 1 && P::log_width() == 0 {
        proof {
            lemma_pow2_order(shape.log_size(), 0);
        }
        return Ok(());
    }
    proof {
        lemma_is_pow2_exponent(start.len() as int);
        lemma2_to64();
        reveal(is_pow2);
        lemma_rounds_ready(
            s_evals@,
            log_domain_size as int,
            shape,
            coset as int,
            coset_bits as nat,
            top,
        );
    }
    // Choose the twiddle factors so that transforms on domains of different sizes, with the same
    // number of cosets, share those of the last rounds.
    let rounds = slice_subrange(
        s_evals,
        log_domain_size - (shape.log_y + coset_bits),
        s_evals.len(),
    );
    if data.len() == 1 {
        proof {
            lemma_pow2_order(shape.log_size(), P::log_w());
        }
        // A single vector has no other one to be interleaved with: transform it together with
        // a vector of zeros.
        let mut buffer: [P; 2] = [data[0], P::zeros()];
        proof {
            lemma_pow2_is_pow2(1);
        }
        let ghost pair = buffer@;
        inverse_transform_vectors(&mut buffer, rounds, shape, coset, skip_rounds);
        data[0] = buffer[0];
        proof {
            lemma_flat_first(pair, start);
            lemma_flat_first(buffer@, data@);
            lemma_rounds_prefix(
                flat(pair),
                shape,
                P::log_w(),
                twiddles_at(rounds@, shape, coset as int),
                0,
                top,
            );
        }
    } else {
        inverse_transform_vectors(data, rounds, shape, coset, skip_rounds);
    }
    Ok(())
}

/// The additive transform over a domain, run on a single thread.
///
/// `TA` gives access to the twiddle factors: computed when they are needed, or tabulated.
#[derive(Debug)]
pub struct SingleThreadedNTT<F: BinaryField, TA: TwiddleAccess<F> = OnTheFlyTwiddleAccess<F>> {
    s_evals: Vec<TA>,
    _marker: PhantomData<F>,
}

impl<F: BinaryField, TA: TwiddleAccess<F>> View for SingleThreadedNTT<F, TA> {
    type V = Seq<TA>;

    closed spec fn view(&self) -> Seq<TA> {
        self.s_evals@
    }
}

/// There is only one basis of unit vectors.
proof fn lemma_unit_basis<F: BinaryField>(c: Seq<F>)
    requires
        forall|i: int, j: nat| 0 <= i < c.len() ==> (#[trigger] c[i].f_coord(j) == (i == j)),
    ensures
        forall|b: Seq<F>|
            b.len() == c.len() && (forall|i: int, j: nat|
                0 <= i < b.len() ==> (#[trigger] b[i].f_coord(j) == (i == j))) ==> b == c,
{
    assert forall|b: Seq<F>|
        b.len() == c.len() && (forall|i: int, j: nat|
            0 <= i < b.len() ==> (#[trigger] b[i].f_coord(j) == (i == j))) implies b == c by {
        lemma_same_coords(b, c);
    }
}

impl<F: BinaryField> SingleThreadedNTT<F> {
    /// Constructs the transform over the subspace that the first `log_domain_size` elements of
    /// the canonical basis span.
    pub fn new(log_domain_size: usize) -> (r: Result<Self, Error>)
        requires
            F::n_bits() <= usize::MAX,
        ensures
            match r {
                Ok(ntt) => {
                    &&& log_domain_size <= F::n_bits()
                    &&& ntt.over(canonical_basis::<F>(log_domain_size as nat))
                    &&& ntt.wf()
                    &&& ntt@.len() == log_domain_size
                    &&& forall|b: Seq<F>|
                        b.len() == log_domain_size && (forall|i: int, j: nat|
                            0 <= i < b.len() ==> (#[trigger] b[i].f_coord(j) == (i == j)))
                            ==> #[trigger] ntt.over(b)
                },
                Err(e) => log_domain_size > F::n_bits() && e == Error::MathError(
                    MathError::DomainSizeTooLarge,
                ),
            },
    {
        match BinarySubspace::<F>::with_dim(log_domain_size) {
            Ok(subspace) => {
                proof {
                    lemma_unit_basis(subspace@);
                }
                Self::with_subspace(&subspace)
            },
            Err(e) => Err(Error::MathError(e)),
        }
    }

    /// Constructs the transform over the image of the subspace that the first `log_domain_size`
    /// elements of the canonical basis of another field span.
    pub fn with_domain_field<FDomain>(log_domain_size: usize) -> (r: Result<Self, Error>) where
        FDomain: BinaryField,
        F: FieldEmbedding<FDomain>,

        requires
            FDomain::n_bits() <= usize::MAX,
        ensures
            match r {
                Ok(ntt) => {
                    &&& log_domain_size <= FDomain::n_bits()
                    &&& ntt.over(
                        embedded::<FDomain, F>(canonical_basis::<FDomain>(log_domain_size as nat)),
                    )
                    &&& ntt.wf()
                    &&& ntt@.len() == log_domain_size
                    &&& forall|b: Seq<F>|
                        b.len() == log_domain_size && (forall|i: int, j: nat|
                            0 <= i < b.len() ==> (#[trigger] b[i].f_coord(j) == (i == j)))
                            ==> #[trigger] ntt.over(b)
                },
                Err(e) => log_domain_size > FDomain::n_bits() && e == Error::MathError(
                    MathError::DomainSizeTooLarge,
                ),
            },
    {
        match BinarySubspace::<FDomain>::with_dim(log_domain_size) {
            Ok(subspace) => {
                let image = subspace.isomorphic::<F>();
                proof {
                    lemma_unit_basis(image@);
                }
                Self::with_subspace(&image)
            },
            Err(e) => Err(Error::MathError(e)),
        }
    }

    /// Constructs the transform over a subspace.
    pub fn with_subspace(subspace: &BinarySubspace<F>) -> (r: Result<Self, Error>)
        requires
            subspace.wf(),
        ensures
            match r {
                Ok(ntt) => ntt.wf() && ntt.over(subspace@),
                Err(_) => false,
            },
    {
        let twiddle_access = OnTheFlyTwiddleAccess::generate(subspace);
        Ok(Self::with_twiddle_access(twiddle_access))
    }

    /// Tabulates the twiddle factors.
    pub fn precompute_twiddles(&self) -> (r: SingleThreadedNTT<F, PrecomputedTwiddleAccess<F>>)
        requires
            self.wf(),
            self@.len() <= usize::BITS,
        ensures
            r.wf(),
            same_twiddles(self@, r@),
            forall|b: Seq<F>| #[trigger] self.over(b) ==> r.over(b),
    {
        let r = SingleThreadedNTT::with_twiddle_access(
            expand_subspace_evals(self.s_evals.as_slice()),
        );
        proof {
            assert forall|b: Seq<F>| #[trigger] self.over(b) implies r.over(b) by {
                assert forall|i: int| 0 <= i < b.len() implies round_of(#[trigger] r@[i], b, i) by {
                    assert(round_of(self@[i], b, i));
                }
            }
        }
        r
    }
}

impl<F: TowerField> SingleThreadedNTT<F> {
    /// A specialization of [`with_domain_field`](Self::with_domain_field) to the canonical tower
    /// field.
    pub fn with_canonical_field(log_domain_size: usize) -> (r: Result<Self, Error>) where
        F: FieldEmbedding<<F as TowerField>::Canonical>,

        requires
            <F as TowerField>::Canonical::n_bits() <= usize::MAX,
        ensures
            match r {
                Ok(ntt) => {
                    &&& log_domain_size <= <F as TowerField>::Canonical::n_bits()
                    &&& log_domain_size <= F::n_bits()
                    &&& ntt.over(
                        embedded::<<F as TowerField>::Canonical, F>(
                            canonical_basis::<<F as TowerField>::Canonical>(log_domain_size as nat),
                        ),
                    )
                    &&& ntt.wf()
                    &&& ntt@.len() == log_domain_size
                    &&& forall|b: Seq<F>|
                        b.len() == log_domain_size && (forall|i: int, j: nat|
                            0 <= i < b.len() ==> (#[trigger] b[i].f_coord(j) == (i == j)))
                            ==> #[trigger] ntt.over(b)
                },
                Err(e) => {
                    &&& log_domain_size > <F as TowerField>::Canonical::n_bits()
                    &&& log_domain_size > F::n_bits()
                    &&& e == Error::MathError(MathError::DomainSizeTooLarge)
                },
            },
    {
        proof {
            F::law_canonical();
        }
        Self::with_domain_field::<<F as TowerField>::Canonical>(log_domain_size)
    }
}

impl<F: BinaryField, TA: TwiddleAccess<F>> SingleThreadedNTT<F, TA> {
    /// There is one round for each dimension of the domain, with half as many twiddle factors as
    /// the round before, and the twiddle factors are linear in the binary digits of the index.
    pub open spec fn wf(&self) -> bool {
        forall|i: int|
            0 <= i < self@.len() ==> {
                &&& (#[trigger] self@[i]).wf()
                &&& self@[i].log_len() == self@.len() - 1 - i
                &&& self@[i].shift() == F::f_zero()
            }
    }

    /// The transform is the one over the domain that `b` spans.
    pub open spec fn over(&self, b: Seq<F>) -> bool {
        &&& self.wf()
        &&& independent(b)
        &&& rounds_of(self@, b)
    }

    /// Makes a transform of the twiddle access of its rounds.
    fn with_twiddle_access(twiddle_access: Vec<TA>) -> (r: Self)
        ensures
            r@ == twiddle_access@,
    {
        SingleThreadedNTT { s_evals: twiddle_access, _marker: PhantomData }
    }

    /// Returns the twiddle access of the rounds.
    pub fn twiddles(&self) -> (r: &[TA])
        ensures
            r@ == self@,
    {
        self.s_evals.as_slice()
    }

    /// Returns the binary logarithm of the size of the domain.
    pub fn log_domain_size(&self) -> (r: usize)
        ensures
            r == self@.len(),
    {
        self.s_evals.len()
    }

    /// Returns the domain of dimension `i` over which the last `i` rounds are a transform.
    pub fn subspace(&self, i: usize) -> (r: BinarySubspace<F>)
        requires
            self.wf(),
            1 <= i <= self@.len(),
        ensures
            r@ == seq![F::f_one()] + self@[self@.len() - i].basis(),
            r@.len() == i,
            forall|b: Seq<F>| #[trigger]
                self.over(b) ==> r.wf() && r@ == round_domain(b, (b.len() - i) as nat),
    {
        let access = &self.s_evals[self.s_evals.len() - i];
        proof {
            access.law_basis();
        }
        let (subspace, _shift) = access.affine_subspace();
        proof {
            assert forall|b: Seq<F>| #[trigger] self.over(b) implies subspace.wf() && subspace@
                == round_domain(b, (b.len() - i) as nat) by {
                assert(round_of(self@[self@.len() - i], b, b.len() - i));
                lemma_round_domain_independent(b, (b.len() - i) as nat);
            }
        }
        subspace
    }

    /// Returns twiddle factor number `j` of the round in which a domain of dimension `i` is left.
    pub fn get_subspace_eval(&self, i: usize, j: usize) -> (r: F)
        requires
            self.wf(),
            1 <= i <= self@.len(),
            j < pow2((i - 1) as nat),
        ensures
            r == twiddle(self@[self@.len() - i], j as int),
    {
        self.s_evals[self.s_evals.len() - i].get(j)
    }

    /// Transforms the data from coefficients to values on a coset of the domain.
    pub fn forward_transform<P: PackedField<Scalar = F>>(
        &self,
        data: &mut [P],
        shape: NTTShape,
        coset: usize,
        coset_bits: usize,
        skip_rounds: usize,
    ) -> (r: Result<(), Error>)
        requires
            self.wf(),
            transform_in_range(
                self@.len(),
                old(data)@.len(),
                P::log_w(),
                shape,
                coset,
                coset_bits,
                skip_rounds,
            ),
        ensures
            match request_error(
                self@.len(),
                old(data)@.len(),
                P::log_w(),
                shape,
                coset,
                coset_bits,
                skip_rounds,
            ) {
                Some(e) => r == Err::<(), Error>(e) && final(data)@ == old(data)@,
                None => {
                    &&& r == Ok::<(), Error>(())
                    &&& final(data)@.len() == old(data)@.len()
                    &&& flat(final(data)@) == forward_rounds(
                        flat(old(data)@),
                        shape,
                        P::log_w(),
                        coset_twiddles(
                            self@,
                            self@.len() as int,
                            shape,
                            coset as int,
                            coset_bits as int,
                        ),
                        0,
                        shape.log_y - skip_rounds,
                    )
                },
            },
    {
        forward_transform(
            self.log_domain_size(),
            self.s_evals.as_slice(),
            data,
            shape,
            coset,
            coset_bits,
            skip_rounds,
        )
    }

    /// Transforms the data from values on a coset of the domain to coefficients.
    pub fn inverse_transform<P: PackedField<Scalar = F>>(
        &self,
        data: &mut [P],
        shape: NTTShape,
        coset: usize,
        coset_bits: usize,
        skip_rounds: usize,
    ) -> (r: Result<(), Error>)
        requires
            self.wf(),
            transform_in_range(
                self@.len(),
                old(data)@.len(),
                P::log_w(),
                shape,
                coset,
                coset_bits,
                skip_rounds,
            ),
        ensures
            match request_error(
                self@.len(),
                old(data)@.len(),
                P::log_w(),
                shape,
                coset,
                coset_bits,
                skip_rounds,
            ) {
                Some(e) => r == Err::<(), Error>(e) && final(data)@ == old(data)@,
                None => {
                    &&& r == Ok::<(), Error>(())
                    &&& final(data)@.len() == old(data)@.len()
                    &&& flat(final(data)@) == inverse_rounds(
                        flat(old(data)@),
                        shape,
                        P::log_w(),
                        coset_twiddles(
                            self@,
                            self@.len() as int,
                            shape,
                            coset as int,
                            coset_bits as int,
                        ),
                        0,
                        shape.log_y - skip_rounds,
                    )
                },
            },
    {
        inverse_transform(
            self.log_domain_size(),
            self.s_evals.as_slice(),
            data,
            shape,
            coset,
            coset_bits,
            skip_rounds,
        )
    }
}

} // verus!
