//! The twiddle factors of the rounds whose butterflies lie within vectors.
use vstd::arithmetic::power2::*;
use vstd::prelude::*;

use crate::arith::{
    lemma_digits, lemma_digits_below, lemma_pow2_fits, lemma_pow2_monotone, low_half, pow2_usize,
};
use crate::field::BinaryField;
use crate::packed::PackedField;
use crate::shape::NTTShape;
use crate::twiddle::{twiddle, TwiddleAccess};

verus! {

/// The index of the twiddle factor for lane `l` of two interleaved vectors, relative to that of
/// the first lane.
///
/// Where axis `y` is longer than a vector, the lanes in upper halves come from the second vector,
/// and their indices are further on by the number of blocks in a vector.
pub open spec fn lane_block(shape: NTTShape, log_w: nat, i: int, l: int) -> int {
    let h = pow2((shape.log_x + i) as nat) as int;
    if shape.log_x + shape.log_y > log_w {
        l / (2 * h) + if low_half(l, h) {
            0
        } else {
            pow2((log_w - shape.log_x - 1 - i) as nat) as int
        }
    } else {
        (l / (2 * h)) % (pow2((shape.log_y - 1 - i) as nat) as int)
    }
}

/// The twiddle factors for the lanes of two interleaved vectors, relative to that of the first
/// lane; zero past the end of the batch.
pub open spec fn lane_twiddles<F: BinaryField, TA: TwiddleAccess<F>>(
    access: TA,
    shape: NTTShape,
    log_w: nat,
    i: int,
) -> Seq<F> {
    Seq::new(
        pow2(log_w),
        |l: int|
            if l < pow2(shape.log_size()) {
                twiddle(access, lane_block(shape, log_w, i, l))
            } else {
                F::f_zero()
            },
    )
}

/// Where a lane of block `n` lies: in the lower half if `up` is zero and in the upper half if it
/// is one.
pub proof fn lemma_lane_position(h: int, n: int, up: int, x: int)
    requires
        0 <= up < 2,
        0 <= x < h,
    ensures
        (n * (2 * h) + up * h + x) / (2 * h) == n,
        low_half(n * (2 * h) + up * h + x, h) == (up == 0),
{
    assert(0 <= up * h + x < 2 * h) by (nonlinear_arith)
        requires
            0 <= up < 2,
            0 <= x < h,
    ;
    lemma_digits(n, 2 * h, up * h + x);
    assert(n * (2 * h) + up * h + x == (2 * n + up) * h + x) by (nonlinear_arith);
    lemma_digits(2 * n + up, h, x);
}

/// Computes the twiddle factors for the lanes of two interleaved vectors, relative to that of the
/// first lane.
pub fn calculate_packed_additive_twiddle<
    F: BinaryField,
    P: PackedField<Scalar = F>,
    TA: TwiddleAccess<F>,
>(s_evals: &TA, shape: NTTShape, ntt_round: usize) -> (r: P)
    requires
        s_evals.wf(),
        pow2(P::log_w()) <= usize::MAX,
        shape.log_size() <= usize::MAX,
        ntt_round < shape.log_y,
        shape.log_x + ntt_round < P::log_w(),
        shape.log_y - 1 - ntt_round <= s_evals.log_len() || P::log_w() - shape.log_x - ntt_round
            <= s_evals.log_len(),
    ensures
        r.lanes() == lane_twiddles(*s_evals, shape, P::log_w(), ntt_round as int),
{
    let NTTShape { log_x, log_y, log_z } = shape;
    let log_w = P::log_width();
    proof {
        lemma_pow2_fits(P::log_w());
    }
    let log_block_len = ntt_round + log_x;
    let log_len = log_x + log_y + log_z;
    let packed_log_len = if log_len < log_w {
        log_len
    } else {
        log_w
    };
    let log_blocks_count = packed_log_len - (log_block_len + 1);
    let packed_log_z = if packed_log_len > log_x + log_y {
        packed_log_len - (log_x + log_y)
    } else {
        0
    };
    let packed_log_y = packed_log_len - packed_log_z - log_x;
    let twiddle_stride = if log_w - log_x < log_blocks_count - packed_log_z {
        log_w - log_x
    } else {
        log_blocks_count - packed_log_z
    };
    let ghost target = lane_twiddles(*s_evals, shape, P::log_w(), ntt_round as int);
    proof {
        lemma_pow2_monotone(packed_log_len as nat, log_w as nat);
        lemma_pow2_monotone(packed_log_len as nat, log_len as nat);
        lemma_pow2_monotone(log_block_len as nat, log_w as nat);
        lemma_pow2_monotone(twiddle_stride as nat, log_w as nat);
        lemma_pow2_monotone((log_blocks_count - twiddle_stride) as nat, log_w as nat);
        lemma_pow2_monotone(twiddle_stride as nat, s_evals.log_len());
        lemma_pow2_adds((log_blocks_count - twiddle_stride) as nat, twiddle_stride as nat);
        lemma_pow2_adds(log_blocks_count as nat, (log_block_len + 1) as nat);
        lemma_pow2_unfold((log_block_len + 1) as nat);
        lemma_pow2_pos(log_block_len as nat);
        lemma2_to64();
    }
    let groups = pow2_usize(log_blocks_count - twiddle_stride);
    let blocks = pow2_usize(twiddle_stride);
    let half = pow2_usize(log_block_len);
    let mut packed = P::zeros();
    let ghost total = pow2(packed_log_len as nat) as int;
    let ghost n = P::log_w();
    proof {
        assert(0 * (2 * half) == 0);
        assert(0 * blocks == 0);
    }
    let mut i: usize = 0;
    while i < groups
        invariant
            i <= groups,
            s_evals.wf(),
            half > 0,
            n == P::log_w(),
            pow2(n) <= usize::MAX,
            half == pow2((shape.log_x + ntt_round) as nat),
            blocks == pow2(twiddle_stride as nat),
            blocks <= pow2(s_evals.log_len()),
            (groups * blocks) * (2 * half) == total,
            total <= pow2(n),
            total <= pow2(shape.log_size()),
            target == lane_twiddles(*s_evals, shape, n, ntt_round as int),
            packed_log_y != log_y ==> {
                &&& shape.log_x + log_y > n
                &&& groups == 1
                &&& twiddle_stride == n - shape.log_x - 1 - ntt_round
                &&& twiddle_stride < s_evals.log_len()
            },
            packed_log_y == log_y ==> shape.log_x + log_y <= n,
            packed_log_y == log_y ==> twiddle_stride == log_y - 1 - ntt_round,
            log_y == shape.log_y,
            packed.lanes().len() == pow2(n),
            forall|l: int|
                0 <= l < (i * blocks) * (2 * half) ==> #[trigger] packed.lanes()[l] == target[l],
            forall|l: int|
                (i * blocks) * (2 * half) <= l < pow2(n) ==> #[trigger] packed.lanes()[l]
                    == F::f_zero(),
        decreases groups - i,
    {
        let mut j: usize = 0;
        while j < blocks
            invariant
                i < groups,
                j <= blocks,
                s_evals.wf(),
                half > 0,
                n == P::log_w(),
                pow2(n) <= usize::MAX,
                half == pow2((shape.log_x + ntt_round) as nat),
                blocks == pow2(twiddle_stride as nat),
                blocks <= pow2(s_evals.log_len()),
                (groups * blocks) * (2 * half) == total,
                total <= pow2(n),
                total <= pow2(shape.log_size()),
                target == lane_twiddles(*s_evals, shape, n, ntt_round as int),
                packed_log_y != log_y ==> {
                    &&& shape.log_x + log_y > n
                    &&& groups == 1
                    &&& twiddle_stride == n - shape.log_x - 1 - ntt_round
                    &&& twiddle_stride < s_evals.log_len()
                },
                packed_log_y == log_y ==> shape.log_x + log_y <= n,
                packed_log_y == log_y ==> twiddle_stride == log_y - 1 - ntt_round,
                log_y == shape.log_y,
                packed.lanes().len() == pow2(n),
                forall|l: int|
                    0 <= l < (i * blocks + j) * (2 * half) ==> #[trigger] packed.lanes()[l]
                        == target[l],
                forall|l: int|
                    (i * blocks + j) * (2 * half) <= l < pow2(n) ==> #[trigger] packed.lanes()[l]
                        == F::f_zero(),
            decreases blocks - j,
        {
            let (subblock_twiddle_0, subblock_twiddle_1) = if packed_log_y == log_y {
                let same_twiddle = s_evals.get(j);
                (same_twiddle, same_twiddle)
            } else {
                s_evals.get_pair(twiddle_stride, j)
            };
            proof {
                lemma_digits_below(i as int, blocks as int, j as int, groups as int);
                lemma_digits_below(i * blocks + j, 2 * half, 0, groups * blocks);
                lemma_digits(i as int, blocks as int, j as int);
                assert((i * blocks + j + 1) * (2 * half) == (i * blocks + j) * (2 * half) + 2
                    * half) by (nonlinear_arith);
            }
            let ghost b = i * blocks + j;
            proof {
                assert(i * blocks + j <= (i * blocks + j) * (2 * half)) by (nonlinear_arith)
                    requires
                        half > 0,
                        i * blocks + j >= 0,
                ;
            }
            let idx0 = (i * blocks + j) * (2 * half);
            let idx1 = idx0 + half;
            let mut k: usize = 0;
            while k < half
                invariant
                    k <= half,
                    half > 0,
                    n == P::log_w(),
                    pow2(n) <= usize::MAX,
                    half == pow2((shape.log_x + ntt_round) as nat),
                    idx0 == b * (2 * half),
                    idx1 == idx0 + half,
                    idx0 + 2 * half <= total,
                    total <= pow2(n),
                    total <= pow2(shape.log_size()),
                    target == lane_twiddles(*s_evals, shape, n, ntt_round as int),
                    packed_log_y != log_y ==> {
                        &&& shape.log_x + log_y > n
                        &&& b == j
                        &&& twiddle_stride == n - shape.log_x - 1 - ntt_round
                        &&& subblock_twiddle_0 == twiddle(*s_evals, j as int)
                        &&& subblock_twiddle_1 == twiddle(
                            *s_evals,
                            j + pow2(twiddle_stride as nat),
                        )
                    },
                    packed_log_y == log_y ==> {
                        &&& shape.log_x + log_y <= n
                        &&& b % (pow2((log_y - 1 - ntt_round) as nat) as int) == j
                        &&& subblock_twiddle_0 == twiddle(*s_evals, j as int)
                        &&& subblock_twiddle_1 == twiddle(*s_evals, j as int)
                    },
                    log_y == shape.log_y,
                    packed.lanes().len() == pow2(n),
                    forall|l: int| 0 <= l < idx0 + k ==> #[trigger] packed.lanes()[l] == target[l],
                    forall|l: int|
                        idx1 <= l < idx1 + k ==> #[trigger] packed.lanes()[l] == target[l],
                    forall|l: int|
                        idx0 + k <= l < idx1 ==> #[trigger] packed.lanes()[l] == F::f_zero(),
                    forall|l: int|
                        idx1 + k <= l < pow2(n) ==> #[trigger] packed.lanes()[l] == F::f_zero(),
                decreases half - k,
            {
                proof {
                    lemma_lane_position(half as int, b, 0, k as int);
                    lemma_lane_position(half as int, b, 1, k as int);
                    assert(target[idx0 + k] == subblock_twiddle_0);
                    assert(target[idx1 + k] == subblock_twiddle_1);
                }
                packed.set(idx0 + k, subblock_twiddle_0);
                packed.set(idx1 + k, subblock_twiddle_1);
                k = k + 1;
            }
            j = j + 1;
        }
        proof {
            assert(i * blocks + blocks == (i + 1) * blocks) by (nonlinear_arith);
        }
        i = i + 1;
    }
    proof {
        assert(packed.lanes() =~= target);
    }
    packed
}

} // verus!
