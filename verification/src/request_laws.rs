//! Which requests are accepted, and what is asked of the callers.
use vstd::arithmetic::power2::*;
use vstd::prelude::*;

use crate::arith::{lemma_is_pow2_exponent, lemma_pow2_is_pow2};
use crate::error::Error;
use crate::field::BinaryField;
use crate::interleave::pairs_lanes;
use crate::progress::{has_blocks, has_joined_blocks, pairs_vectors, rounds_ready};
use crate::shape::NTTShape;
use crate::single_threaded::{
    request_error, request_in_range, rounds_linear, rounds_usable, rounds_within,
    transform_in_range, SingleThreadedNTT,
};
use crate::twiddle::TwiddleAccess;

verus! {

/// A request is accepted exactly if the length of the data is a power of two, no more rounds are
/// skipped than there are, the data has the shape (one or two vectors may also be larger), the
/// coset exists, and the domain is large enough.
pub proof fn law_accepted(
    log_domain_size: nat,
    len: nat,
    log_w: nat,
    shape: NTTShape,
    coset: usize,
    coset_bits: usize,
    skip_rounds: usize,
)
    ensures
        request_error(
            log_domain_size,
            len,
            log_w,
            shape,
            coset,
            coset_bits,
            skip_rounds,
        ) is None <==> {
            &&& exists|d: nat| len == #[trigger] pow2(d)
            &&& skip_rounds <= shape.log_y
            &&& len > 2 ==> len * pow2(log_w) == pow2(
                (shape.log_x + shape.log_y + shape.log_z) as nat,
            )
            &&& len * pow2(log_w) >= pow2((shape.log_x + shape.log_y + shape.log_z) as nat)
            &&& coset < pow2(coset_bits as nat)
            &&& shape.log_y + coset_bits <= log_domain_size
        },
{
    lemma_power_of_two(len);
}

/// A length is a power of two exactly if there is an exponent.
proof fn lemma_power_of_two(len: nat)
    ensures
        is_pow2(len as int) <==> exists|d: nat| len == #[trigger] pow2(d),
{
    if is_pow2(len as int) {
        let d = lemma_is_pow2_exponent(len as int);
        assert(len == pow2(d));
    }
    if exists|d: nat| len == #[trigger] pow2(d) {
        let d = choose|d: nat| len == #[trigger] pow2(d);
        lemma_pow2_is_pow2(d);
    }
}

/// Each error is reported exactly where its own condition is the first one to fail.
pub proof fn law_refused(
    log_domain_size: nat,
    len: nat,
    log_w: nat,
    shape: NTTShape,
    coset: usize,
    coset_bits: usize,
    skip_rounds: usize,
)
    requires
        shape.log_y + coset_bits <= usize::MAX,
    ensures
        ({
            let e = request_error(
                log_domain_size,
                len,
                log_w,
                shape,
                coset,
                coset_bits,
                skip_rounds,
            );
            let size = pow2((shape.log_x + shape.log_y + shape.log_z) as nat);
            let length_ok = exists|d: nat| len == #[trigger] pow2(d);
            let skip_ok = skip_rounds <= shape.log_y;
            let shape_ok = len * pow2(log_w) == size || len <= 2 && len * pow2(log_w) > size;
            let coset_ok = coset < pow2(coset_bits as nat);
            let domain_ok = shape.log_y + coset_bits <= log_domain_size;
            &&& !length_ok <==> e == Some(Error::PowerOfTwoLengthRequired)
            &&& length_ok && !skip_ok <==> e == Some(Error::SkipRoundsTooLarge)
            &&& length_ok && skip_ok && !shape_ok <==> e == Some(Error::BatchTooLarge)
            &&& length_ok && skip_ok && shape_ok && !coset_ok <==> e == Some(
                Error::CosetIndexOutOfBounds { coset, coset_bits },
            )
            &&& length_ok && skip_ok && shape_ok && coset_ok && !domain_ok <==> e == Some(
                Error::DomainTooSmall {
                    log_required_domain_size: (shape.log_y + coset_bits) as usize,
                },
            )
        }),
{
    lemma_power_of_two(len);
}

/// What a request must satisfy to be made at all: its numbers fit in a machine word, as far as they
/// are looked at.
pub proof fn law_request_range(
    log_domain_size: nat,
    len: nat,
    log_w: nat,
    shape: NTTShape,
    coset: usize,
    coset_bits: usize,
    skip_rounds: usize,
)
    requires
        len * pow2(log_w) <= usize::MAX,
        2 * pow2(log_w) <= usize::MAX,
        shape.log_x + shape.log_z < usize::BITS,
        shape.log_y < usize::BITS,
        coset_bits < usize::BITS,
        shape.log_y > 0 ==> (coset + 1) * pow2((shape.log_y - 1) as nat) <= usize::MAX + 1,
    ensures
        request_in_range(len, log_w, shape, coset_bits, skip_rounds),
        transform_in_range(
            log_domain_size,
            len,
            log_w,
            shape,
            coset,
            coset_bits,
            skip_rounds,
        ),
{
}

/// What a request must satisfy to be made, exactly.
pub proof fn law_request_range_exact(
    log_domain_size: nat,
    len: nat,
    log_w: nat,
    shape: NTTShape,
    coset: usize,
    coset_bits: usize,
    skip_rounds: usize,
)
    ensures
        ({
            let size = pow2((shape.log_x + shape.log_y + shape.log_z) as nat);
            let length_ok = exists|d: nat| len == #[trigger] pow2(d);
            let shape_ok = len * pow2(log_w) == size || len <= 2 && len * pow2(log_w) > size;
            let looked_at = length_ok && skip_rounds <= shape.log_y;
            request_in_range(len, log_w, shape, coset_bits, skip_rounds) <==> {
                &&& pow2(log_w) <= usize::MAX
                &&& looked_at ==> len * pow2(log_w) <= usize::MAX
                &&& looked_at ==> shape.log_x + shape.log_z < usize::BITS
                &&& looked_at ==> shape.log_y < usize::BITS
                &&& looked_at && shape_ok ==> coset_bits < usize::BITS
            }
        }),
        transform_in_range(
            log_domain_size,
            len,
            log_w,
            shape,
            coset,
            coset_bits,
            skip_rounds,
        ) <==> {
            let accepted = request_error(
                log_domain_size,
                len,
                log_w,
                shape,
                coset,
                coset_bits,
                skip_rounds,
            ) is None;
            &&& request_in_range(len, log_w, shape, coset_bits, skip_rounds)
            &&& accepted && skip_rounds < shape.log_y ==> (coset + 1) * pow2(
                (shape.log_y - 1) as nat,
            ) <= usize::MAX + 1
            &&& accepted && len == 1 ==> 2 * pow2(log_w) <= usize::MAX
        },
{
    lemma_power_of_two(len);
}

/// Requests that are refused before their numbers are looked at can always be made.
pub proof fn law_refused_range(
    log_domain_size: nat,
    len: nat,
    log_w: nat,
    shape: NTTShape,
    coset: usize,
    coset_bits: usize,
    skip_rounds: usize,
)
    requires
        pow2(log_w) <= usize::MAX,
        !(exists|d: nat| len == #[trigger] pow2(d)) || skip_rounds > shape.log_y,
    ensures
        request_in_range(len, log_w, shape, coset_bits, skip_rounds),
        transform_in_range(
            log_domain_size,
            len,
            log_w,
            shape,
            coset,
            coset_bits,
            skip_rounds,
        ),
{
    lemma_power_of_two(len);
}

/// The twiddle access of a constructed transform serves every request that is accepted.
pub proof fn law_constructed_rounds<F: BinaryField, TA: TwiddleAccess<F>>(
    ntt: SingleThreadedNTT<F, TA>,
    b: Seq<F>,
    len: nat,
    log_w: nat,
    shape: NTTShape,
    coset_bits: usize,
    skip_rounds: usize,
)
    requires
        ntt.over(b),
        skip_rounds <= shape.log_y,
        shape.log_y + coset_bits <= b.len(),
    ensures
        ntt.wf(),
        ntt@.len() == b.len(),
        rounds_usable(ntt@, b.len(), len, log_w, shape, coset_bits, skip_rounds),
{
}

/// What a request asks of the twiddle access: the factors of its rounds, if there is more than one
/// scalar; and where butterflies lie within vectors, that the factors of those rounds are linear.
pub proof fn law_rounds_usable<F: BinaryField, TA: TwiddleAccess<F>>(
    rounds: Seq<TA>,
    log_domain_size: nat,
    len: nat,
    log_w: nat,
    shape: NTTShape,
    coset_bits: usize,
    skip_rounds: usize,
)
    requires
        shape.log_y + coset_bits <= log_domain_size,
        skip_rounds <= shape.log_y,
        log_domain_size - coset_bits - skip_rounds <= rounds.len(),
        forall|i: int|
            log_domain_size - shape.log_y - coset_bits <= i < log_domain_size - coset_bits
                - skip_rounds ==> {
                &&& (#[trigger] rounds[i]).wf()
                &&& rounds[i].log_len() >= log_domain_size - 1 - i
                &&& i < log_domain_size - shape.log_y - coset_bits + log_w - shape.log_x
                    ==> rounds[i].shift() == F::f_zero()
            },
    ensures
        rounds_usable(rounds, log_domain_size, len, log_w, shape, coset_bits, skip_rounds),
{
    let first = log_domain_size - shape.log_y - coset_bits;
    let sub = rounds.subrange(first, rounds.len() as int);
    if shape.log_x < log_w {
        let n = rounds_within(shape, log_w - shape.log_x, skip_rounds as int);
        assert forall|i: int| 0 <= i < n implies (#[trigger] sub[i]).shift() == F::f_zero() by {
            assert(sub[i] == rounds[first + i]);
        }
    }
}

/// The binary logarithm of the number of scalars of a shape.
pub proof fn law_log_size(shape: NTTShape)
    ensures
        shape.log_size() == shape.log_x + shape.log_y + shape.log_z,
{
}

/// The rounds within vectors that are not skipped.
pub proof fn law_rounds_within(shape: NTTShape, cutoff: int, skip_rounds: int, i: int)
    ensures
        i < rounds_within(shape, cutoff, skip_rounds) <==> i < cutoff && i < shape.log_y
            - skip_rounds,
{
}

/// What is asked for rounds that pair whole vectors, and for rounds within vectors.
pub proof fn law_round_range(len: nat, log_w: nat, shape: NTTShape, i: int)
    requires
        0 <= i < shape.log_y,
        len * pow2(log_w) <= usize::MAX,
    ensures
        ({
            let size = pow2((shape.log_x + shape.log_y + shape.log_z) as nat);
            let length_ok = exists|d: nat| len == #[trigger] pow2(d);
            let shape_ok = len * pow2(log_w) == size || len <= 2 && len * pow2(log_w) > size;
            &&& pairs_vectors(len, log_w, shape, i) <==> log_w <= shape.log_x + i && len * pow2(
                log_w,
            ) == size
            &&& pairs_lanes(len, log_w, shape, i) <==> log_w > shape.log_x + i && len >= 2
                && length_ok && shape_ok
        }),
{
    lemma_power_of_two(len);
}

/// What is asked of the twiddle access.
pub proof fn law_access_range<F: BinaryField, TA: TwiddleAccess<F>>(
    rounds: Seq<TA>,
    shape: NTTShape,
    coset: int,
    n: int,
    i: int,
    offset: int,
)
    requires
        0 <= i < n <= rounds.len(),
        n <= shape.log_y,
        0 <= offset,
        0 <= coset,
    ensures
        rounds[i].wf() && offset + pow2((shape.log_y - 1 - i) as nat) <= pow2(rounds[i].log_len())
            && offset + pow2((shape.log_y - 1 - i) as nat) <= usize::MAX + 1 ==> has_blocks(
            rounds[i],
            shape,
            i,
            offset,
        ),
        rounds[i].wf() && offset < pow2(rounds[i].log_len()) && shape.log_y - 1 - i
            <= rounds[i].log_len() ==> has_joined_blocks(rounds[i], shape, i, offset),
        (forall|r: int|
            0 <= r < n ==> {
                &&& (#[trigger] rounds[r]).wf()
                &&& (coset + 1) * pow2((shape.log_y - 1 - r) as nat) <= pow2(rounds[r].log_len())
                &&& (coset + 1) * pow2((shape.log_y - 1 - r) as nat) <= usize::MAX + 1
            }) ==> rounds_ready(rounds, shape, coset, n),
        (forall|r: int| 0 <= r < n ==> (#[trigger] rounds[r]).shift() == F::f_zero())
            ==> rounds_linear(rounds, n),
{
    if forall|r: int|
        0 <= r < n ==> {
            &&& (#[trigger] rounds[r]).wf()
            &&& (coset + 1) * pow2((shape.log_y - 1 - r) as nat) <= pow2(rounds[r].log_len())
            &&& (coset + 1) * pow2((shape.log_y - 1 - r) as nat) <= usize::MAX + 1
        } {
        assert forall|r: int| 0 <= r < n implies has_blocks(
            #[trigger] rounds[r],
            shape,
            r,
            coset * pow2((shape.log_y - 1 - r) as nat),
        ) by {
            let nb = pow2((shape.log_y - 1 - r) as nat) as int;
            assert((coset + 1) * nb == coset * nb + nb && 0 <= coset * nb) by (nonlinear_arith)
                requires
                    0 <= coset,
                    0 <= nb,
            ;
        }
    }
}

} // verus!
