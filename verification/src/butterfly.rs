//! Butterflies on a block of vectors.
use vstd::arithmetic::power2::*;
use vstd::prelude::*;

use crate::field::BinaryField;
use crate::model::butterfly;
use crate::packed::PackedField;

verus! {

/// The lanes of each vector.
pub open spec fn rows<P: PackedField>(s: Seq<P>) -> Seq<Seq<P::Scalar>> {
    Seq::new(s.len(), |e: int| s[e].lanes())
}

/// The first result of the butterflies on the lanes of two vectors with a common twiddle factor.
pub open spec fn row_first<F: BinaryField>(inverse: bool, u: Seq<F>, v: Seq<F>, t: F) -> Seq<F> {
    Seq::new(u.len(), |l: int| butterfly(inverse, u[l], v[l], t).0)
}

/// The second result of the butterflies on the lanes of two vectors with a common twiddle factor.
pub open spec fn row_second<F: BinaryField>(inverse: bool, u: Seq<F>, v: Seq<F>, t: F) -> Seq<F> {
    Seq::new(u.len(), |l: int| butterfly(inverse, u[l], v[l], t).1)
}

/// One after the other, the butterflies on the pairs of rows `base + l` and `base + stride + l`,
/// for `l` below `n`.
pub open spec fn butterfly_rows<F: BinaryField>(
    inverse: bool,
    m: Seq<Seq<F>>,
    base: int,
    stride: int,
    n: int,
    t: F,
) -> Seq<Seq<F>>
    decreases n,
{
    if n <= 0 {
        m
    } else {
        let p = butterfly_rows(inverse, m, base, stride, n - 1, t);
        let i = base + n - 1;
        let u = p[i];
        let v = p[i + stride];
        p.update(i, row_first(inverse, u, v, t)).update(i + stride, row_second(inverse, u, v, t))
    }
}

/// Where the two halves of the block do not overlap, the butterflies do not depend on one another.
pub proof fn lemma_butterfly_rows<F: BinaryField>(
    inverse: bool,
    m: Seq<Seq<F>>,
    base: int,
    stride: int,
    n: int,
    t: F,
)
    requires
        0 <= n <= stride,
        0 <= base,
        base + stride + n <= m.len(),
    ensures
        butterfly_rows(inverse, m, base, stride, n, t) == Seq::new(
            m.len(),
            |e: int|
                if base <= e < base + n {
                    row_first(inverse, m[e], m[e + stride], t)
                } else if base + stride <= e < base + stride + n {
                    row_second(inverse, m[e - stride], m[e], t)
                } else {
                    m[e]
                },
        ),
    decreases n,
{
    if n > 0 {
        lemma_butterfly_rows(inverse, m, base, stride, n - 1, t);
    }
    assert(butterfly_rows(inverse, m, base, stride, n, t) =~= Seq::new(
        m.len(),
        |e: int|
            if base <= e < base + n {
                row_first(inverse, m[e], m[e + stride], t)
            } else if base + stride <= e < base + stride + n {
                row_second(inverse, m[e - stride], m[e], t)
            } else {
                m[e]
            },
    ));
}

/// Performs the butterflies of a block, or their inverses.
pub(crate) fn butterfly_block<F: BinaryField, P: PackedField<Scalar = F>>(
    inverse: bool,
    data: &mut [P],
    block_base: usize,
    stride: usize,
    block_size: usize,
    twiddle: F,
)
    requires
        block_size > 0 ==> block_base + stride + block_size <= old(data)@.len(),
    ensures
        final(data)@.len() == old(data)@.len(),
        rows(final(data)@) == butterfly_rows(
            inverse,
            rows(old(data)@),
            block_base as int,
            stride as int,
            block_size as int,
            twiddle,
        ),
{
    let t = P::broadcast(twiddle);
    let ghost m = rows(data@);
    let ghost n = data@.len();
    let mut l: usize = 0;
    while l < block_size
        invariant
            l <= block_size,
            n == data@.len(),
            n == data.len(),
            block_size > 0 ==> block_base + stride + block_size <= n,
            t.lanes() == Seq::new(pow2(P::log_w()), |x: int| twiddle),
            rows(data@) == butterfly_rows(
                inverse,
                m,
                block_base as int,
                stride as int,
                l as int,
                twiddle,
            ),
        decreases block_size - l,
    {
        let idx0 = block_base + l;
        let idx1 = idx0 + stride;
        let ghost p = rows(data@);
        let u = data[idx0];
        let v = data[idx1];
        proof {
            u.law_lanes();
            v.law_lanes();
        }
        let (a, b) = if inverse {
            let b = v.add_lanes(u);
            (u.add_lanes(b.mul_lanes(t)), b)
        } else {
            let a = u.add_lanes(v.mul_lanes(t));
            (a, v.add_lanes(a))
        };
        proof {
            assert(a.lanes() =~= row_first(inverse, p[idx0 as int], p[idx1 as int], twiddle));
            assert(b.lanes() =~= row_second(inverse, p[idx0 as int], p[idx1 as int], twiddle));
        }
        data[idx0] = a;
        data[idx1] = b;
        l = l + 1;
        proof {
            assert(rows(data@) =~= p.update(idx0 as int, a.lanes()).update(
                idx1 as int,
                b.lanes(),
            ));
        }
    }
}

/// Performs the butterflies of a block: the vectors `block_base + l` and `block_base + stride + l`
/// are paired, for `l` below `block_size`.
pub fn butterfly_block_simd<F: BinaryField, P: PackedField<Scalar = F>>(
    data: &mut [P],
    block_base: usize,
    stride: usize,
    block_size: usize,
    twiddle: F,
)
    requires
        block_size > 0 ==> block_base + stride + block_size <= old(data)@.len(),
    ensures
        final(data)@.len() == old(data)@.len(),
        rows(final(data)@) == butterfly_rows(
            false,
            rows(old(data)@),
            block_base as int,
            stride as int,
            block_size as int,
            twiddle,
        ),
{
    butterfly_block(false, data, block_base, stride, block_size, twiddle)
}

/// Consecutive elements from position `at` on, replaced by those of `values`.
pub open spec fn overwrite(s: Seq<u32>, at: int, values: Seq<u32>) -> Seq<u32> {
    Seq::new(
        s.len(),
        |i: int|
            if at <= i < at + values.len() {
                values[i - at]
            } else {
                s[i]
            },
    )
}

/// `u + v t`, with wrapping arithmetic, for the elements `u` of the range of length `n` at `at`
/// and the elements `v` of the range `stride` further on.
pub open spec fn wrapping_firsts(s: Seq<u32>, at: int, stride: int, n: nat, t: u32) -> Seq<u32> {
    Seq::new(n, |i: int| s[at + i].wrapping_add(s[at + stride + i].wrapping_mul(t)))
}

/// `v` plus what `wrapping_firsts` gives for it, with wrapping arithmetic.
pub open spec fn wrapping_seconds(s: Seq<u32>, at: int, stride: int, n: nat, t: u32) -> Seq<u32> {
    Seq::new(
        n,
        |i: int|
            s[at + stride + i].wrapping_add(
                s[at + i].wrapping_add(s[at + stride + i].wrapping_mul(t)),
            ),
    )
}

/// The butterflies on a range of `n` elements and the range `stride` further on, all of which are
/// read before any is written.
pub open spec fn wrapping_step(s: Seq<u32>, at: int, stride: int, n: nat, t: u32) -> Seq<u32> {
    overwrite(
        overwrite(s, at, wrapping_firsts(s, at, stride, n, t)),
        at + stride,
        wrapping_seconds(s, at, stride, n, t),
    )
}

/// The butterflies of a block of `n` elements: eight at a time, and the rest one by one.
pub open spec fn wrapping_block(s: Seq<u32>, at: int, stride: int, n: nat, t: u32) -> Seq<u32>
    decreases n,
{
    if n == 0 {
        s
    } else if n >= 8 {
        wrapping_block(wrapping_step(s, at, stride, 8, t), at + 8, stride, (n - 8) as nat, t)
    } else {
        wrapping_block(wrapping_step(s, at, stride, 1, t), at + 1, stride, (n - 1) as nat, t)
    }
}

/// Where the two halves of the block do not overlap, the butterflies do not depend on one another.
pub proof fn lemma_wrapping_block(s: Seq<u32>, at: int, stride: int, n: nat, t: u32)
    requires
        n <= stride,
        0 <= at,
        at + stride + n <= s.len(),
    ensures
        wrapping_block(s, at, stride, n, t) == wrapping_step(s, at, stride, n, t),
    decreases n,
{
    if n > 0 {
        let c: nat = if n >= 8 {
            8
        } else {
            1
        };
        lemma_wrapping_block(
            wrapping_step(s, at, stride, c, t),
            at + c,
            stride,
            (n - c) as nat,
            t,
        );
    }
    assert(wrapping_block(s, at, stride, n, t) =~= wrapping_step(s, at, stride, n, t));
}

/// Performs the butterflies on a range of at most eight elements and the range `stride` further
/// on.
fn wrapping_lanes(data: &mut [u32], at: usize, stride: usize, n: usize, twiddle: u32)
    requires
        n <= 8,
        at + stride + n <= old(data)@.len(),
    ensures
        final(data)@ == wrapping_step(old(data)@, at as int, stride as int, n as nat, twiddle),
{
    let ghost s = data@;
    let mut t0: [u32; 8] = [0;8];
    let mut t1: [u32; 8] = [0;8];
    let mut i: usize = 0;
    while i < n
        invariant
            i <= n <= 8,
            data@ == s,
            s.len() == data.len(),
            at + stride + n <= s.len(),
            forall|j: int|
                0 <= j < i ==> #[trigger] t0@[j] == wrapping_firsts(
                    s,
                    at as int,
                    stride as int,
                    n as nat,
                    twiddle,
                )[j],
            forall|j: int|
                0 <= j < i ==> #[trigger] t1@[j] == wrapping_seconds(
                    s,
                    at as int,
                    stride as int,
                    n as nat,
                    twiddle,
                )[j],
        decreases n - i,
    {
        let u = data[at + i];
        let v = data[at + stride + i];
        let a = u.wrapping_add(v.wrapping_mul(twiddle));
        t0[i] = a;
        t1[i] = v.wrapping_add(a);
        i = i + 1;
    }
    let ghost firsts = wrapping_firsts(s, at as int, stride as int, n as nat, twiddle);
    let ghost seconds = wrapping_seconds(s, at as int, stride as int, n as nat, twiddle);
    let mut i: usize = 0;
    while i < n
        invariant
            i <= n <= 8,
            data@ == overwrite(s, at as int, firsts.take(i as int)),
            s.len() == data.len(),
            at + stride + n <= s.len(),
            firsts.len() == n,
            forall|j: int| 0 <= j < n ==> #[trigger] t0@[j] == firsts[j],
        decreases n - i,
    {
        data[at + i] = t0[i];
        i = i + 1;
        proof {
            assert(data@ =~= overwrite(s, at as int, firsts.take(i as int)));
        }
    }
    proof {
        assert(firsts.take(n as int) =~= firsts);
    }
    let ghost m = data@;
    let mut i: usize = 0;
    while i < n
        invariant
            i <= n <= 8,
            data@ == overwrite(m, at + stride, seconds.take(i as int)),
            m.len() == data.len(),
            at + stride + n <= m.len(),
            seconds.len() == n,
            forall|j: int| 0 <= j < n ==> #[trigger] t1@[j] == seconds[j],
        decreases n - i,
    {
        data[at + stride + i] = t1[i];
        i = i + 1;
        proof {
            assert(data@ =~= overwrite(m, at + stride, seconds.take(i as int)));
        }
    }
    proof {
        assert(seconds.take(n as int) =~= seconds);
    }
}

/// Performs the butterflies of a block of machine words with wrapping arithmetic, eight at a time.
pub fn butterfly_block_simd_u32(
    data: &mut [u32],
    block_base: usize,
    stride: usize,
    block_size: usize,
    twiddle: u32,
)
    requires
        block_size > 0 ==> block_base + stride + block_size <= old(data)@.len(),
    ensures
        final(data)@ == wrapping_block(
            old(data)@,
            block_base as int,
            stride as int,
            block_size as nat,
            twiddle,
        ),
        0 < block_size <= stride ==> final(data)@ == wrapping_step(
            old(data)@,
            block_base as int,
            stride as int,
            block_size as nat,
            twiddle,
        ),
{
    let ghost s = data@;
    let mut i: usize = 0;
    while i < block_size
        invariant
            i <= block_size,
            s.len() == data@.len(),
            s.len() == data.len(),
            block_size > 0 ==> block_base + stride + block_size <= s.len(),
            wrapping_block(
                data@,
                block_base + i,
                stride as int,
                (block_size - i) as nat,
                twiddle,
            ) == wrapping_block(
                s,
                block_base as int,
                stride as int,
                block_size as nat,
                twiddle,
            ),
        decreases block_size - i,
    {
        let n: usize = if block_size - i >= 8 {
            8
        } else {
            1
        };
        wrapping_lanes(data, block_base + i, stride, n, twiddle);
        i = i + n;
    }
    proof {
        if 0 < block_size <= stride {
            lemma_wrapping_block(
                s,
                block_base as int,
                stride as int,
                block_size as nat,
                twiddle,
            );
        }
    }
}

} // verus!
