use additive_ntt::field::{from_bits, BinaryField};
use additive_ntt::packed::{PackedBinaryField8x16b, PackedField};
use additive_ntt::shape::NTTShape;
use additive_ntt::single_threaded::{
    forward_transform_above_cutoff, forward_transform_above_cutoff_simple,
    forward_transform_below_cutoff, SingleThreadedNTT,
};
use additive_ntt::subspace::BinarySubspace;
use additive_ntt::tower::{BinaryField16b, BinaryField8b};
use additive_ntt::twiddle::TwiddleAccess;
use rand::rngs::StdRng;
use rand::{Rng, SeedableRng};

fn random_scalars(n: usize, seed: u64) -> Vec<BinaryField16b> {
    let mut rng = StdRng::seed_from_u64(seed);
    (0..n).map(|_| from_bits(rng.random::<u16>() as u128)).collect()
}

fn pack(scalars: &[BinaryField16b]) -> Vec<PackedBinaryField8x16b> {
    let mut vectors = Vec::new();
    for chunk in scalars.chunks(8) {
        let mut v = PackedBinaryField8x16b::zeros();
        for (l, s) in chunk.iter().enumerate() {
            v.set(l, *s);
        }
        vectors.push(v);
    }
    vectors
}

fn unpack(vectors: &[PackedBinaryField8x16b]) -> Vec<BinaryField16b> {
    let mut scalars = Vec::new();
    for v in vectors {
        for l in 0..8 {
            scalars.push(v.get(l));
        }
    }
    scalars
}

fn shape(log_x: usize, log_y: usize, log_z: usize) -> NTTShape {
    NTTShape { log_x, log_y, log_z }
}

fn bytes(bits: &[u128]) -> Vec<BinaryField8b> {
    bits.iter().map(|b| from_bits(*b)).collect()
}

#[test]
fn exact_transforms() {
    let ntt = SingleThreadedNTT::<BinaryField8b>::new(4).unwrap();
    let mut data = bytes(&[0x11, 0x22, 0x33, 0x44]);
    ntt.forward_transform(&mut data, shape(0, 2, 0), 0, 0, 0).unwrap();
    assert_eq!(data, bytes(&[0x11, 0x33, 0x99, 0xff]));
    ntt.inverse_transform(&mut data, shape(0, 2, 0), 0, 0, 0).unwrap();
    assert_eq!(data, bytes(&[0x11, 0x22, 0x33, 0x44]));

    ntt.forward_transform(&mut data, shape(0, 2, 0), 3, 2, 0).unwrap();
    assert_eq!(data, bytes(&[0xdd, 0x77, 0xee, 0x00]));
    ntt.inverse_transform(&mut data, shape(0, 2, 0), 3, 2, 0).unwrap();
    assert_eq!(data, bytes(&[0x11, 0x22, 0x33, 0x44]));

    ntt.forward_transform(&mut data, shape(0, 2, 0), 1, 1, 1).unwrap();
    assert_eq!(data, bytes(&[0x44, 0x66, 0xbb, 0xff]));
}

#[test]
fn inverse_undoes_forward() {
    let ntt = SingleThreadedNTT::<BinaryField16b>::new(10).unwrap();
    for log_x in 0..4 {
        for log_y in 0..5 {
            for log_z in 0..3 {
                let s = shape(log_x, log_y, log_z);
                let start = random_scalars(1 << (log_x + log_y + log_z), 1);
                for skip_rounds in 0..=log_y {
                    let mut data = start.clone();
                    ntt.forward_transform(&mut data, s, 2, 2, skip_rounds).unwrap();
                    ntt.inverse_transform(&mut data, s, 2, 2, skip_rounds).unwrap();
                    assert_eq!(data, start);
                    ntt.inverse_transform(&mut data, s, 2, 2, skip_rounds).unwrap();
                    ntt.forward_transform(&mut data, s, 2, 2, skip_rounds).unwrap();
                    assert_eq!(data, start);
                }
            }
        }
    }
}

#[test]
fn packing_changes_no_scalar() {
    let ntt = SingleThreadedNTT::<BinaryField16b>::new(10).unwrap();
    for log_x in 0..5 {
        for log_y in 0..8 {
            for log_z in 0..5 {
                let log_size = log_x + log_y + log_z;
                if !(3..=9).contains(&log_size) {
                    continue;
                }
                let s = shape(log_x, log_y, log_z);
                let start = random_scalars(1 << log_size, 2);
                for skip_rounds in 0..=log_y {
                    let mut data = start.clone();
                    let mut packed = pack(&start);
                    ntt.forward_transform(&mut data, s, 1, 1, skip_rounds).unwrap();
                    ntt.forward_transform(&mut packed, s, 1, 1, skip_rounds).unwrap();
                    assert_eq!(unpack(&packed), data);
                    let mut data = start.clone();
                    let mut packed = pack(&start);
                    ntt.inverse_transform(&mut data, s, 1, 1, skip_rounds).unwrap();
                    ntt.inverse_transform(&mut packed, s, 1, 1, skip_rounds).unwrap();
                    assert_eq!(unpack(&packed), data);
                }
            }
        }
    }
}

#[test]
fn small_batches_in_vectors() {
    let ntt = SingleThreadedNTT::<BinaryField16b>::new(10).unwrap();
    for vectors in 1..=2 {
        for s in [shape(0, 2, 0), shape(1, 1, 0), shape(0, 1, 1), shape(0, 1, 0), shape(0, 0, 0)] {
            let n = 1 << (s.log_x + s.log_y + s.log_z);
            let start = random_scalars(8 * vectors, 3);
            let mut data = start[0..n].to_vec();
            let mut packed = pack(&start);
            ntt.forward_transform(&mut data, s, 3, 2, 0).unwrap();
            ntt.forward_transform(&mut packed, s, 3, 2, 0).unwrap();
            assert_eq!(unpack(&packed)[0..n].to_vec(), data);
            ntt.inverse_transform(&mut packed, s, 3, 2, 0).unwrap();
            assert_eq!(unpack(&packed), start);
        }
    }
}

#[test]
fn transforms_are_linear() {
    let ntt = SingleThreadedNTT::<BinaryField16b>::new(8).unwrap();
    let s = shape(1, 4, 1);
    let a = random_scalars(64, 4);
    let b = random_scalars(64, 5);
    let c: BinaryField16b = from_bits(0x1234);
    let mut sum: Vec<BinaryField16b> = (0..64).map(|i| a[i].add(c.mul(b[i]))).collect();
    let (mut fa, mut fb) = (a, b);
    ntt.forward_transform(&mut fa, s, 5, 3, 1).unwrap();
    ntt.forward_transform(&mut fb, s, 5, 3, 1).unwrap();
    ntt.forward_transform(&mut sum, s, 5, 3, 1).unwrap();
    for i in 0..64 {
        assert_eq!(sum[i], fa[i].add(c.mul(fb[i])));
    }
}

#[test]
fn columns_of_a_batch() {
    let ntt = SingleThreadedNTT::<BinaryField16b>::new(8).unwrap();
    let s = shape(2, 3, 1);
    let start = random_scalars(64, 6);
    let mut data = start.clone();
    ntt.forward_transform(&mut data, s, 2, 2, 0).unwrap();
    for z in 0..2 {
        for x in 0..4 {
            let position = |y: usize| (z << 5) | (y << 2) | x;
            let mut column: Vec<BinaryField16b> = (0..8).map(|y| start[position(y)]).collect();
            ntt.forward_transform(&mut column, shape(0, 3, 0), 2, 2, 0).unwrap();
            for y in 0..8 {
                assert_eq!(data[position(y)], column[y]);
            }
        }
    }
}

#[test]
fn tabulation_changes_no_result() {
    let ntt = SingleThreadedNTT::<BinaryField16b>::new(9).unwrap();
    let tables = ntt.precompute_twiddles();
    let start = random_scalars(256, 7);
    let s = shape(1, 6, 1);
    let mut a = pack(&start);
    let mut b = pack(&start);
    ntt.forward_transform(&mut a, s, 6, 3, 0).unwrap();
    tables.forward_transform(&mut b, s, 6, 3, 0).unwrap();
    assert_eq!(a, b);
    ntt.inverse_transform(&mut a, s, 1, 3, 2).unwrap();
    tables.inverse_transform(&mut b, s, 1, 3, 2).unwrap();
    assert_eq!(a, b);
}

#[test]
fn repetition_in_a_batch() {
    let ntt = SingleThreadedNTT::<BinaryField16b>::new(8).unwrap();
    let start = random_scalars(32, 8);
    let mut padded = vec![BinaryField16b::zero(); 128];
    for p in 0..32 {
        padded[((p >> 1) << 3) | (p & 1)] = start[p];
    }
    let mut data = start;
    ntt.forward_transform(&mut data, shape(1, 3, 1), 2, 2, 1).unwrap();
    ntt.forward_transform(&mut padded, shape(1, 5, 1), 2, 2, 1).unwrap();
    for p in 0..128 {
        assert_eq!(padded[p], data[((p >> 3) << 1) | (p & 1)]);
    }
}

#[test]
fn cosets_of_extended_data() {
    let ntt = SingleThreadedNTT::<BinaryField16b>::new(8).unwrap();
    let start = random_scalars(8, 9);
    let mut extended = start.clone();
    extended.resize(32, BinaryField16b::zero());
    ntt.forward_transform(&mut extended, shape(0, 5, 0), 1, 1, 0).unwrap();
    // The rounds that only repeat the data can be skipped.
    let mut repeated = Vec::new();
    for _ in 0..4 {
        repeated.extend_from_slice(&start);
    }
    ntt.forward_transform(&mut repeated, shape(0, 5, 0), 1, 1, 2).unwrap();
    assert_eq!(repeated, extended);
    for coset in 0..4 {
        let mut data = start.clone();
        ntt.forward_transform(&mut data, shape(0, 3, 0), 4 + coset, 3, 0).unwrap();
        assert_eq!(extended[8 * coset..8 * coset + 8].to_vec(), data);
    }
}

#[test]
fn skipped_rounds_leave_subcosets() {
    let ntt = SingleThreadedNTT::<BinaryField16b>::new(9).unwrap();
    let start = random_scalars(128, 12);
    let s = shape(1, 5, 1);
    for skip_rounds in 0..=3 {
        let log_part = 5 - skip_rounds;
        let mut forward = start.clone();
        let mut inverse = start.clone();
        ntt.forward_transform(&mut forward, s, 1, 2, skip_rounds).unwrap();
        ntt.inverse_transform(&mut inverse, s, 1, 2, skip_rounds).unwrap();
        for coset in 0..1 << skip_rounds {
            let mut positions = Vec::new();
            for z in 0..2 {
                for y in 0..1 << log_part {
                    for x in 0..2 {
                        positions.push((z << 6) | (((coset << log_part) | y) << 1) | x);
                    }
                }
            }
            let part: Vec<BinaryField16b> = positions.iter().map(|p| start[*p]).collect();
            let inner = (1 << skip_rounds) | coset;
            let mut data = part.clone();
            ntt.forward_transform(&mut data, shape(1, log_part, 1), inner, 2 + skip_rounds, 0)
                .unwrap();
            for (n, p) in positions.iter().enumerate() {
                assert_eq!(forward[*p], data[n]);
            }
            let mut data = part;
            ntt.inverse_transform(&mut data, shape(1, log_part, 1), inner, 2 + skip_rounds, 0)
                .unwrap();
            for (n, p) in positions.iter().enumerate() {
                assert_eq!(inverse[*p], data[n]);
            }
        }
    }
}

#[test]
fn rounds_of_whole_vectors_one_by_one() {
    let ntt = SingleThreadedNTT::<BinaryField16b>::new(11).unwrap();
    for s in [shape(0, 9, 0), shape(0, 5, 0), shape(2, 7, 0), shape(4, 3, 2)] {
        let coset = 2;
        let rounds = &ntt.twiddles()[11 - (s.log_y + 2)..];
        let start = pack(&random_scalars(1 << (s.log_x + s.log_y + s.log_z), 13));
        let cutoff = 3usize.saturating_sub(s.log_x);
        for skip_rounds in 0..2 {
            let mut blocked = start.clone();
            forward_transform_above_cutoff(&mut blocked, rounds, s, coset, cutoff, skip_rounds);
            let mut plain = start.clone();
            for i in (cutoff..s.log_y - skip_rounds).rev() {
                let offset = coset << (s.log_y - 1 - i);
                forward_transform_above_cutoff_simple(&mut plain, &rounds[i], s, i, offset);
            }
            assert_eq!(blocked, plain);
        }
    }
}

#[test]
fn rounds_within_vectors_one_by_one() {
    let ntt = SingleThreadedNTT::<BinaryField16b>::new(11).unwrap();
    for s in [shape(0, 9, 0), shape(0, 2, 3), shape(1, 5, 0), shape(2, 1, 4), shape(3, 3, 0)] {
        let coset = 3;
        let rounds = &ntt.twiddles()[11 - (s.log_y + 2)..];
        let start = random_scalars(1 << (s.log_x + s.log_y + s.log_z), 14);
        let cutoff = 3usize.saturating_sub(s.log_x);
        for skip_rounds in 0..=s.log_y {
            let mut vectors = pack(&start);
            forward_transform_below_cutoff(&mut vectors, rounds, s, coset, cutoff, skip_rounds);
            let mut plain = start.clone();
            for i in (0..cutoff.min(s.log_y - skip_rounds)).rev() {
                let offset = coset << (s.log_y - 1 - i);
                forward_transform_above_cutoff_simple(&mut plain, &rounds[i], s, i, offset);
            }
            assert_eq!(unpack(&vectors), plain);
            if cutoff == 0 || skip_rounds == s.log_y {
                assert_eq!(plain, start);
            }
        }
    }
}

#[test]
fn offsets_join_block_numbers() {
    let ntt = SingleThreadedNTT::<BinaryField16b>::new(5).unwrap();
    let access = &ntt.twiddles()[0];
    let start = random_scalars(4, 15);
    // The digits of the offset and of the number of the block overlap: both blocks have factor 1.
    let mut data = start.clone();
    forward_transform_above_cutoff_simple(&mut data, access, shape(0, 2, 0), 0, 1);
    let t = access.get(1);
    for k in 0..2 {
        let u = start[2 * k].add(start[2 * k + 1].mul(t));
        assert_eq!(data[2 * k], u);
        assert_eq!(data[2 * k + 1], start[2 * k + 1].add(u));
    }
    // They do not overlap: the blocks have factors 2 and 3.
    let mut data = start.clone();
    forward_transform_above_cutoff_simple(&mut data, access, shape(0, 2, 0), 0, 2);
    for k in 0..2 {
        let u = start[2 * k].add(start[2 * k + 1].mul(access.get(2 + k)));
        assert_eq!(data[2 * k], u);
        assert_eq!(data[2 * k + 1], start[2 * k + 1].add(u));
    }
}

#[test]
fn no_rounds_above_a_high_cutoff() {
    let ntt = SingleThreadedNTT::<BinaryField16b>::new(5).unwrap();
    let start = pack(&random_scalars(24, 16));
    let mut data = start.clone();
    let none = &ntt.twiddles()[0..0];
    forward_transform_above_cutoff(&mut data, none, shape(0, 4, 0), 7, 2, 2);
    assert_eq!(data, start);
    forward_transform_above_cutoff(&mut data, none, shape(0, 4, 0), 7, 0, 4);
    assert_eq!(data, start);
}

#[test]
fn repeated_values_give_padded_coefficients() {
    let ntt = SingleThreadedNTT::<BinaryField16b>::new(8).unwrap();
    let start = random_scalars(8, 17);
    let mut repeated: Vec<BinaryField16b> = (0..32).map(|j| start[j >> 2]).collect();
    let mut data = start;
    ntt.inverse_transform(&mut data, shape(0, 3, 0), 5, 3, 0).unwrap();
    ntt.inverse_transform(&mut repeated, shape(0, 5, 0), 5, 3, 0).unwrap();
    for j in 0..32 {
        if j % 4 == 0 {
            assert_eq!(repeated[j], data[j >> 2]);
        } else {
            assert_eq!(repeated[j], BinaryField16b::zero());
        }
    }
}

#[test]
fn second_vector_does_not_leak() {
    let ntt = SingleThreadedNTT::<BinaryField16b>::new(8).unwrap();
    for s in [shape(0, 3, 0), shape(1, 2, 0), shape(0, 2, 1), shape(0, 2, 0)] {
        let vectors = pack(&random_scalars(16, 18));
        let mut single = [vectors[0]];
        let mut pair = vectors.clone();
        ntt.inverse_transform(&mut single, s, 1, 1, 0).unwrap();
        ntt.inverse_transform(&mut pair, s, 1, 1, 0).unwrap();
        assert_eq!(single[0], pair[0]);
        let mut single = [vectors[0]];
        let mut pair = vectors.clone();
        ntt.forward_transform(&mut single, s, 1, 1, 0).unwrap();
        ntt.forward_transform(&mut pair, s, 1, 1, 0).unwrap();
        assert_eq!(single[0], pair[0]);
    }
}

#[test]
fn transforms_of_vectors_are_linear() {
    let ntt = SingleThreadedNTT::<BinaryField16b>::new(8).unwrap();
    let s = shape(0, 4, 2);
    let f: BinaryField16b = from_bits(0xbeef);
    let combine = |a: &[PackedBinaryField8x16b], b: &[PackedBinaryField8x16b]| {
        let mut e = Vec::new();
        for n in 0..a.len() {
            e.push(a[n].add_lanes(b[n].mul_lanes(PackedBinaryField8x16b::broadcast(f))));
        }
        e
    };
    let mut a = pack(&random_scalars(64, 19));
    let mut b = pack(&random_scalars(64, 20));
    let mut e = combine(&a, &b);
    for data in [&mut a, &mut b, &mut e] {
        ntt.forward_transform(data, s, 3, 2, 0).unwrap();
    }
    assert_eq!(e, combine(&a, &b));
    for data in [&mut a, &mut b, &mut e] {
        ntt.inverse_transform(data, s, 1, 2, 1).unwrap();
    }
    assert_eq!(e, combine(&a, &b));
}

/// The subspace polynomial over the span of the first `i` elements of the basis.
fn subspace_poly(basis: &[BinaryField16b], i: usize, x: BinaryField16b) -> BinaryField16b {
    let mut product = BinaryField16b::one();
    for k in 0..1usize << i {
        product = product.mul(x.add(span_element(basis, k)));
    }
    product
}

fn span_element(basis: &[BinaryField16b], k: usize) -> BinaryField16b {
    let mut sum = BinaryField16b::zero();
    for (j, b) in basis.iter().enumerate() {
        if k >> j & 1 == 1 {
            sum = sum.add(*b);
        }
    }
    sum
}

#[test]
fn polynomial_evaluation() {
    let subspace = BinarySubspace::<BinaryField16b>::with_dim(7).unwrap();
    let basis = subspace.basis();
    let ntt = SingleThreadedNTT::with_subspace(&subspace).unwrap();
    for (log_y, coset, coset_bits) in [(3, 0, 0), (3, 2, 2), (4, 5, 3), (5, 3, 2)] {
        let offset = 7 - (log_y + coset_bits);
        let start = random_scalars(1 << log_y, 10);
        let mut data = start.clone();
        ntt.forward_transform(&mut data, shape(0, log_y, 0), coset, coset_bits, 0).unwrap();
        for y in 0..1 << log_y {
            let point = span_element(&basis[offset..], (coset << log_y) | y);
            let mut value = BinaryField16b::zero();
            for (q, a) in start.iter().enumerate() {
                let mut term = *a;
                for i in 0..log_y {
                    if q >> i & 1 == 1 {
                        let scale = subspace_poly(basis, offset + i, basis[offset + i]);
                        let w = subspace_poly(basis, offset + i, point);
                        term = term.mul(w.mul(scale.invert().unwrap()));
                    }
                }
                value = value.add(term);
            }
            assert_eq!(data[y], value);
        }
    }
}

#[test]
fn long_transforms() {
    let ntt = SingleThreadedNTT::<BinaryField16b>::new(14).unwrap().precompute_twiddles();
    let s = shape(0, 14, 0);
    let start = random_scalars(1 << 14, 11);
    let mut data = start.clone();
    let mut packed = pack(&start);
    ntt.forward_transform(&mut data, s, 0, 0, 0).unwrap();
    ntt.forward_transform(&mut packed, s, 0, 0, 0).unwrap();
    assert_eq!(unpack(&packed), data);
    ntt.inverse_transform(&mut packed, s, 0, 0, 0).unwrap();
    assert_eq!(unpack(&packed), start);
}
