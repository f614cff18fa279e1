use additive_ntt::additive_twiddle::calculate_packed_additive_twiddle;
use additive_ntt::error::{Error, MathError};
use additive_ntt::field::{from_bits, BinaryField};
use additive_ntt::packed::{PackedBinaryField8x16b, PackedField};
use additive_ntt::shape::NTTShape;
use additive_ntt::single_threaded::SingleThreadedNTT;
use additive_ntt::subspace::BinarySubspace;
use additive_ntt::tower::{
    BinaryField128b, BinaryField16b, BinaryField32b, BinaryField4b, BinaryField8b,
};
use additive_ntt::twiddle::TwiddleAccess;

#[test]
fn canonical_subspaces() {
    let s = BinarySubspace::<BinaryField8b>::with_dim(3).unwrap();
    assert_eq!(s.dim(), 3);
    assert_eq!(s.basis().to_vec(), vec![from_bits(1), from_bits(2), from_bits(4)]);
    assert_eq!(BinarySubspace::<BinaryField8b>::with_dim(8).unwrap().dim(), 8);
    assert!(matches!(
        BinarySubspace::<BinaryField8b>::with_dim(9),
        Err(MathError::DomainSizeTooLarge)
    ));
    let t: BinarySubspace<BinaryField16b> = s.isomorphic();
    assert_eq!(t.basis().to_vec(), vec![from_bits(1), from_bits(2), from_bits(4)]);
}

#[test]
fn values_of_twiddles() {
    let ntt = SingleThreadedNTT::<BinaryField8b>::new(4).unwrap();
    assert_eq!(ntt.log_domain_size(), 4);
    let bases: [Vec<u128>; 4] = [vec![0x2, 0x4, 0x8], vec![0xd, 0xf], vec![0x2], vec![]];
    for (i, access) in ntt.twiddles().iter().enumerate() {
        assert_eq!(access.log_n(), 3 - i);
        for index in 0..1usize << (3 - i) {
            let mut expected: u128 = 0;
            for (j, b) in bases[i].iter().enumerate() {
                if index >> j & 1 == 1 {
                    expected ^= b;
                }
            }
            assert_eq!(access.get(index), from_bits(expected));
            assert_eq!(ntt.get_subspace_eval(4 - i, index), from_bits(expected));
        }
    }
    assert_eq!(ntt.twiddles()[0].get(5), from_bits(0x2 ^ 0x8));
    assert_eq!(ntt.twiddles()[1].get(3), from_bits(0xd ^ 0xf));
}

#[test]
fn pairs_of_twiddles() {
    let ntt = SingleThreadedNTT::<BinaryField8b>::new(4).unwrap();
    let tables = ntt.precompute_twiddles();
    assert_eq!(ntt.twiddles()[0].get_pair(1, 1), (from_bits(0x2), from_bits(0x6)));
    assert_eq!(tables.twiddles()[0].get_pair(1, 1), (from_bits(0x2), from_bits(0x6)));
    assert_eq!(tables.twiddles()[1].get_pair(1, 0), (from_bits(0), from_bits(0xf)));
}

#[test]
fn domains_of_rounds() {
    let ntt = SingleThreadedNTT::<BinaryField8b>::new(4).unwrap();
    let tables = ntt.precompute_twiddles();
    let expected: [Vec<u128>; 4] =
        [vec![1, 2, 4, 8], vec![1, 0xd, 0xf], vec![1, 2], vec![1]];
    for i in 1..=4 {
        let basis: Vec<BinaryField8b> = expected[4 - i].iter().map(|b| from_bits(*b)).collect();
        assert_eq!(ntt.subspace(i).basis().to_vec(), basis);
        assert_eq!(tables.subspace(i).basis().to_vec(), basis);
        assert_eq!(ntt.twiddles()[4 - i].affine_subspace().1, BinaryField8b::zero());
    }
}

#[test]
fn tabulated_twiddles() {
    let ntt = SingleThreadedNTT::<BinaryField16b>::new(7).unwrap();
    let tables = ntt.precompute_twiddles();
    assert_eq!(tables.log_domain_size(), 7);
    for i in 0..7 {
        for index in 0..1 << (6 - i) {
            assert_eq!(ntt.twiddles()[i].get(index), tables.twiddles()[i].get(index));
        }
    }
}

#[test]
fn domain_fields() {
    let own = SingleThreadedNTT::<BinaryField32b>::new(6).unwrap();
    let small = SingleThreadedNTT::<BinaryField32b>::with_domain_field::<BinaryField8b>(6).unwrap();
    let canonical = SingleThreadedNTT::<BinaryField32b>::with_canonical_field(6).unwrap();
    for i in 0..6 {
        for index in 0..1 << (5 - i) {
            let t = own.twiddles()[i].get(index);
            assert_eq!(small.twiddles()[i].get(index), t);
            assert_eq!(canonical.twiddles()[i].get(index), t);
        }
    }
    assert!(matches!(
        SingleThreadedNTT::<BinaryField32b>::with_domain_field::<BinaryField8b>(9),
        Err(Error::MathError(MathError::DomainSizeTooLarge))
    ));
    assert!(matches!(
        SingleThreadedNTT::<BinaryField32b>::with_canonical_field(33),
        Err(Error::MathError(MathError::DomainSizeTooLarge))
    ));
    let tiny = SingleThreadedNTT::<BinaryField128b>::with_domain_field::<BinaryField4b>(4).unwrap();
    let large = SingleThreadedNTT::<BinaryField128b>::new(4).unwrap();
    for i in 0..4 {
        for index in 0..1 << (3 - i) {
            assert_eq!(tiny.twiddles()[i].get(index), large.twiddles()[i].get(index));
        }
    }
    assert!(SingleThreadedNTT::<BinaryField8b>::new(8).is_ok());
    assert!(SingleThreadedNTT::<BinaryField8b>::new(0).is_ok());
}

#[test]
fn given_subspaces() {
    let subspace = BinarySubspace::<BinaryField8b>::with_dim(4).unwrap();
    let ntt = SingleThreadedNTT::with_subspace(&subspace).unwrap();
    assert_eq!(ntt.twiddles()[1].get(1), from_bits(0xd));
}

#[test]
fn additive_twiddles_within_a_vector() {
    let ntt = SingleThreadedNTT::<BinaryField16b>::new(10).unwrap();
    let access = &ntt.twiddles()[0];
    // The axis fits in a vector: both halves have the factors of the blocks.
    let shape = NTTShape { log_x: 0, log_y: 3, log_z: 0 };
    let t: PackedBinaryField8x16b = calculate_packed_additive_twiddle(access, shape, 0);
    for j in 0..4 {
        assert_eq!(t.get(2 * j), access.get(j));
        assert_eq!(t.get(2 * j + 1), access.get(j));
    }
    // The axis is longer than a vector: the second vector holds the blocks that follow.
    let shape = NTTShape { log_x: 0, log_y: 4, log_z: 0 };
    let t: PackedBinaryField8x16b = calculate_packed_additive_twiddle(access, shape, 0);
    for j in 0..4 {
        assert_eq!(t.get(2 * j), access.get(j));
        assert_eq!(t.get(2 * j + 1), access.get(j + 4));
    }
    // Only the digits of the indices within two vectors are needed.
    let small = SingleThreadedNTT::<BinaryField16b>::new(4).unwrap();
    let few = &small.twiddles()[0];
    assert_eq!(few.log_n(), 3);
    let long = NTTShape { log_x: 0, log_y: 9, log_z: 0 };
    let t: PackedBinaryField8x16b = calculate_packed_additive_twiddle(few, long, 0);
    for j in 0..4 {
        assert_eq!(t.get(2 * j), few.get(j));
        assert_eq!(t.get(2 * j + 1), few.get(j + 4));
    }
    // A vector holds several slices.
    let shape = NTTShape { log_x: 0, log_y: 2, log_z: 3 };
    let t: PackedBinaryField8x16b = calculate_packed_additive_twiddle(access, shape, 0);
    let indices = [0, 0, 1, 1, 0, 0, 1, 1];
    for l in 0..8 {
        assert_eq!(t.get(l), access.get(indices[l]));
    }
    // Rows along the first axis share a factor.
    let shape = NTTShape { log_x: 1, log_y: 2, log_z: 0 };
    let t: PackedBinaryField8x16b = calculate_packed_additive_twiddle(access, shape, 0);
    let indices = [0, 0, 0, 0, 1, 1, 1, 1];
    for l in 0..8 {
        assert_eq!(t.get(l), access.get(indices[l]));
    }
}
