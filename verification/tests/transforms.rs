use additive_ntt::error::{Error, MathError};
use additive_ntt::field::{from_bits, BinaryField};
use additive_ntt::packed::{PackedBinaryField8x16b, PackedField};
use additive_ntt::shape::NTTShape;
use additive_ntt::single_threaded::{forward_transform, inverse_transform, SingleThreadedNTT};
use additive_ntt::tower::{BinaryField16b, BinaryField8b};
use rand::rngs::StdRng;
use rand::{Rng, SeedableRng};

fn random_scalar(rng: &mut StdRng) -> BinaryField16b {
    from_bits(rng.random::<u16>() as u128)
}

fn random_packed(rng: &mut StdRng) -> PackedBinaryField8x16b {
    let mut packed = PackedBinaryField8x16b::zeros();
    for i in 0..8 {
        packed.set(i, random_scalar(rng));
    }
    packed
}

fn unpack(packed: &[PackedBinaryField8x16b]) -> Vec<BinaryField16b> {
    let mut scalars = Vec::new();
    for p in packed {
        for i in 0..8 {
            scalars.push(p.get(i));
        }
    }
    scalars
}

#[test]
fn test_additive_ntt_fails_with_field_too_small() {
    assert!(matches!(
        SingleThreadedNTT::<BinaryField8b>::new(10),
        Err(Error::MathError(MathError::DomainSizeTooLarge))
    ));
}

#[test]
fn test_subspace_size_agrees_with_domain_size() {
    let ntt = SingleThreadedNTT::<BinaryField16b>::new(10).expect("msg");
    assert_eq!(ntt.subspace(10).dim(), 10);
    assert_eq!(ntt.subspace(1).dim(), 1);
}

#[test]
fn test_repetition_property() {
    let log_len = 8;
    let ntt = SingleThreadedNTT::<BinaryField16b>::new(log_len + 2).unwrap();

    let mut rng = StdRng::seed_from_u64(0);
    let msg: Vec<BinaryField16b> = (0..1 << log_len).map(|_| random_scalar(&mut rng)).collect();

    let mut msg_padded = vec![<BinaryField16b as BinaryField>::zero(); 1 << (log_len + 2)];
    for i in 0..1 << log_len {
        msg_padded[i << 2] = msg[i];
    }

    let mut out = msg;
    ntt.forward_transform(
        &mut out,
        NTTShape {
            log_y: log_len,
            ..Default::default()
        },
        0,
        0,
        0,
    )
    .unwrap();
    let mut out_rep = msg_padded;
    ntt.forward_transform(
        &mut out_rep,
        NTTShape {
            log_y: log_len + 2,
            ..Default::default()
        },
        0,
        0,
        0,
    )
    .unwrap();
    for i in 0..1 << (log_len + 2) {
        assert_eq!(out_rep[i], out[i >> 2]);
    }
}

#[test]
fn one_packed_field_forward() {
    let s = SingleThreadedNTT::<BinaryField16b>::new(10).expect("msg");
    let mut packed = [random_packed(&mut StdRng::from_os_rng())];
    let mut unpacked = unpack(&packed);

    let shape = NTTShape {
        log_x: 0,
        log_y: 3,
        log_z: 0,
    };
    let _ = s.forward_transform(&mut packed, shape, 3, 2, 0);
    let _ = s.forward_transform(&mut unpacked, shape, 3, 2, 0);

    for (i, unpacked_item) in unpacked.iter().enumerate().take(8) {
        assert_eq!(packed[0].get(i), *unpacked_item);
    }
}

#[test]
fn one_packed_field_inverse() {
    let s = SingleThreadedNTT::<BinaryField16b>::new(10).expect("msg");
    let mut packed = [random_packed(&mut StdRng::from_os_rng())];
    let mut unpacked = unpack(&packed);

    let shape = NTTShape {
        log_x: 0,
        log_y: 3,
        log_z: 0,
    };
    let _ = s.inverse_transform(&mut packed, shape, 3, 2, 0);
    let _ = s.inverse_transform(&mut unpacked, shape, 3, 2, 0);

    for (i, unpacked_item) in unpacked.iter().enumerate().take(8) {
        assert_eq!(packed[0].get(i), *unpacked_item);
    }
}

#[test]
fn smaller_embedded_batch_forward() {
    let s = SingleThreadedNTT::<BinaryField16b>::new(10).expect("msg");
    let mut packed = [random_packed(&mut StdRng::from_os_rng())];
    let mut scalars = unpack(&packed);
    let unpacked = &mut scalars[0..4];

    let shape = NTTShape {
        log_x: 0,
        log_y: 2,
        log_z: 0,
    };
    let _ = forward_transform(s.log_domain_size(), s.twiddles(), &mut packed, shape, 3, 2, 0);
    let _ = s.forward_transform(unpacked, shape, 3, 2, 0);

    for (i, unpacked_item) in unpacked.iter().enumerate().take(4) {
        assert_eq!(packed[0].get(i), *unpacked_item);
    }
}

#[test]
fn smaller_embedded_batch_inverse() {
    let s = SingleThreadedNTT::<BinaryField16b>::new(10).expect("msg");
    let mut packed = [random_packed(&mut StdRng::from_os_rng())];
    let mut scalars = unpack(&packed);
    let unpacked = &mut scalars[0..4];

    let shape = NTTShape {
        log_x: 0,
        log_y: 2,
        log_z: 0,
    };
    let _ = inverse_transform(s.log_domain_size(), s.twiddles(), &mut packed, shape, 3, 2, 0);
    let _ = s.inverse_transform(unpacked, shape, 3, 2, 0);

    for (i, unpacked_item) in unpacked.iter().enumerate().take(4) {
        assert_eq!(packed[0].get(i), *unpacked_item);
    }
}
