use additive_ntt::error::Error;
use additive_ntt::field::{from_bits, BinaryField};
use additive_ntt::packed::{PackedBinaryField8x16b, PackedField};
use additive_ntt::shape::NTTShape;
use additive_ntt::single_threaded::{check_batch_transform_inputs_and_params, SingleThreadedNTT};
use additive_ntt::tower::BinaryField16b;

fn scalars(n: usize) -> Vec<BinaryField16b> {
    (0..n).map(|i| from_bits(i as u128 + 1)).collect()
}

fn shape(log_x: usize, log_y: usize, log_z: usize) -> NTTShape {
    NTTShape { log_x, log_y, log_z }
}

fn refused(n: usize, s: NTTShape, coset: usize, coset_bits: usize, skip_rounds: usize, e: Error) {
    let ntt = SingleThreadedNTT::<BinaryField16b>::new(5).unwrap();
    let start = scalars(n);
    let mut data = start.clone();
    assert_eq!(
        check_batch_transform_inputs_and_params(5, &data, s, coset, coset_bits, skip_rounds),
        Err(e)
    );
    assert_eq!(ntt.forward_transform(&mut data, s, coset, coset_bits, skip_rounds), Err(e));
    assert_eq!(ntt.inverse_transform(&mut data, s, coset, coset_bits, skip_rounds), Err(e));
    assert_eq!(data, start);
}

#[test]
fn length_is_no_power_of_two() {
    refused(3, shape(0, 1, 0), 0, 0, 0, Error::PowerOfTwoLengthRequired);
    refused(0, shape(0, 0, 0), 0, 0, 0, Error::PowerOfTwoLengthRequired);
    refused(6, shape(0, 1, 0), 9, 0, 7, Error::PowerOfTwoLengthRequired);
}

#[test]
fn too_many_rounds_skipped() {
    refused(4, shape(0, 2, 0), 0, 0, 3, Error::SkipRoundsTooLarge);
    refused(4, shape(0, 1, 0), 0, 0, 2, Error::SkipRoundsTooLarge);
}

#[test]
fn shape_does_not_fit() {
    refused(4, shape(0, 3, 0), 0, 0, 0, Error::BatchTooLarge);
    refused(4, shape(0, 1, 0), 0, 0, 0, Error::BatchTooLarge);
    refused(8, shape(1, 1, 0), 0, 0, 0, Error::BatchTooLarge);
    refused(8, shape(1, 2, 1), 0, 0, 0, Error::BatchTooLarge);
    refused(2, shape(0, 2, 0), 0, 0, 0, Error::BatchTooLarge);
}

#[test]
fn coset_out_of_bounds() {
    refused(
        4,
        shape(0, 2, 0),
        4,
        2,
        0,
        Error::CosetIndexOutOfBounds { coset: 4, coset_bits: 2 },
    );
    refused(
        4,
        shape(0, 2, 0),
        1,
        0,
        0,
        Error::CosetIndexOutOfBounds { coset: 1, coset_bits: 0 },
    );
}

#[test]
fn domain_too_small() {
    refused(
        4,
        shape(0, 2, 0),
        0,
        4,
        0,
        Error::DomainTooSmall { log_required_domain_size: 6 },
    );
}

#[test]
fn accepted_requests() {
    let data = scalars(8);
    for s in [shape(0, 3, 0), shape(1, 2, 0), shape(1, 1, 1), shape(0, 0, 3), shape(3, 0, 0)] {
        assert_eq!(check_batch_transform_inputs_and_params(5, &data, s, 3, 2, 0), Ok(()));
        assert_eq!(
            check_batch_transform_inputs_and_params(5, &data, s, 0, 0, s.log_y),
            Ok(())
        );
    }
    // One or two vectors may be larger than the shape.
    assert_eq!(
        check_batch_transform_inputs_and_params(5, &data[0..2], shape(0, 0, 0), 0, 0, 0),
        Ok(())
    );
    let packed = [PackedBinaryField8x16b::zeros(); 4];
    assert_eq!(
        check_batch_transform_inputs_and_params(5, &packed[0..1], shape(0, 2, 0), 0, 0, 0),
        Ok(())
    );
    assert_eq!(
        check_batch_transform_inputs_and_params(5, &packed[0..2], shape(0, 3, 0), 0, 0, 0),
        Ok(())
    );
    assert_eq!(
        check_batch_transform_inputs_and_params(5, &packed, shape(0, 4, 0), 0, 0, 0),
        Err(Error::BatchTooLarge)
    );
    assert_eq!(
        check_batch_transform_inputs_and_params(5, &packed, shape(0, 5, 0), 0, 0, 0),
        Ok(())
    );
}

#[test]
fn single_scalar() {
    let ntt = SingleThreadedNTT::<BinaryField16b>::new(5).unwrap();
    let mut data = [BinaryField16b::one()];
    assert_eq!(ntt.forward_transform(&mut data, shape(0, 0, 0), 0, 0, 0), Ok(()));
    assert_eq!(data, [BinaryField16b::one()]);
    assert_eq!(ntt.inverse_transform(&mut data, shape(0, 0, 0), 0, 0, 0), Ok(()));
    assert_eq!(data, [BinaryField16b::one()]);
}
