use additive_ntt::butterfly::{butterfly_block_simd, butterfly_block_simd_u32};
use additive_ntt::field::{from_bits, BinaryField};
use additive_ntt::packed::{PackedBinaryField8x16b, PackedField};
use additive_ntt::tower::{BinaryField16b, BinaryField8b};

#[test]
fn word_butterflies() {
    let mut data: Vec<u32> = vec![7, 10, 20, 3, 4, 9];
    butterfly_block_simd_u32(&mut data, 1, 2, 2, 5);
    assert_eq!(data, vec![7, 25, 40, 28, 44, 9]);
}

#[test]
fn word_butterflies_of_a_long_block() {
    let mut data: Vec<u32> = (0..24).map(|i| i * i + 1).collect();
    let start = data.clone();
    butterfly_block_simd_u32(&mut data, 1, 12, 11, 3);
    for i in 0..24usize {
        let expected = if (1..12).contains(&i) {
            start[i] + 3 * start[i + 12]
        } else if (13..24).contains(&i) {
            start[i] + start[i - 12] + 3 * start[i]
        } else {
            start[i]
        };
        assert_eq!(data[i], expected);
    }
}

#[test]
fn word_butterflies_wrap() {
    let mut data: Vec<u32> = vec![u32::MAX, 0x8000_0001];
    butterfly_block_simd_u32(&mut data, 0, 1, 1, 2);
    // MAX + 2 wraps to 1, and 1 + 0x80000001 is 0x80000002.
    assert_eq!(data, vec![1, 0x8000_0002]);
}

#[test]
fn empty_word_block() {
    let mut data: Vec<u32> = vec![1, 2];
    butterfly_block_simd_u32(&mut data, 5, 7, 0, 3);
    assert_eq!(data, vec![1, 2]);
}

#[test]
fn field_butterflies() {
    let bits: [u128; 6] = [0x11, 0x57, 0x02, 0x83, 0x04, 0x99];
    let mut data: Vec<BinaryField8b> = bits.iter().map(|b| from_bits(*b)).collect();
    butterfly_block_simd(&mut data, 1, 2, 2, from_bits::<BinaryField8b>(0x57));
    // 0x83 * 0x57 is 0x48.
    let t: BinaryField8b = from_bits(0x57);
    let a1: BinaryField8b = from_bits(0x57 ^ 0x48);
    let a2 = from_bits::<BinaryField8b>(0x02).add(from_bits::<BinaryField8b>(0x04).mul(t));
    let expected = vec![
        from_bits(0x11),
        a1,
        a2,
        from_bits::<BinaryField8b>(0x83).add(a1),
        from_bits::<BinaryField8b>(0x04).add(a2),
        from_bits(0x99),
    ];
    assert_eq!(data, expected);
}

#[test]
fn vector_butterflies() {
    let mut u = PackedBinaryField8x16b::zeros();
    let mut v = PackedBinaryField8x16b::zeros();
    for l in 0..8 {
        u.set(l, from_bits(l as u128));
        v.set(l, from_bits(0x100 * l as u128 + 3));
    }
    let t: BinaryField16b = from_bits(0x1234);
    let mut data = vec![u, v];
    butterfly_block_simd(&mut data, 0, 1, 1, t);
    for l in 0..8 {
        let a = u.get(l).add(v.get(l).mul(t));
        assert_eq!(data[0].get(l), a);
        assert_eq!(data[1].get(l), v.get(l).add(a));
    }
}
