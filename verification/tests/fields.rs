use additive_ntt::field::{from_bits, BinaryField, FieldEmbedding, TowerField};
use additive_ntt::packed::{PackedBinaryField8x16b, PackedField};
use additive_ntt::tower::{
    BinaryField128b, BinaryField16b, BinaryField1b, BinaryField2b, BinaryField32b, BinaryField4b,
    BinaryField8b,
};

fn packed(lanes: [u128; 8]) -> PackedBinaryField8x16b {
    let mut p = PackedBinaryField8x16b::zeros();
    for (l, bits) in lanes.iter().enumerate() {
        p.set(l, from_bits(*bits));
    }
    p
}

#[test]
fn tower_products() {
    let x = BinaryField2b { lo: BinaryField1b(false), hi: BinaryField1b(true) };
    assert_eq!(x.mul(x), BinaryField2b { lo: BinaryField1b(true), hi: BinaryField1b(true) });
    assert_eq!(
        from_bits::<BinaryField4b>(0x9).mul(from_bits(0xd)),
        from_bits(0xc)
    );
    assert_eq!(
        from_bits::<BinaryField8b>(0x57).mul(from_bits(0x83)),
        from_bits(0x48)
    );
    assert_eq!(
        from_bits::<BinaryField16b>(0x1234).mul(from_bits(0xabcd)),
        from_bits(0xcf0c)
    );
    assert_eq!(
        from_bits::<BinaryField32b>(0x12345678).mul(from_bits(0x9abcdef0)),
        from_bits(0x9f77a270)
    );
    assert_eq!(
        from_bits::<BinaryField128b>(0x0123456789abcdef0123456789abcdef)
            .mul(from_bits(0xfedcba9876543210fedcba9876543210)),
        from_bits(0xc4fa634963498a8f0000000000000000)
    );
}

#[test]
fn tower_sums() {
    assert_eq!(
        from_bits::<BinaryField16b>(0x1234).add(from_bits(0xabcd)),
        from_bits(0x1234 ^ 0xabcd)
    );
    let a: BinaryField16b = from_bits(0x1234);
    assert_eq!(a.add(a), BinaryField16b::zero());
}

#[test]
fn tower_inverses() {
    assert_eq!(
        from_bits::<BinaryField8b>(0x53).invert(),
        Some(from_bits(0x5e))
    );
    assert_eq!(
        from_bits::<BinaryField16b>(0xbeef).invert(),
        Some(from_bits(0x7c01))
    );
    assert_eq!(BinaryField8b::zero().invert(), None);
    assert_eq!(BinaryField1b(true).invert(), Some(BinaryField1b(true)));
    assert_eq!(BinaryField1b(false).invert(), None);
    for bits in 1..256u128 {
        let a: BinaryField8b = from_bits(bits);
        assert_eq!(a.mul(a.invert().unwrap()), BinaryField8b::one());
    }
}

#[test]
fn tower_bases() {
    assert_eq!(BinaryField1b::degree(), 1);
    assert_eq!(BinaryField8b::degree(), 8);
    assert_eq!(BinaryField128b::degree(), 128);
    assert_eq!(BinaryField8b::basis(0), BinaryField8b::one());
    for i in 0..8 {
        assert_eq!(BinaryField8b::basis(i), from_bits(1 << i));
    }
    assert_eq!(BinaryField8b::alpha(), from_bits(0x10));
    // Digits past the degree are dropped.
    assert_eq!(from_bits::<BinaryField4b>(0xf5), from_bits(0x5));
}

#[test]
fn tower_embeddings() {
    let a: BinaryField8b = from_bits(0x57);
    let b: BinaryField8b = from_bits(0x83);
    assert_eq!(BinaryField8b::embed(a), a);
    assert_eq!(<BinaryField16b as FieldEmbedding<BinaryField8b>>::embed(a), from_bits(0x57));
    assert_eq!(<BinaryField32b as FieldEmbedding<BinaryField8b>>::embed(a), from_bits(0x57));
    assert_eq!(<BinaryField128b as FieldEmbedding<BinaryField8b>>::embed(a), from_bits(0x57));
    let c: BinaryField4b = from_bits(0xd);
    assert_eq!(<BinaryField128b as FieldEmbedding<BinaryField4b>>::embed(c), from_bits(0xd));
    let d = BinaryField2b { lo: BinaryField1b(false), hi: BinaryField1b(true) };
    assert_eq!(<BinaryField128b as FieldEmbedding<BinaryField2b>>::embed(d), from_bits(0x2));
    assert_eq!(
        <BinaryField128b as FieldEmbedding<BinaryField1b>>::embed(BinaryField1b(true)),
        BinaryField128b::one()
    );
    let square = <BinaryField128b as FieldEmbedding<BinaryField4b>>::embed(c.mul(c));
    assert_eq!(square, BinaryField128b::embed(c).mul(BinaryField128b::embed(c)));
    let product: BinaryField32b = BinaryField32b::embed(a).mul(BinaryField32b::embed(b));
    assert_eq!(product, BinaryField32b::embed(a.mul(b)));
}

#[test]
fn lanes_of_vectors() {
    let p = packed([1, 2, 3, 4, 5, 6, 7, 8]);
    for l in 0..8 {
        assert_eq!(p.get(l), from_bits(l as u128 + 1));
    }
    assert_eq!(PackedBinaryField8x16b::log_width(), 3);
    assert_eq!(<BinaryField16b as PackedField>::log_width(), 0);
    assert_eq!(
        PackedBinaryField8x16b::broadcast(from_bits(9)),
        packed([9, 9, 9, 9, 9, 9, 9, 9])
    );
    assert_eq!(
        p.add_lanes(packed([1, 1, 1, 1, 2, 2, 2, 2])),
        packed([0, 3, 2, 5, 7, 4, 5, 10])
    );
    let q = p.mul_lanes(packed([2, 2, 0, 1, 2, 1, 0, 3]));
    assert_eq!(q.get(0), from_bits(2));
    assert_eq!(q.get(1), from_bits::<BinaryField16b>(2).mul(from_bits(2)));
    assert_eq!(q.get(2), BinaryField16b::zero());
    assert_eq!(q.get(3), from_bits(4));
    assert_eq!(q.get(7), from_bits::<BinaryField16b>(8).mul(from_bits(3)));
}

#[test]
fn interleaved_vectors() {
    let p = packed([0, 1, 2, 3, 4, 5, 6, 7]);
    let q = packed([8, 9, 10, 11, 12, 13, 14, 15]);
    assert_eq!(
        p.interleave(q, 0),
        (packed([0, 8, 2, 10, 4, 12, 6, 14]), packed([1, 9, 3, 11, 5, 13, 7, 15]))
    );
    assert_eq!(
        p.interleave(q, 1),
        (packed([0, 1, 8, 9, 4, 5, 12, 13]), packed([2, 3, 10, 11, 6, 7, 14, 15]))
    );
    assert_eq!(
        p.interleave(q, 2),
        (packed([0, 1, 2, 3, 8, 9, 10, 11]), packed([4, 5, 6, 7, 12, 13, 14, 15]))
    );
    assert_eq!(p.interleave(q, 3), (p, q));
}
