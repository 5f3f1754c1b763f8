//! Field elements.
use zk_optimization::scalar::{same_scalars, Scalar};

const ORDER: [u8; 32] = [
    237, 211, 245, 92, 26, 99, 18, 88, 214, 156, 247, 162, 222, 249, 222, 20, 0, 0, 0, 0, 0, 0, 0,
    0, 0, 0, 0, 0, 0, 0, 0, 16,
];

fn largest() -> Scalar {
    let mut bytes = ORDER;
    bytes[0] -= 1;
    Scalar::from_canonical_bytes(bytes).unwrap()
}

#[test]
fn small_integers_are_encoded_little_endian() {
    let mut expected = [0u8; 32];
    expected[0] = 0x34;
    expected[1] = 0x12;
    assert_eq!(Scalar::from_u64(0x1234).to_bytes(), expected);
}

#[test]
fn only_canonical_encodings_are_read() {
    assert!(Scalar::from_canonical_bytes(ORDER).is_none());
    assert!(Scalar::from_canonical_bytes([0xff; 32]).is_none());
    assert_eq!(Scalar::from_canonical_bytes([0; 32]), Some(Scalar::zero()));
    assert_eq!(largest().plus(&Scalar::one()), Scalar::zero());
}

#[test]
fn arithmetic_is_modulo_the_order() {
    let five = Scalar::from_u64(5);
    let seven = Scalar::from_u64(7);
    assert_eq!(five.plus(&seven), Scalar::from_u64(12));
    assert_eq!(seven.minus(&five), Scalar::from_u64(2));
    assert_eq!(five.minus(&seven).plus(&Scalar::from_u64(2)), Scalar::zero());
    assert_eq!(five.times(&seven), Scalar::from_u64(35));
    assert_eq!(largest().times(&largest()), Scalar::one());
}

#[test]
fn an_inverse_undoes_its_element() {
    let expected = [
        34, 213, 144, 159, 186, 50, 39, 49, 67, 205, 254, 132, 141, 218, 31, 76, 146, 36, 73, 146,
        36, 73, 146, 36, 73, 146, 36, 73, 146, 36, 73, 2,
    ];
    let seven = Scalar::from_u64(7);
    assert_eq!(seven.invert().to_bytes(), expected);
    assert_eq!(seven.invert().times(&seven), Scalar::one());
}

#[test]
fn wide_integers_are_reduced() {
    let expected = [
        0, 15, 156, 68, 227, 17, 6, 164, 71, 147, 133, 104, 167, 27, 14, 208, 101, 190, 245, 23,
        210, 115, 236, 206, 61, 154, 48, 124, 27, 65, 153, 3,
    ];
    assert_eq!(Scalar::from_bytes_mod_order_wide(&[0xff; 64]).to_bytes(), expected);
    let mut order = [0u8; 64];
    order[..32].copy_from_slice(&ORDER);
    assert!(Scalar::from_bytes_mod_order_wide(&order).is_zero());
}

#[test]
fn elements_are_compared_by_value() {
    let a = [Scalar::from_u64(1), Scalar::from_u64(2)];
    let b = [Scalar::from_u64(1), Scalar::from_u64(3)];
    assert!(a[0].same(&b[0]));
    assert!(!a[1].same(&b[1]));
    assert!(same_scalars(&a, &a));
    assert!(!same_scalars(&a, &b));
    assert!(!same_scalars(&a, &a[..1]));
}
