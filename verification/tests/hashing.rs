//! Encodings, hashes and seeds.
use zk_optimization::circuit::Circuit;
use zk_optimization::crypto::CryptoHash;
use zk_optimization::encoding::{push_bytes, u64_bytes};
use zk_optimization::r1cs::SpartanInstance;
use zk_optimization::scalar::Scalar;
use zk_optimization::seed::seed_to_hex;

fn wide(input: &[u8]) -> [u8; 64] {
    let mut out = [0u8; 64];
    blake3::Hasher::new().update(input).finalize_xof().fill(&mut out);
    out
}

fn word(to: &mut Vec<u8>, x: u64) {
    to.extend_from_slice(&x.to_le_bytes());
}

fn small() -> SpartanInstance {
    SpartanInstance {
        num_cons: 2,
        num_vars: 3,
        num_inputs: 4,
        num_outputs: 1,
        A: vec![(0, 1, [7; 32]), (1, 258, [8; 32])],
        B: vec![],
        C: vec![(1, 0, [9; 32])],
    }
}

fn matrices(to: &mut Vec<u8>) {
    word(to, 2);
    word(to, 0);
    word(to, 1);
    to.extend_from_slice(&[7; 32]);
    word(to, 1);
    word(to, 258);
    to.extend_from_slice(&[8; 32]);
    word(to, 0);
    word(to, 1);
    word(to, 1);
    word(to, 0);
    to.extend_from_slice(&[9; 32]);
}

#[test]
fn an_instance_is_hashed_by_its_encoding() {
    let mut bytes = Vec::new();
    for x in [2, 3, 4, 1] {
        word(&mut bytes, x);
    }
    matrices(&mut bytes);
    assert_eq!(CryptoHash::from_serializable(&small()).unwrap().0, wide(&bytes));
}

#[test]
fn a_circuit_is_hashed_without_its_outputs() {
    let mut bytes = Vec::new();
    for x in [2, 3, 4] {
        word(&mut bytes, x);
    }
    matrices(&mut bytes);
    let circuit = Circuit::from_spartan_instance(small());
    assert_eq!(CryptoHash::from_circuit(&circuit).unwrap().0, wide(&bytes));
}

#[test]
fn different_circuits_have_different_hashes() {
    let mut other = small();
    other.A[1].1 = 259;
    assert_ne!(
        CryptoHash::from_serializable(&small()).unwrap(),
        CryptoHash::from_serializable(&other).unwrap()
    );
}

#[test]
fn combining_hashes_depends_on_the_order() {
    let a = CryptoHash([1; 64]);
    let b = CryptoHash([2; 64]);
    let mut both = [1u8; 128];
    both[64..].copy_from_slice(&[2; 64]);
    assert_eq!(a.combine(&b).0, wide(&both));
    assert_ne!(a.combine(&b), b.combine(&a));
}

#[test]
fn scalars_come_from_the_hash_and_their_index() {
    let h = CryptoHash([3; 64]);
    let scalars = h.to_scalars(300);
    assert_eq!(scalars.len(), 300);
    for i in [0usize, 1, 255, 256, 299] {
        let mut input = vec![3u8; 64];
        word(&mut input, i as u64);
        assert_eq!(scalars[i], Scalar::from_bytes_mod_order_wide(&wide(&input)));
    }
    assert_eq!(h.to_scalars(0), vec![]);
    assert_eq!(h.to_scalars(2)[..], scalars[..2]);
}

#[test]
fn a_copy_of_a_hash_is_equal() {
    let h = CryptoHash([4; 64]);
    assert_eq!(h.clone(), h);
}

#[test]
fn words_are_little_endian() {
    assert_eq!(u64_bytes(0x0102_0304_0506_0708), vec![8, 7, 6, 5, 4, 3, 2, 1]);
    let mut v = vec![1u8];
    push_bytes(&mut v, &[2, 3]);
    assert_eq!(v, vec![1, 2, 3]);
}

#[test]
fn a_seed_is_written_in_lower_case() {
    let mut seed = [0u8; 32];
    seed[0] = 42;
    seed[1] = 0xff;
    seed[31] = 0x0b;
    let text = seed_to_hex(&seed);
    assert_eq!(text.len(), 64);
    assert_eq!(&text[..6], "2aff00");
    assert_eq!(&text[62..], "0b");
}
