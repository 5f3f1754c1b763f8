//! Hashes of circuits, and the evaluation point that they give.
use crate::circuit::Circuit;
use crate::encoding::{
    bincode_circuit, bincode_instance, circuit_bytes, le_bytes, push_bytes, u64_bytes,
};
use crate::field::ell;
use crate::r1cs::SpartanInstance;
use crate::scalar::{le_value, values, Scalar};
use vstd::prelude::*;

verus! {

/// The first 64 bytes of BLAKE3's extended output on some input.
pub uninterp spec fn blake3_wide(input: Seq<u8>) -> Seq<u8>;

/// `blake3::Hasher`: `new`, `update` with the whole input, `finalize_xof` and `fill` with 64
/// bytes. The output depends on the input alone.
#[verifier::external_body]
fn blake3_hash(input: &[u8]) -> (r: [u8; 64])
    ensures
        r@ == blake3_wide(input@),
{
    let mut hash = [0u8; 64];
    blake3::Hasher::new().update(input).finalize_xof().fill(&mut hash);
    hash
}

/// A circuit could not be encoded.
#[derive(Clone, Copy, Debug, PartialEq, Eq)]
pub struct EncodingError;

/// A 512-bit hash that commits to a circuit.
#[derive(Debug, PartialEq, Eq)]
pub struct CryptoHash(pub [u8; 64]);

impl View for CryptoHash {
    type V = Seq<u8>;

    open spec fn view(&self) -> Seq<u8> {
        self.0@
    }
}

impl Clone for CryptoHash {
    fn clone(&self) -> (r: Self)
        ensures
            r == *self,
    {
        CryptoHash(self.0)
    }
}

/// The encoding of a circuit.
pub open spec fn encoded_circuit(c: &Circuit) -> Seq<u8> {
    circuit_bytes(
        seq![c.num_cons as int, c.num_vars as int, c.num_inputs as int],
        c.A@,
        c.B@,
        c.C@,
    )
}

/// The encoding of an instance.
pub open spec fn encoded_instance(c: &SpartanInstance) -> Seq<u8> {
    circuit_bytes(
        seq![
            c.num_cons as int,
            c.num_vars as int,
            c.num_inputs as int,
            c.num_outputs as int,
        ],
        c.A@,
        c.B@,
        c.C@,
    )
}

/// The field elements that a hash stands for: element `i` is the hash of the hash and `i`,
/// as a 512-bit integer, reduced.
pub open spec fn hash_scalars(hash: Seq<u8>, count: nat) -> Seq<int> {
    Seq::new(count, |i: int| le_value(blake3_wide(hash + le_bytes(i, 8))) % ell())
}

/// The point at which two circuits are compared, given their encodings: it depends on
/// both, so neither can be fitted to it.
pub open spec fn evaluation_point(first: Seq<u8>, second: Seq<u8>, count: nat) -> Seq<int> {
    hash_scalars(blake3_wide(blake3_wide(first) + blake3_wide(second)), count)
}

impl CryptoHash {
    /// Hashes a circuit.
    pub fn from_circuit(circuit: &Circuit) -> (r: Result<CryptoHash, EncodingError>)
        ensures
            r is Ok,
            r->Ok_0@ == blake3_wide(encoded_circuit(circuit)),
    {
        match bincode_circuit(
            circuit.num_cons,
            circuit.num_vars,
            circuit.num_inputs,
            &circuit.A,
            &circuit.B,
            &circuit.C,
        ) {
            Some(bytes) => Ok(CryptoHash(blake3_hash(bytes.as_slice()))),
            None => Err(EncodingError),
        }
    }

    /// Hashes an instance.
    pub fn from_serializable(instance: &SpartanInstance) -> (r: Result<CryptoHash, EncodingError>)
        ensures
            r is Ok,
            r->Ok_0@ == blake3_wide(encoded_instance(instance)),
    {
        match bincode_instance(
            instance.num_cons,
            instance.num_vars,
            instance.num_inputs,
            instance.num_outputs,
            &instance.A,
            &instance.B,
            &instance.C,
        ) {
            Some(bytes) => Ok(CryptoHash(blake3_hash(bytes.as_slice()))),
            None => Err(EncodingError),
        }
    }

    /// Hashes two hashes, one after the other.
    pub fn combine(&self, other: &CryptoHash) -> (r: CryptoHash)
        ensures
            r@ == blake3_wide(self@ + other@),
    {
        let mut input: Vec<u8> = Vec::new();
        push_bytes(&mut input, &self.0);
        push_bytes(&mut input, &other.0);
        assert(input@ =~= self@ + other@);
        CryptoHash(blake3_hash(input.as_slice()))
    }

    /// Derives field elements from the hash.
    pub fn to_scalars(&self, count: usize) -> (r: Vec<Scalar>)
        ensures
            values(r@) == hash_scalars(self@, count as nat),
            r@.len() == count,
            forall|i: int|
                0 <= i < count ==> (#[trigger] r@[i])@ == le_value(
                    blake3_wide(self@ + le_bytes(i, 8)),
                ) % ell(),
    {
        let mut r: Vec<Scalar> = Vec::new();
        let mut i: usize = 0;
        while i < count
            invariant
                i <= count,
                r@.len() == i,
                forall|j: int|
                    0 <= j < i ==> (#[trigger] r@[j])@ == hash_scalars(self@, count as nat)[j],
            decreases count - i,
        {
            let mut input: Vec<u8> = Vec::new();
            push_bytes(&mut input, &self.0);
            let index = u64_bytes(i as u64);
            push_bytes(&mut input, index.as_slice());
            assert(input@ =~= self@ + le_bytes(i as int, 8));
            let wide = blake3_hash(input.as_slice());
            r.push(Scalar::from_bytes_mod_order_wide(&wide));
            i += 1;
        }
        assert(values(r@) =~= hash_scalars(self@, count as nat));
        r
    }
}

} // verus!
