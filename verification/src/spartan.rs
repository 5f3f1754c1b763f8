//! Proofs that a constraint system is satisfied, by Spartan.
use crate::circuit::{largest, longest};
use crate::field::ell;
use crate::r1cs::{entries, entries_in_range, SpartanInstance};
use crate::scalar::{le_value, values, Scalar};
use crate::system::{assignment, System};
use libspartan::{
    Assignment, ComputationCommitment, ComputationDecommitment, Instance, SNARK, SNARKGens,
};
use merlin::Transcript;
use vstd::prelude::*;

verus! {

/// A constraint system as Spartan holds it.
#[verifier::external_type_specification]
#[verifier::external_body]
pub struct ExInstance(libspartan::Instance);

/// Spartan's public parameters for systems of one size.
#[verifier::external_type_specification]
#[verifier::external_body]
pub struct ExSNARKGens(libspartan::SNARKGens);

/// A proof.
#[verifier::external_type_specification]
#[verifier::external_body]
pub struct ExSNARK(libspartan::SNARK);

/// The values of the variables, or the public values, as Spartan holds them.
#[verifier::external_type_specification]
#[verifier::external_body]
pub struct ExAssignment(libspartan::Assignment);

/// A commitment to a constraint system.
#[verifier::external_type_specification]
#[verifier::external_body]
pub struct ExComputationCommitment(libspartan::ComputationCommitment);

/// What opens a commitment to a constraint system.
#[verifier::external_type_specification]
#[verifier::external_body]
pub struct ExComputationDecommitment(libspartan::ComputationDecommitment);

/// The transcript of a non-interactive proof.
#[verifier::external_type_specification]
#[verifier::external_body]
pub struct ExTranscript(merlin::Transcript);

/// What `Instance::new` makes of dimensions and matrices.
pub uninterp spec fn spartan_instance(
    num_cons: nat,
    num_vars: nat,
    num_inputs: nat,
    a: Seq<(int, int, int)>,
    b: Seq<(int, int, int)>,
    c: Seq<(int, int, int)>,
) -> Instance;

/// What `SNARKGens::new` makes of dimensions and the number of nonzero entries.
pub uninterp spec fn spartan_gens(
    num_cons: nat,
    num_vars: nat,
    num_inputs: nat,
    num_nz_entries: nat,
) -> SNARKGens;

/// What `SNARK::encode` makes of an instance and parameters.
pub uninterp spec fn spartan_encoding(inst: Instance, gens: SNARKGens) -> (
    ComputationCommitment,
    ComputationDecommitment,
);

/// What `Assignment::new` makes of field elements.
pub uninterp spec fn spartan_assignment(elements: Seq<int>) -> Assignment;

/// What `Transcript::new` makes of a label.
pub uninterp spec fn merlin_transcript(label: Seq<u8>) -> Transcript;

/// What `SNARK::verify` says of a proof: that it accepts, or the error with which it refuses,
/// in words, or nothing where it does not return.
pub uninterp spec fn snark_verdict(
    proof: SNARK,
    comm: ComputationCommitment,
    io: Assignment,
    transcript: Transcript,
    gens: SNARKGens,
) -> Option<Result<(), Seq<char>>>;

/// How large a dimension may be: the tables that Spartan makes have to fit in memory that
/// can be addressed.
pub open spec fn dimension_limit() -> int {
    usize::MAX as int / 0x1000
}

/// The number of entries of the fullest matrix.
pub open spec fn fullest(sys: System) -> nat {
    largest(sys.a.len(), sys.b.len(), sys.c.len())
}

/// Whether the dimensions of a system can be handled.
pub open spec fn fits(sys: System) -> bool {
    &&& sys.num_cons <= dimension_limit()
    &&& sys.num_vars <= dimension_limit()
    &&& sys.num_inputs < dimension_limit()
    &&& fullest(sys) <= dimension_limit()
}

/// Whether a system can be committed to: there is a constraint, and where there is only
/// one, some matrix has two entries.
pub open spec fn encodable(sys: System) -> bool {
    &&& fits(sys)
    &&& 1 <= sys.num_cons
    &&& sys.num_cons == 1 ==> 2 <= fullest(sys)
}

/// Whether a system can be proved: some matrix has two entries.
pub open spec fn provable(sys: System) -> bool {
    &&& encodable(sys)
    &&& 2 <= fullest(sys)
}

/// Whether a proof for a system can be judged: the dimensions can be handled, and where the
/// entries are valid, the system can be committed to.
pub open spec fn judgeable(sys: System) -> bool {
    &&& fits(sys)
    &&& sys.entries_valid() ==> encodable(sys)
}

/// Whether a proof for a system can be asked for: the dimensions can be handled, and where the
/// entries are valid, the system can be proved.
pub open spec fn submittable(sys: System) -> bool {
    &&& fits(sys)
    &&& sys.entries_valid() ==> provable(sys)
}

pub open spec fn instance_of(sys: System) -> Instance {
    spartan_instance(sys.num_cons, sys.num_vars, sys.num_inputs, sys.a, sys.b, sys.c)
}

pub open spec fn gens_of(sys: System) -> SNARKGens {
    spartan_gens(sys.num_cons, sys.num_vars, sys.num_inputs, fullest(sys))
}

/// What the verifier answers to a proof for a system with given public values.
pub open spec fn answer(proof: SNARK, sys: System, io: Seq<int>, label: Seq<u8>) -> Option<
    Result<(), Seq<char>>,
> {
    snark_verdict(
        proof,
        spartan_encoding(instance_of(sys), gens_of(sys)).0,
        spartan_assignment(io),
        merlin_transcript(label),
        gens_of(sys),
    )
}

/// Whether the verifier accepts a proof for a system with given public values, where it
/// returns.
pub open spec fn verdict(proof: SNARK, sys: System, io: Seq<int>, label: Seq<u8>) -> Option<bool> {
    match answer(proof, sys, io, label) {
        Some(r) => Some(r is Ok),
        None => None,
    }
}

/// The error with which the verifier refuses a proof, in words.
pub open spec fn refusal(proof: SNARK, sys: System, io: Seq<int>, label: Seq<u8>) -> Seq<char> {
    answer(proof, sys, io, label)->0->Err_0
}

/// Why an instance is refused.
#[derive(Clone, Copy, Debug, PartialEq, Eq)]
pub enum InvalidInstance {
    /// An entry is in a row or a column that does not exist.
    InvalidIndex,
    /// A coefficient is not canonical.
    InvalidScalar,
}

impl InvalidInstance {
    /// The name of the fault.
    pub open spec fn words(self) -> Seq<char> {
        match self {
            InvalidInstance::InvalidIndex => "InvalidIndex"@,
            InvalidInstance::InvalidScalar => "InvalidScalar"@,
        }
    }

    /// The name of the fault.
    pub fn name(&self) -> (r: &'static str)
        ensures
            r@ == self.words(),
    {
        match self {
            InvalidInstance::InvalidIndex => "InvalidIndex",
            InvalidInstance::InvalidScalar => "InvalidScalar",
        }
    }
}

/// What is wrong with an entry.
pub open spec fn entry_fault(e: (int, int, int), rows: nat, cols: nat) -> Option<InvalidInstance> {
    if !(0 <= e.0 < rows && 0 <= e.1 < cols) {
        Some(InvalidInstance::InvalidIndex)
    } else if !(0 <= e.2 < ell()) {
        Some(InvalidInstance::InvalidScalar)
    } else {
        None
    }
}

/// What is wrong with the first faulty entry of a matrix.
pub open spec fn matrix_fault(m: Seq<(int, int, int)>, rows: nat, cols: nat) -> Option<
    InvalidInstance,
>
    decreases m.len(),
{
    if m.len() == 0 {
        None
    } else {
        match matrix_fault(m.drop_last(), rows, cols) {
            Some(f) => Some(f),
            None => entry_fault(m.last(), rows, cols),
        }
    }
}

/// What is wrong with the first faulty entry of a system.
pub open spec fn fault(sys: System) -> Option<InvalidInstance> {
    match matrix_fault(sys.a, sys.num_cons, sys.z_len()) {
        Some(f) => Some(f),
        None => match matrix_fault(sys.b, sys.num_cons, sys.z_len()) {
            Some(f) => Some(f),
            None => matrix_fault(sys.c, sys.num_cons, sys.z_len()),
        },
    }
}

proof fn lemma_matrix_fault(m: Seq<(int, int, int)>, rows: nat, cols: nat)
    ensures
        matrix_fault(m, rows, cols) is None <==> crate::system::entries_valid(m, rows, cols),
    decreases m.len(),
{
    if m.len() > 0 {
        let d = m.drop_last();
        lemma_matrix_fault(d, rows, cols);
        if matrix_fault(m, rows, cols) is None {
            assert forall|i: int| 0 <= i < m.len() implies entry_fault(
                #[trigger] m[i],
                rows,
                cols,
            ) is None by {
                if i < d.len() {
                    assert(d[i] == m[i]);
                }
            }
        }
        if crate::system::entries_valid(m, rows, cols) {
            assert(m[m.len() - 1] == m.last());
            assert forall|i: int| 0 <= i < d.len() implies entry_fault(
                #[trigger] d[i],
                rows,
                cols,
            ) is None by {
                assert(d[i] == m[i]);
            }
        }
    }
}

/// A system has no fault exactly when its entries are valid.
pub proof fn lemma_fault(sys: System)
    ensures
        fault(sys) is None <==> sys.entries_valid(),
{
    lemma_matrix_fault(sys.a, sys.num_cons, sys.z_len());
    lemma_matrix_fault(sys.b, sys.num_cons, sys.z_len());
    lemma_matrix_fault(sys.c, sys.num_cons, sys.z_len());
}

/// `Instance::new` of Spartan. It refuses an entry whose row or column does not exist, and a
/// coefficient that is not canonical, and accepts everything else. The error, which is given
/// by its name, tells of the first such entry of the three matrices in turn.
#[verifier::external_body]
fn new_instance(si: &SpartanInstance) -> (r: Result<Instance, String>)
    requires
        fits(si@),
    ensures
        match r {
            Ok(inst) => fault(si@) is None && inst == spartan_instance(
                si.num_cons as nat,
                si.num_vars as nat,
                si.num_inputs as nat,
                entries(si.A@),
                entries(si.B@),
                entries(si.C@),
            ),
            Err(name) => fault(si@) is Some && name@ == fault(si@)->0.words(),
        },
{
    Instance::new(si.num_cons, si.num_vars, si.num_inputs, &si.A, &si.B, &si.C)
        .map_err(|e| format!("{:?}", e))
}

/// The instance of a system, or what is wrong with it.
fn checked_instance(si: &SpartanInstance) -> (r: Result<Instance, InvalidInstance>)
    requires
        fits(si@),
    ensures
        match r {
            Ok(inst) => si@.entries_valid() && inst == instance_of(si@),
            Err(e) => fault(si@) == Some(e),
        },
{
    proof {
        lemma_fault(si@);
        reveal_strlit("InvalidIndex");
        reveal_strlit("InvalidScalar");
    }
    match new_instance(si) {
        Ok(inst) => Ok(inst),
        Err(name) => {
            assert("InvalidIndex"@.len() != "InvalidScalar"@.len());
            if name == "InvalidIndex".to_owned() {
                Err(InvalidInstance::InvalidIndex)
            } else {
                Err(InvalidInstance::InvalidScalar)
            }
        },
    }
}

/// `SNARKGens::new` of Spartan: the parameters depend on the sizes alone. It needs at least
/// one constraint.
pub assume_specification[ libspartan::SNARKGens::new ](
    num_cons: usize,
    num_vars: usize,
    num_inputs: usize,
    num_nz_entries: usize,
) -> (r: SNARKGens)
    requires
        1 <= num_cons <= dimension_limit(),
        num_vars <= dimension_limit(),
        num_inputs < dimension_limit(),
        num_nz_entries <= dimension_limit(),
    ensures
        r == spartan_gens(
            num_cons as nat,
            num_vars as nat,
            num_inputs as nat,
            num_nz_entries as nat,
        ),
;

/// An instance and parameters that were made for one system.
pub open spec fn made_for(sys: System, inst: Instance, gens: SNARKGens) -> bool {
    &&& sys.entries_valid()
    &&& inst == instance_of(sys)
    &&& gens == gens_of(sys)
}

/// `SNARK::encode` of Spartan: the commitment depends on the instance and the parameters
/// alone. Both have to be made for one system of a size that can be committed to.
pub assume_specification[ libspartan::SNARK::encode ](inst: &Instance, gens: &SNARKGens) -> (r: (
    ComputationCommitment,
    ComputationDecommitment,
))
    requires
        exists|sys: System| #[trigger] made_for(sys, *inst, *gens) && encodable(sys),
    ensures
        r == spartan_encoding(*inst, *gens),
;

/// `Assignment::new` of Spartan. It refuses an encoding that is not canonical, and accepts
/// everything else.
#[verifier::external_body]
fn new_assignment(elements: &Vec<[u8; 32]>) -> (r: Option<Assignment>)
    ensures
        r is Some <==> forall|i: int|
            0 <= i < elements@.len() ==> le_value((#[trigger] elements@[i])@) < ell(),
        r matches Some(x) ==> x == spartan_assignment(integers(elements@)),
{
    Assignment::new(elements).ok()
}

/// The integers that encodings stand for.
pub open spec fn integers(elements: Seq<[u8; 32]>) -> Seq<int> {
    Seq::new(elements.len(), |i: int| le_value(elements[i]@))
}

/// `Transcript::new` of merlin: the transcript depends on the label alone. The length of the
/// label has to fit in 32 bits.
pub assume_specification[ merlin::Transcript::new ](label: &'static [u8]) -> (r: Transcript)
    requires
        label@.len() <= u32::MAX,
    ensures
        r == merlin_transcript(label@),
;

/// The statement of a proof: a system, variables and public values of its dimensions.
pub open spec fn states(
    sys: System,
    vars: Seq<int>,
    io: Seq<int>,
    inst: Instance,
    gens: SNARKGens,
    vars_assignment: Assignment,
    io_assignment: Assignment,
) -> bool {
    &&& made_for(sys, inst, gens)
    &&& vars.len() == sys.num_vars
    &&& io.len() == sys.num_inputs
    &&& vars_assignment == spartan_assignment(vars)
    &&& io_assignment == spartan_assignment(io)
}

/// `SNARK::prove` of Spartan. The proof is randomized, so nothing names it. Where the
/// assignment satisfies the system, the verifier accepts the proof on a transcript in
/// the state in which the prover began. Nothing is said of proofs of false statements.
#[verifier::external_body]
fn snark_prove(
    inst: &Instance,
    comm: &ComputationCommitment,
    decomm: &ComputationDecommitment,
    vars: Assignment,
    io: &Assignment,
    gens: &SNARKGens,
    transcript: &mut Transcript,
) -> (r: SNARK)
    requires
        (*comm, *decomm) == spartan_encoding(*inst, *gens),
        exists|sys: System, v: Seq<int>, w: Seq<int>| #[trigger]
            states(sys, v, w, *inst, *gens, vars, *io) && provable(sys),
    ensures
        (exists|sys: System, v: Seq<int>, w: Seq<int>| #[trigger]
            states(sys, v, w, *inst, *gens, vars, *io) && provable(sys) && sys.satisfied(
                assignment(v, w),
            )) ==> snark_verdict(r, *comm, *io, *old(transcript), *gens) == Some(
            Ok::<(), Seq<char>>(()),
        ),
{
    SNARK::prove(inst, comm, decomm, vars, io, gens, transcript)
}

/// `SNARK::verify` of Spartan: that it accepts, or the error in words. The answer depends on
/// the arguments alone. On a malformed proof, or for the wrong number of public values, it can
/// fail to return; such arguments have no answer.
#[verifier::external_body]
fn snark_verify(
    proof: &SNARK,
    comm: &ComputationCommitment,
    io: &Assignment,
    transcript: &mut Transcript,
    gens: &SNARKGens,
) -> (r: Result<(), String>)
    requires
        snark_verdict(*proof, *comm, *io, *old(transcript), *gens) is Some,
    ensures
        snark_verdict(*proof, *comm, *io, *old(transcript), *gens) == Some(
            match r {
                Ok(_) => Ok::<(), Seq<char>>(()),
                Err(e) => Err(e@),
            },
        ),
{
    proof.verify(comm, io, transcript, gens).map_err(|e| format!("{:?}", e))
}

/// The encodings of field elements.
pub fn scalars_to_bytes(scalars: &[Scalar]) -> (r: Vec<[u8; 32]>)
    ensures
        integers(r@) == values(scalars@),
{
    let mut r: Vec<[u8; 32]> = Vec::new();
    let n: usize = scalars.len();
    let mut i: usize = 0;
    while i < n
        invariant
            n == scalars@.len(),
            i <= n,
            r@.len() == i,
            forall|j: int| 0 <= j < i ==> le_value((#[trigger] r@[j])@) == scalars@[j]@,
        decreases n - i,
    {
        r.push(scalars[i].to_bytes());
        i += 1;
    }
    assert(integers(r@) =~= values(scalars@));
    r
}

/// The number of nonzero entries of the fullest matrix.
pub fn num_non_zero(si: &SpartanInstance) -> (r: usize)
    ensures
        r == fullest(si@),
{
    longest(&si.A, &si.B, &si.C)
}

/// Whether an instance can be committed to.
pub fn can_encode(si: &SpartanInstance) -> (r: bool)
    ensures
        r == encodable(si@),
{
    can_handle(si) && 1 <= si.num_cons && (si.num_cons != 1 || 2 <= num_non_zero(si))
}

/// Whether an instance can be proved.
pub fn can_prove(si: &SpartanInstance) -> (r: bool)
    ensures
        r == provable(si@),
{
    can_encode(si) && 2 <= num_non_zero(si)
}

/// Whether the entries of an instance are valid, given that its dimensions can be handled.
fn has_valid_entries(si: &SpartanInstance) -> (r: bool)
    requires
        fits(si@),
    ensures
        r == si@.entries_valid(),
{
    let z_len: usize = si.num_vars + 1 + si.num_inputs;
    entries_in_range(&si.A, si.num_cons, z_len) && entries_in_range(&si.B, si.num_cons, z_len)
        && entries_in_range(&si.C, si.num_cons, z_len)
}

/// Whether the dimensions of an instance can be handled.
fn can_handle(si: &SpartanInstance) -> (r: bool)
    ensures
        r == fits(si@),
{
    let limit: usize = usize::MAX / 0x1000;
    si.num_cons <= limit && si.num_vars <= limit && si.num_inputs < limit && num_non_zero(si)
        <= limit
}

/// Whether a proof for an instance can be judged.
pub fn can_judge(si: &SpartanInstance) -> (r: bool)
    ensures
        r == judgeable(si@),
{
    can_handle(si) && (can_encode(si) || !has_valid_entries(si))
}

/// Whether a proof for an instance can be asked for.
pub fn can_submit(si: &SpartanInstance) -> (r: bool)
    ensures
        r == submittable(si@),
{
    can_handle(si) && (can_prove(si) || !has_valid_entries(si))
}

/// Field elements as Spartan holds them. Theirs are always canonical.
fn assign(elements: &[Scalar]) -> (r: Option<Assignment>)
    ensures
        r == Some(spartan_assignment(values(elements@))),
{
    let bytes = scalars_to_bytes(elements);
    proof {
        assert(integers(bytes@).len() == values(elements@).len());
        assert forall|i: int| 0 <= i < bytes@.len() implies le_value((#[trigger] bytes@[i])@)
            < ell() by {
            assert(integers(bytes@)[i] == values(elements@)[i]);
            crate::scalar::lemma_scalar_range(elements@[i]);
        }
    }
    new_assignment(&bytes)
}

/// Proves that the variables and the public values satisfy an instance.
pub fn prove(
    si: &SpartanInstance,
    vars: &[Scalar],
    io: &[Scalar],
    label: &'static [u8],
) -> (r: Result<SNARK, InvalidInstance>)
    requires
        vars@.len() == si.num_vars,
        io@.len() == si.num_inputs,
        submittable(si@),
        label@.len() <= u32::MAX,
    ensures
        match r {
            Ok(proof) => {
                &&& si@.entries_valid()
                &&& si@.satisfied(assignment(values(vars@), values(io@))) ==> verdict(
                    proof,
                    si@,
                    values(io@),
                    label@,
                ) == Some(true)
            },
            Err(e) => fault(si@) == Some(e),
        },
        r is Ok <==> si@.entries_valid(),
        r matches Ok(proof) ==> (si@.satisfied(assignment(values(vars@), values(io@))) ==> {
            let inst = spartan_instance(
                si.num_cons as nat,
                si.num_vars as nat,
                si.num_inputs as nat,
                entries(si.A@),
                entries(si.B@),
                entries(si.C@),
            );
            let gens = spartan_gens(
                si.num_cons as nat,
                si.num_vars as nat,
                si.num_inputs as nat,
                largest(si.A@.len(), si.B@.len(), si.C@.len()),
            );
            snark_verdict(
                proof,
                spartan_encoding(inst, gens).0,
                spartan_assignment(values(io@)),
                merlin_transcript(label@),
                gens,
            ) == Some(Ok::<(), Seq<char>>(()))
        }),
{
    proof {
        lemma_fault(si@);
    }
    let nnz: usize = num_non_zero(si);
    let inst = match checked_instance(si) {
        Ok(inst) => inst,
        Err(e) => return Err(e),
    };
    let gens = SNARKGens::new(si.num_cons, si.num_vars, si.num_inputs, nnz);
    assert(made_for(si@, inst, gens));
    let (comm, decomm) = SNARK::encode(&inst, &gens);
    let (av, ai) = match (assign(vars), assign(io)) {
        (Some(av), Some(ai)) => (av, ai),
        _ => return Err(InvalidInstance::InvalidScalar),
    };
    let mut transcript = Transcript::new(label);
    assert(states(si@, values(vars@), values(io@), inst, gens, av, ai));
    let proof = snark_prove(&inst, &comm, &decomm, av, &ai, &gens, &mut transcript);
    Ok(proof)
}

/// What the verifier says of a proof for an instance with the given public values: that it
/// accepts, or why not.
pub fn verify(
    si: &SpartanInstance,
    proof: &SNARK,
    io: &[Scalar],
    label: &'static [u8],
) -> (r: Result<Result<(), String>, InvalidInstance>)
    requires
        judgeable(si@),
        label@.len() <= u32::MAX,
        si@.entries_valid() ==> verdict(*proof, si@, values(io@), label@) is Some,
    ensures
        match r {
            Ok(said) => {
                &&& si@.entries_valid()
                &&& verdict(*proof, si@, values(io@), label@) == Some(said is Ok)
                &&& said matches Err(e) ==> e@ == refusal(*proof, si@, values(io@), label@)
            },
            Err(e) => fault(si@) == Some(e),
        },
        r is Ok <==> si@.entries_valid(),
        r matches Ok(said) ==> {
            let inst = spartan_instance(
                si.num_cons as nat,
                si.num_vars as nat,
                si.num_inputs as nat,
                entries(si.A@),
                entries(si.B@),
                entries(si.C@),
            );
            let gens = spartan_gens(
                si.num_cons as nat,
                si.num_vars as nat,
                si.num_inputs as nat,
                largest(si.A@.len(), si.B@.len(), si.C@.len()),
            );
            snark_verdict(
                *proof,
                spartan_encoding(inst, gens).0,
                spartan_assignment(values(io@)),
                merlin_transcript(label@),
                gens,
            ) == Some(
                match said {
                    Ok(_) => Ok::<(), Seq<char>>(()),
                    Err(e) => Err(e@),
                },
            )
        },
{
    proof {
        lemma_fault(si@);
    }
    let nnz: usize = num_non_zero(si);
    let inst = match checked_instance(si) {
        Ok(inst) => inst,
        Err(e) => return Err(e),
    };
    let gens = SNARKGens::new(si.num_cons, si.num_vars, si.num_inputs, nnz);
    assert(made_for(si@, inst, gens));
    let (comm, _decomm) = SNARK::encode(&inst, &gens);
    let ai = match assign(io) {
        Some(ai) => ai,
        None => return Err(InvalidInstance::InvalidScalar),
    };
    let mut transcript = Transcript::new(label);
    Ok(snark_verify(proof, &comm, &ai, &mut transcript, &gens))
}

} // verus!
