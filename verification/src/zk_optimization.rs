//! The circuit optimization challenge: a solver makes a circuit smaller and proves that
//! both circuits give the same outputs at a point that depends on both.
use crate::baselines::remove_aliases;
use crate::convert::dag_to_spartan;
use crate::crypto::{blake3_wide, encoded_instance, evaluation_point, CryptoHash};
use crate::dag::{DAG, Graph};
use crate::dag_laws::{law_witness_satisfies, lemma_evaluable_closed, lemma_system_entries};
use crate::elimination::{eliminable, eliminated, Kind};
use crate::encoding::le_bytes;
use crate::evaluate::compute_witness;
use crate::field::ell;
use crate::forward::{determined, solve_witness_forward, solver_returns};
use crate::forward_laws::{lemma_determined, lemma_determined_inputs};
use crate::r1cs::{satisfies, SpartanInstance, WitnessError};
use crate::scalar::{le_value, same_scalars, values, Scalar};
use crate::spartan::{
    encodable, fault, judgeable, lemma_fault, provable, prove, refusal, verdict, verify,
    InvalidInstance,
};
use crate::system::{assignment, System};
use crate::text::{append_field, decimal};
use libspartan::SNARK;
use vstd::prelude::*;
use vstd::string::StringSliceAdditionalSpecFns;

verus! {

/// How hard a challenge is.
#[derive(Clone, Copy, Debug, PartialEq, Eq)]
pub struct Track {
    pub delta: usize,
}

/// A circuit to be optimized.
#[derive(Clone, Debug)]
pub struct Challenge {
    pub seed: [u8; 32],
    pub delta: usize,
    pub circuit_c0: SpartanInstance,
    pub num_circuit_inputs: usize,
    pub num_circuit_outputs: usize,
}

/// An optimized circuit, the outputs of both circuits and the proofs for them.
pub struct Solution {
    pub circuit_star: SpartanInstance,
    pub y0_pub: Vec<Scalar>,
    pub y_star_pub: Vec<Scalar>,
    pub proof0: SNARK,
    pub proof_star: SNARK,
}

/// Why a challenge could not be made, or a solution is not accepted.
#[derive(Debug)]
pub enum ChallengeError {
    /// A circuit could not be hashed.
    Encoding,
    /// The optimized circuit is not smaller.
    NotSmaller { num_cons: usize, limit: usize },
    /// The optimized circuit has other numbers of public values or outputs.
    OtherShape {
        num_inputs: usize,
        num_outputs: usize,
        expected_inputs: usize,
        expected_outputs: usize,
    },
    /// The optimized circuit does not determine its variables and outputs.
    NotAFunction(WitnessError),
    /// The values that the optimized circuit determines do not satisfy it.
    Unsatisfied,
    /// The optimized circuit has other outputs than claimed.
    WrongOutputs,
    /// The claimed outputs of the two circuits differ.
    OutputMismatch,
    /// The baseline circuit is malformed.
    InvalidBaseline(InvalidInstance),
    /// The optimized circuit is malformed.
    InvalidOptimized(InvalidInstance),
    /// The proof for the baseline circuit is not accepted, with the verifier's error.
    ProofRejected(String),
    /// The proof for the optimized circuit is not accepted, with the verifier's error.
    StarProofRejected(String),
    /// No witness of the optimized circuit was found.
    WitnessFailed(WitnessError),
}

impl ChallengeError {
    /// The error in words.
    pub open spec fn words(self) -> Seq<char> {
        match self {
            ChallengeError::Encoding => "circuit could not be encoded"@,
            ChallengeError::NotSmaller { num_cons, limit } => "C* has "@ + decimal(num_cons as nat)
                + " constraints, must be < "@ + decimal(limit as nat) + " (C⁰)"@,
            ChallengeError::OtherShape {
                num_inputs,
                num_outputs,
                expected_inputs,
                expected_outputs,
            } => "C* I/O shape ("@ + decimal(num_inputs as nat) + "/"@ + decimal(
                num_outputs as nat,
            ) + ") differs from C0 ("@ + decimal(expected_inputs as nat) + "/"@ + decimal(
                expected_outputs as nat,
            ) + ")"@,
            ChallengeError::NotAFunction(w) => "C* is not a well-formed function: "@ + w.words(),
            ChallengeError::Unsatisfied =>
                "C* forward-solved witness does not satisfy all constraints"@,
            ChallengeError::WrongOutputs => "C* solved outputs != claimed y_star_pub"@,
            ChallengeError::OutputMismatch =>
                "Output mismatch: C⁰ and C* produced different outputs"@,
            ChallengeError::InvalidBaseline(e) => "Spartan instance for C⁰: "@ + e.words(),
            ChallengeError::InvalidOptimized(e) => "Spartan instance for C*: "@ + e.words(),
            ChallengeError::ProofRejected(e) => "π⁰ verification failed: "@ + e@,
            ChallengeError::StarProofRejected(e) => "π* verification failed: "@ + e@,
            ChallengeError::WitnessFailed(w) => "C* witness solver failed: "@ + w.words(),
        }
    }

    /// The error in words.
    pub fn message(&self) -> (r: String)
        ensures
            r@ == self.words(),
    {
        let mut text: String = String::new();
        match self {
            ChallengeError::Encoding => text.append("circuit could not be encoded"),
            ChallengeError::NotSmaller { num_cons, limit } => {
                append_field(&mut text, "C* has ", *num_cons);
                append_field(&mut text, " constraints, must be < ", *limit);
                text.append(" (C⁰)");
            },
            ChallengeError::OtherShape {
                num_inputs,
                num_outputs,
                expected_inputs,
                expected_outputs,
            } => {
                append_field(&mut text, "C* I/O shape (", *num_inputs);
                append_field(&mut text, "/", *num_outputs);
                append_field(&mut text, ") differs from C0 (", *expected_inputs);
                append_field(&mut text, "/", *expected_outputs);
                text.append(")");
            },
            ChallengeError::NotAFunction(w) => {
                text.append("C* is not a well-formed function: ");
                w.append_to(&mut text);
            },
            ChallengeError::Unsatisfied => text.append(
                "C* forward-solved witness does not satisfy all constraints",
            ),
            ChallengeError::WrongOutputs => text.append("C* solved outputs != claimed y_star_pub"),
            ChallengeError::OutputMismatch => text.append(
                "Output mismatch: C⁰ and C* produced different outputs",
            ),
            ChallengeError::InvalidBaseline(e) => {
                text.append("Spartan instance for C⁰: ");
                text.append(e.name());
            },
            ChallengeError::InvalidOptimized(e) => {
                text.append("Spartan instance for C*: ");
                text.append(e.name());
            },
            ChallengeError::ProofRejected(e) => {
                text.append("π⁰ verification failed: ");
                text.append(e.as_str());
            },
            ChallengeError::StarProofRejected(e) => {
                text.append("π* verification failed: ");
                text.append(e.as_str());
            },
            ChallengeError::WitnessFailed(w) => {
                text.append("C* witness solver failed: ");
                w.append_to(&mut text);
            },
        }
        assert(text@ =~= self.words());
        text
    }
}

/// The label of the transcript of proofs for the baseline circuit.
pub open spec fn baseline_label() -> Seq<u8> {
    "ZKChallenge_C0".spec_bytes()
}

/// The label of the transcript of proofs for the optimized circuit.
pub open spec fn optimized_label() -> Seq<u8> {
    "ZKChallenge_Cstar".spec_bytes()
}

/// The labels are short.
pub proof fn lemma_labels()
    ensures
        baseline_label().len() == 14,
        optimized_label().len() == 17,
{
    reveal_strlit("ZKChallenge_C0");
    reveal_strlit("ZKChallenge_Cstar");
    vstd::string::is_ascii_spec_bytes("ZKChallenge_C0");
    vstd::string::is_ascii_spec_bytes("ZKChallenge_Cstar");
    assert(vstd::string::is_ascii("ZKChallenge_C0"));
    assert(vstd::string::is_ascii("ZKChallenge_Cstar"));
}

/// What becomes of a solution.
pub enum Outcome {
    NotSmaller,
    OtherShape,
    NotAFunction,
    Unsatisfied,
    WrongOutputs,
    OutputMismatch,
    InvalidBaseline,
    ProofRejected,
    StarProofRejected,
    Accepted,
}

impl Challenge {
    /// The point at which an optimized circuit is compared with the baseline.
    pub open spec fn point(&self, circuit_star: &SpartanInstance) -> Seq<int> {
        evaluation_point(
            encoded_instance(&self.circuit_c0),
            encoded_instance(circuit_star),
            self.num_circuit_inputs as nat,
        )
    }

    /// The outcome of all checks but those of the proofs, in the order in which they are
    /// made, when the circuits are compared at a given point.
    pub open spec fn circuit_outcome(&self, solution: &Solution, point: Seq<int>) -> Outcome {
        let star = &solution.circuit_star;
        let first = star.num_vars + 1;
        if star.num_cons >= self.circuit_c0.num_cons {
            Outcome::NotSmaller
        } else if star.num_inputs != self.circuit_c0.num_inputs || star.num_outputs
            != self.num_circuit_outputs {
            Outcome::OtherShape
        } else {
            match determined(star@, self.num_circuit_outputs as nat, point) {
                None => Outcome::NotAFunction,
                Some(z) => if !star@.satisfied(z) {
                    Outcome::Unsatisfied
                } else if z.subrange(first, first + self.num_circuit_outputs) != values(
                    solution.y_star_pub@,
                ) {
                    Outcome::WrongOutputs
                } else if values(solution.y0_pub@) != values(solution.y_star_pub@) {
                    Outcome::OutputMismatch
                } else {
                    Outcome::Accepted
                },
            }
        }
    }

    /// What the verifier says of the proof for the baseline.
    pub open spec fn baseline_verdict(&self, solution: &Solution) -> Option<bool> {
        verdict(
            solution.proof0,
            self.circuit_c0@,
            values(solution.y0_pub@) + self.point(&solution.circuit_star),
            baseline_label(),
        )
    }

    /// What the verifier says of the proof for the optimized circuit.
    pub open spec fn star_verdict(&self, solution: &Solution) -> Option<bool> {
        verdict(
            solution.proof_star,
            solution.circuit_star@,
            values(solution.y_star_pub@) + self.point(&solution.circuit_star),
            optimized_label(),
        )
    }

    /// The outcome of all checks, in the order in which they are made.
    pub open spec fn outcome(&self, solution: &Solution) -> Outcome {
        match self.circuit_outcome(solution, self.point(&solution.circuit_star)) {
            Outcome::Accepted => if !self.circuit_c0@.entries_valid() {
                Outcome::InvalidBaseline
            } else if self.baseline_verdict(solution) != Some(true) {
                Outcome::ProofRejected
            } else if self.star_verdict(solution) != Some(true) {
                Outcome::StarProofRejected
            } else {
                Outcome::Accepted
            },
            refused => refused,
        }
    }

    /// Whether the proofs can be checked, where the checks come that far: the circuits are of
    /// a size that can be committed to, and the verifier returns.
    pub open spec fn checkable(&self, solution: &Solution) -> bool {
        self.circuit_outcome(solution, self.point(&solution.circuit_star)) is Accepted ==> {
            &&& judgeable(self.circuit_c0@)
            &&& self.circuit_c0@.entries_valid() ==> self.baseline_verdict(solution) is Some
            &&& self.circuit_c0@.entries_valid() && self.baseline_verdict(solution) == Some(true)
                ==> encodable(solution.circuit_star@) && self.star_verdict(solution) is Some
        }
    }

    /// Whether an error tells of an outcome.
    pub open spec fn reports(
        &self,
        solution: &Solution,
        point: Seq<int>,
        e: ChallengeError,
        o: Outcome,
    ) -> bool {
        let star = &solution.circuit_star;
        match o {
            Outcome::NotSmaller => e matches ChallengeError::NotSmaller { num_cons, limit }
                && num_cons == star.num_cons && limit == self.circuit_c0.num_cons,
            Outcome::OtherShape => e == (ChallengeError::OtherShape {
                num_inputs: star.num_inputs,
                num_outputs: star.num_outputs,
                expected_inputs: self.circuit_c0.num_inputs,
                expected_outputs: self.num_circuit_outputs,
            }),
            Outcome::NotAFunction => e matches ChallengeError::NotAFunction(w) && solver_returns(
                star@,
                self.num_circuit_outputs as nat,
                point,
                Err(w),
            ),
            Outcome::Unsatisfied => e is Unsatisfied,
            Outcome::WrongOutputs => e is WrongOutputs,
            Outcome::OutputMismatch => e is OutputMismatch,
            Outcome::InvalidBaseline => e matches ChallengeError::InvalidBaseline(f) && fault(
                self.circuit_c0@,
            ) == Some(f),
            Outcome::ProofRejected => e matches ChallengeError::ProofRejected(t) && t@ == refusal(
                solution.proof0,
                self.circuit_c0@,
                values(solution.y0_pub@) + point,
                baseline_label(),
            ),
            Outcome::StarProofRejected => e matches ChallengeError::StarProofRejected(t) && t@
                == refusal(
                solution.proof_star,
                star@,
                values(solution.y_star_pub@) + point,
                optimized_label(),
            ),
            Outcome::Accepted => false,
        }
    }

    /// Makes a challenge of a circuit.
    pub fn generate_instance(seed: &[u8; 32], track: &Track, dag: &DAG) -> (r: Result<
        Challenge,
        ChallengeError,
    >)
        requires
            dag.wf(),
            dag@.closed_under_operands(),
            dag@.z_len() <= usize::MAX,
        ensures
            r is Ok,
            r->Ok_0.seed == *seed,
            r->Ok_0.delta == track.delta,
            r->Ok_0.circuit_c0@ == dag@.system(),
            r->Ok_0.num_circuit_inputs == dag.num_inputs,
            r->Ok_0.num_circuit_outputs == dag.num_outputs,
    {
        let circuit_c0 = dag_to_spartan(dag);
        Ok(
            Challenge {
                seed: *seed,
                delta: track.delta,
                circuit_c0,
                num_circuit_inputs: dag.num_inputs,
                num_circuit_outputs: dag.num_outputs,
            },
        )
    }

    /// Derives the point at which an optimized circuit is compared with the baseline.
    pub fn derive_point(&self, circuit_star: &SpartanInstance) -> (r: Result<
        Vec<Scalar>,
        ChallengeError,
    >)
        ensures
            r is Ok,
            values(r->Ok_0@) == self.point(circuit_star),
            r->Ok_0@.len() == self.num_circuit_inputs,
            forall|i: int|
                0 <= i < self.num_circuit_inputs ==> (#[trigger] r->Ok_0@[i])@ == le_value(
                    blake3_wide(
                        blake3_wide(
                            blake3_wide(encoded_instance(&self.circuit_c0)) + blake3_wide(
                                encoded_instance(circuit_star),
                            ),
                        ) + le_bytes(i, 8),
                    ),
                ) % ell(),
    {
        let h0 = match CryptoHash::from_serializable(&self.circuit_c0) {
            Ok(h) => h,
            Err(_) => return Err(ChallengeError::Encoding),
        };
        let h_star = match CryptoHash::from_serializable(circuit_star) {
            Ok(h) => h,
            Err(_) => return Err(ChallengeError::Encoding),
        };
        Ok(h0.combine(&h_star).to_scalars(self.num_circuit_inputs))
    }

    /// Makes all checks of a solution but those of the proofs, at a given point.
    pub fn check_circuits(&self, solution: &Solution, x_eval: &Vec<Scalar>) -> (r: Result<
        (),
        ChallengeError,
    >)
        ensures
            match r {
                Ok(_) => self.circuit_outcome(solution, values(x_eval@)) is Accepted,
                Err(e) => self.reports(
                    solution,
                    values(x_eval@),
                    e,
                    self.circuit_outcome(solution, values(x_eval@)),
                ),
            },
            r is Ok <==> {
                let no = self.num_circuit_outputs as nat;
                let star = &solution.circuit_star;
                let first = star.num_vars + 1;
                &&& star.num_cons < self.circuit_c0.num_cons
                &&& star.num_inputs == self.circuit_c0.num_inputs
                &&& star.num_outputs == self.num_circuit_outputs
                &&& determined(star@, no, values(x_eval@)) matches Some(z) && star@.satisfied(z)
                    && z.subrange(first, first + no) == values(solution.y_star_pub@)
                &&& values(solution.y0_pub@) == values(solution.y_star_pub@)
            },
    {
        let star = &solution.circuit_star;
        if star.num_cons >= self.circuit_c0.num_cons {
            return Err(
                ChallengeError::NotSmaller {
                    num_cons: star.num_cons,
                    limit: self.circuit_c0.num_cons,
                },
            );
        }
        if star.num_inputs != self.circuit_c0.num_inputs || star.num_outputs
            != self.num_circuit_outputs {
            return Err(
                ChallengeError::OtherShape {
                    num_inputs: star.num_inputs,
                    num_outputs: star.num_outputs,
                    expected_inputs: self.circuit_c0.num_inputs,
                    expected_outputs: self.num_circuit_outputs,
                },
            );
        }
        let (vars_star, io_star) = match solve_witness_forward(
            star,
            self.num_circuit_outputs,
            x_eval.as_slice(),
        ) {
            Ok(w) => w,
            Err(e) => return Err(ChallengeError::NotAFunction(e)),
        };
        let ghost z = determined(star@, self.num_circuit_outputs as nat, values(x_eval@))->0;
        let ghost first = star.num_vars + 1;
        proof {
            lemma_determined(star@, self.num_circuit_outputs as nat, values(x_eval@));
            assert(assignment(values(vars_star@), values(io_star@)) =~= z);
        }
        if !satisfies(star, vars_star.as_slice(), io_star.as_slice()) {
            return Err(ChallengeError::Unsatisfied);
        }
        let solved = first_scalars(&io_star, self.num_circuit_outputs);
        assert(values(solved@) =~= z.subrange(first, first + self.num_circuit_outputs));
        if !same_scalars(solved.as_slice(), solution.y_star_pub.as_slice()) {
            return Err(ChallengeError::WrongOutputs);
        }
        if !same_scalars(solution.y0_pub.as_slice(), solution.y_star_pub.as_slice()) {
            return Err(ChallengeError::OutputMismatch);
        }
        Ok(())
    }

    /// Checks a solution and gives the number of constraints of its circuit.
    ///
    /// The optimized circuit has to be smaller, have the same shape and determine its
    /// outputs; both circuits have to have the claimed outputs at the point that their
    /// hashes give; and both proofs have to verify.
    pub fn evaluate_num_constraints(&self, solution: &Solution) -> (r: Result<usize, ChallengeError>)
        requires
            self.checkable(solution),
        ensures
            match r {
                Ok(n) => self.outcome(solution) is Accepted && n == solution.circuit_star.num_cons,
                Err(e) => self.reports(
                    solution,
                    self.point(&solution.circuit_star),
                    e,
                    self.outcome(solution),
                ),
            },
            r is Ok <==> {
                let no = self.num_circuit_outputs as nat;
                let star = &solution.circuit_star;
                let point = self.point(star);
                let first = star.num_vars + 1;
                &&& star.num_cons < self.circuit_c0.num_cons
                &&& star.num_inputs == self.circuit_c0.num_inputs
                &&& star.num_outputs == self.num_circuit_outputs
                &&& determined(star@, no, point) matches Some(z) && star@.satisfied(z)
                    && z.subrange(first, first + no) == values(solution.y_star_pub@)
                &&& values(solution.y0_pub@) == values(solution.y_star_pub@)
                &&& self.circuit_c0@.entries_valid()
                &&& verdict(
                    solution.proof0,
                    self.circuit_c0@,
                    values(solution.y0_pub@) + point,
                    "ZKChallenge_C0".spec_bytes(),
                ) == Some(true)
                &&& verdict(
                    solution.proof_star,
                    star@,
                    values(solution.y_star_pub@) + point,
                    "ZKChallenge_Cstar".spec_bytes(),
                ) == Some(true)
            },
    {
        let x_eval = match self.derive_point(&solution.circuit_star) {
            Ok(x) => x,
            Err(e) => return Err(e),
        };
        if let Err(e) = self.check_circuits(solution, &x_eval) {
            return Err(e);
        }
        let io0 = concat_scalars(&solution.y0_pub, &x_eval);
        proof {
            lemma_labels();
            lemma_fault(self.circuit_c0@);
            lemma_fault(solution.circuit_star@);
        }
        let verdict0 = verify(
            &self.circuit_c0,
            &solution.proof0,
            io0.as_slice(),
            "ZKChallenge_C0".as_bytes(),
        );
        if let Err(e) = judge_baseline(verdict0) {
            return Err(e);
        }
        let io_star = concat_scalars(&solution.y_star_pub, &x_eval);
        let verdict_star = verify(
            &solution.circuit_star,
            &solution.proof_star,
            io_star.as_slice(),
            "ZKChallenge_Cstar".as_bytes(),
        );
        if let Err(e) = judge_star(verdict_star) {
            return Err(e);
        }
        Ok(solution.circuit_star.num_cons)
    }

    /// Whether the challenge was made of a circuit.
    pub open spec fn made_of(&self, g: Graph) -> bool {
        &&& self.circuit_c0@ == g.system()
        &&& self.num_circuit_inputs == g.num_free_inputs()
        &&& self.num_circuit_outputs == g.num_outputs
    }

    /// Whether a solution is what the solver makes of an optimized circuit at a point: the
    /// circuit, the outputs of both circuits, and proofs that the verifier accepts where
    /// the statement is true.
    pub open spec fn built(
        &self,
        circuit_star: &SpartanInstance,
        g: Graph,
        point: Seq<int>,
        s: &Solution,
    ) -> bool {
        let z = determined(circuit_star@, self.num_circuit_outputs as nat, point)->0;
        let first = circuit_star.num_vars + 1;
        &&& s.circuit_star@ == circuit_star@
        &&& encoded_instance(&s.circuit_star) == encoded_instance(circuit_star)
        &&& values(s.y0_pub@) == g.public_values(point).take(g.num_outputs as int)
        &&& values(s.y_star_pub@) == z.subrange(first, first + self.num_circuit_outputs)
        &&& verdict(s.proof0, self.circuit_c0@, g.public_values(point), baseline_label()) == Some(
            true,
        )
        &&& circuit_star@.satisfied(z) ==> verdict(
            s.proof_star,
            circuit_star@,
            z.skip(first),
            optimized_label(),
        ) == Some(true)
    }

    /// Builds a solution at a given point.
    pub fn build_solution_at(
        &self,
        circuit_star: &SpartanInstance,
        dag: &DAG,
        x_eval: &Vec<Scalar>,
    ) -> (r: Result<Solution, ChallengeError>)
        requires
            dag.wf(),
            dag@.evaluable(),
            dag@.z_len() <= usize::MAX,
            self.made_of(dag@),
            x_eval@.len() == self.num_circuit_inputs,
            determined(
                circuit_star@,
                self.num_circuit_outputs as nat,
                values(x_eval@),
            ) is Some ==> provable(self.circuit_c0@) && provable(circuit_star@),
        ensures
            match r {
                Ok(s) => determined(
                    circuit_star@,
                    self.num_circuit_outputs as nat,
                    values(x_eval@),
                ) is Some && self.built(circuit_star, dag@, values(x_eval@), &s),
                Err(e) => e matches ChallengeError::WitnessFailed(w) && solver_returns(
                    circuit_star@,
                    self.num_circuit_outputs as nat,
                    values(x_eval@),
                    Err(w),
                ),
            },
    {
        let ghost g = dag@;
        let ghost point = values(x_eval@);
        let ghost no = self.num_circuit_outputs as nat;
        let ghost first = circuit_star.num_vars + 1;
        let (vars0, io0) = compute_witness(dag, x_eval.as_slice());
        proof {
            law_witness_satisfies(g, point);
            lemma_evaluable_closed(g);
            lemma_system_entries(g);
            assert(g.public_values(point).len() == g.num_outputs + g.num_free_inputs());
            assert(assignment(values(vars0@), values(io0@)) == g.witness(point));
            assert(values(vars0@).len() == g.num_private()) by {
                assert(g.witness(point).len() == g.z_len());
            }
        }
        let (vars_star, io_star) = match solve_witness_forward(
            circuit_star,
            self.num_circuit_outputs,
            x_eval.as_slice(),
        ) {
            Ok(w) => w,
            Err(e) => return Err(ChallengeError::WitnessFailed(e)),
        };
        let ghost z = determined(circuit_star@, no, point)->0;
        proof {
            lemma_determined(circuit_star@, no, point);
            assert(assignment(values(vars_star@), values(io_star@)) =~= z);
            assert(values(vars_star@).len() == circuit_star.num_vars);
            assert(values(io_star@).len() == circuit_star.num_inputs);
            lemma_labels();
            lemma_fault(self.circuit_c0@);
            lemma_fault(circuit_star@);
        }
        let proof0 = match prove(
            &self.circuit_c0,
            vars0.as_slice(),
            io0.as_slice(),
            "ZKChallenge_C0".as_bytes(),
        ) {
            Ok(p) => p,
            Err(e) => return Err(ChallengeError::InvalidBaseline(e)),
        };
        let proof_star = match prove(
            circuit_star,
            vars_star.as_slice(),
            io_star.as_slice(),
            "ZKChallenge_Cstar".as_bytes(),
        ) {
            Ok(p) => p,
            Err(e) => return Err(ChallengeError::InvalidOptimized(e)),
        };
        let y0_pub = first_scalars(&io0, self.num_circuit_outputs);
        let y_star_pub = first_scalars(&io_star, self.num_circuit_outputs);
        proof {
            assert(values(y_star_pub@) =~= z.subrange(first, first + self.num_circuit_outputs));
        }
        Ok(
            Solution {
                circuit_star: circuit_star.clone(),
                y0_pub,
                y_star_pub,
                proof0,
                proof_star,
            },
        )
    }

    /// Builds a solution of an optimized circuit: the outputs of both circuits at the point
    /// that their hashes give, and the proofs.
    pub fn build_solution(&self, circuit_star: &SpartanInstance, dag: &DAG) -> (r: Result<
        Solution,
        ChallengeError,
    >)
        requires
            dag.wf(),
            dag@.evaluable(),
            dag@.z_len() <= usize::MAX,
            self.made_of(dag@),
            forall|x: Seq<int>|
                (#[trigger] determined(
                    circuit_star@,
                    self.num_circuit_outputs as nat,
                    x,
                )) is Some ==> provable(self.circuit_c0@) && provable(circuit_star@),
        ensures
            match r {
                Ok(s) => determined(
                    circuit_star@,
                    self.num_circuit_outputs as nat,
                    self.point(circuit_star),
                ) is Some && self.built(circuit_star, dag@, self.point(circuit_star), &s),
                Err(e) => e matches ChallengeError::WitnessFailed(w) && solver_returns(
                    circuit_star@,
                    self.num_circuit_outputs as nat,
                    self.point(circuit_star),
                    Err(w),
                ),
            },
    {
        let x_eval = match self.derive_point(circuit_star) {
            Ok(x) => x,
            Err(e) => return Err(e),
        };
        assert(values(x_eval@).len() == self.num_circuit_inputs);
        self.build_solution_at(circuit_star, dag, &x_eval)
    }

    /// What becomes of an optimized circuit when an honest solver submits it, given the
    /// point of comparison.
    pub open spec fn honest_outcome(
        &self,
        circuit_star: &SpartanInstance,
        g: Graph,
        point: Seq<int>,
    ) -> Outcome {
        let first = circuit_star.num_vars + 1;
        if circuit_star.num_cons >= self.circuit_c0.num_cons {
            Outcome::NotSmaller
        } else if circuit_star.num_inputs != self.circuit_c0.num_inputs || circuit_star.num_outputs
            != self.num_circuit_outputs {
            Outcome::OtherShape
        } else {
            match determined(circuit_star@, self.num_circuit_outputs as nat, point) {
                None => Outcome::NotAFunction,
                Some(z) => if !circuit_star@.satisfied(z) {
                    Outcome::Unsatisfied
                } else if z.subrange(first, first + self.num_circuit_outputs)
                    != g.public_values(point).take(g.num_outputs as int) {
                    Outcome::OutputMismatch
                } else {
                    Outcome::Accepted
                },
            }
        }
    }

    /// The proofs of a solution that was built from a circuit can be checked, and the
    /// solution is accepted exactly when the circuit is smaller, has the same shape, and
    /// determines values that satisfy it and the same outputs.
    pub proof fn law_built_solution(&self, circuit_star: &SpartanInstance, g: Graph, s: &Solution)
        requires
            g.evaluable(),
            self.made_of(g),
            provable(self.circuit_c0@),
            provable(circuit_star@),
            determined(
                circuit_star@,
                self.num_circuit_outputs as nat,
                self.point(circuit_star),
            ) is Some,
            self.built(circuit_star, g, self.point(circuit_star), s),
        ensures
            self.checkable(s),
            self.outcome(s) == self.honest_outcome(circuit_star, g, self.point(circuit_star)),
    {
        let point = self.point(circuit_star);
        let no = self.num_circuit_outputs as nat;
        let z = determined(circuit_star@, no, point)->0;
        let first = circuit_star.num_vars + 1;
        lemma_evaluable_closed(g);
        lemma_system_entries(g);
        lemma_determined(circuit_star@, no, point);
        assert(self.point(&s.circuit_star) == point);
        assert(point.len() == self.num_circuit_inputs);
        assert(values(s.y0_pub@) + point =~= g.public_values(point));
        if circuit_star@.satisfied(z) {
            lemma_determined_inputs(circuit_star@, no, point);
            assert(values(s.y_star_pub@) + point =~= z.skip(first));
        }
    }

    /// Builds a solution of an optimized circuit and evaluates it: what an honest solver
    /// who submits the circuit is told.
    pub fn evaluate_circuit(&self, circuit_star: &SpartanInstance, dag: &DAG) -> (r: Result<
        usize,
        ChallengeError,
    >)
        requires
            dag.wf(),
            dag@.evaluable(),
            dag@.z_len() <= usize::MAX,
            self.made_of(dag@),
            forall|x: Seq<int>|
                (#[trigger] determined(
                    circuit_star@,
                    self.num_circuit_outputs as nat,
                    x,
                )) is Some ==> provable(self.circuit_c0@) && provable(circuit_star@),
        ensures
            ({
                let point = self.point(circuit_star);
                let no = self.num_circuit_outputs as nat;
                if determined(circuit_star@, no, point) is None {
                    r matches Err(ChallengeError::WitnessFailed(w)) && solver_returns(
                        circuit_star@,
                        no,
                        point,
                        Err(w),
                    )
                } else {
                    match self.honest_outcome(circuit_star, dag@, point) {
                        Outcome::Accepted => r == Ok::<usize, ChallengeError>(
                            circuit_star.num_cons,
                        ),
                        Outcome::NotSmaller => r == Err::<usize, ChallengeError>(
                            ChallengeError::NotSmaller {
                                num_cons: circuit_star.num_cons,
                                limit: self.circuit_c0.num_cons,
                            },
                        ),
                        Outcome::OtherShape => r == Err::<usize, ChallengeError>(
                            ChallengeError::OtherShape {
                                num_inputs: circuit_star.num_inputs,
                                num_outputs: circuit_star.num_outputs,
                                expected_inputs: self.circuit_c0.num_inputs,
                                expected_outputs: self.num_circuit_outputs,
                            },
                        ),
                        Outcome::Unsatisfied => r matches Err(ChallengeError::Unsatisfied),
                        _ => r matches Err(ChallengeError::OutputMismatch),
                    }
                }
            }),
            r is Ok <==> {
                let no = self.num_circuit_outputs as nat;
                let point = self.point(circuit_star);
                let first = circuit_star.num_vars + 1;
                &&& circuit_star.num_cons < self.circuit_c0.num_cons
                &&& circuit_star.num_inputs == self.circuit_c0.num_inputs
                &&& circuit_star.num_outputs == self.num_circuit_outputs
                &&& determined(circuit_star@, no, point) matches Some(z) && circuit_star@.satisfied(
                    z,
                ) && (forall|k: int|
                    0 <= k < no ==> #[trigger] z[first + k] == dag@.value(point, k))
            },
    {
        proof {
            lemma_same_outputs(circuit_star@, dag@, self.point(circuit_star));
        }
        let solution = match self.build_solution(circuit_star, dag) {
            Ok(s) => s,
            Err(e) => return Err(e),
        };
        proof {
            self.law_built_solution(circuit_star, dag@, &solution);
        }
        self.evaluate_num_constraints(&solution)
    }

    /// The number of constraints that removing aliases leaves.
    pub fn compute_baseline(&self) -> (r: Result<usize, ChallengeError>)
        requires
            eliminable(Kind::Alias, self.circuit_c0@),
        ensures
            r is Ok,
            r->Ok_0 == eliminated(Kind::Alias, self.circuit_c0@).num_cons,
    {
        Ok(remove_aliases(&self.circuit_c0).num_cons)
    }
}

/// Whether a determined assignment has the outputs of a circuit, one by one.
pub proof fn lemma_same_outputs(sys: System, g: Graph, point: Seq<int>)
    ensures
        determined(sys, g.num_outputs, point) matches Some(z) ==> (z.subrange(
            sys.num_vars as int + 1,
            sys.num_vars as int + 1 + g.num_outputs,
        ) == g.public_values(point).take(g.num_outputs as int) <==> forall|k: int|
            0 <= k < g.num_outputs ==> #[trigger] z[sys.num_vars as int + 1 + k] == g.value(
                point,
                k,
            )),
{
    if let Some(z) = determined(sys, g.num_outputs, point) {
        let first = sys.num_vars as int + 1;
        let part = z.subrange(first, first + g.num_outputs);
        let outputs = g.public_values(point).take(g.num_outputs as int);
        lemma_determined(sys, g.num_outputs, point);
        if part == outputs {
            assert forall|k: int| 0 <= k < g.num_outputs implies #[trigger] z[first + k] == g.value(
                point,
                k,
            ) by {
                assert(part[k] == outputs[k]);
            }
        }
        if forall|k: int|
            0 <= k < g.num_outputs ==> #[trigger] z[first + k] == g.value(point, k) {
            assert forall|k: int| 0 <= k < g.num_outputs implies part[k] == outputs[k] by {
                assert(z[first + k] == g.value(point, k));
            }
            assert(part =~= outputs);
        }
    }
}

/// What the verdict on the proof for the baseline means.
pub fn judge_baseline(verdict: Result<Result<(), String>, InvalidInstance>) -> (r: Result<
    (),
    ChallengeError,
>)
    ensures
        r == match verdict {
            Ok(Ok(_)) => Ok(()),
            Ok(Err(e)) => Err(ChallengeError::ProofRejected(e)),
            Err(e) => Err(ChallengeError::InvalidBaseline(e)),
        },
{
    match verdict {
        Ok(Ok(_)) => Ok(()),
        Ok(Err(e)) => Err(ChallengeError::ProofRejected(e)),
        Err(e) => Err(ChallengeError::InvalidBaseline(e)),
    }
}

/// What the verdict on the proof for the optimized circuit means.
pub fn judge_star(verdict: Result<Result<(), String>, InvalidInstance>) -> (r: Result<
    (),
    ChallengeError,
>)
    ensures
        r == match verdict {
            Ok(Ok(_)) => Ok(()),
            Ok(Err(e)) => Err(ChallengeError::StarProofRejected(e)),
            Err(e) => Err(ChallengeError::InvalidOptimized(e)),
        },
{
    match verdict {
        Ok(Ok(_)) => Ok(()),
        Ok(Err(e)) => Err(ChallengeError::StarProofRejected(e)),
        Err(e) => Err(ChallengeError::InvalidOptimized(e)),
    }
}

/// The first elements of a list.
pub fn first_scalars(v: &Vec<Scalar>, n: usize) -> (r: Vec<Scalar>)
    requires
        n <= v@.len(),
    ensures
        values(r@) == values(v@).take(n as int),
{
    let mut r: Vec<Scalar> = Vec::new();
    let mut i: usize = 0;
    while i < n
        invariant
            i <= n <= v@.len(),
            r@ == v@.take(i as int),
        decreases n - i,
    {
        r.push(v[i]);
        i += 1;
    }
    assert(values(r@) =~= values(v@).take(n as int));
    r
}

/// One list after the other.
pub fn concat_scalars(a: &Vec<Scalar>, b: &Vec<Scalar>) -> (r: Vec<Scalar>)
    ensures
        values(r@) == values(a@) + values(b@),
{
    let mut r: Vec<Scalar> = first_scalars(a, a.len());
    let n: usize = b.len();
    let mut i: usize = 0;
    assert(values(r@) =~= values(a@) + values(b@.take(0)));
    while i < n
        invariant
            n == b@.len(),
            i <= n,
            values(r@) == values(a@) + values(b@.take(i as int)),
        decreases n - i,
    {
        let ghost before = r@;
        r.push(b[i]);
        assert(values(r@) =~= values(before).push(b@[i as int]@));
        assert(values(r@) =~= values(a@) + values(b@.take(i + 1)));
        i += 1;
    }
    assert(b@.take(n as int) =~= b@);
    r
}

} // verus!
