//! The optimization challenge for solvers who bring their own witness solver. A solution is
//! judged by its size, its outputs and its proofs alone.
use crate::challenge_laws::{
    law_zk_aliases_and_scales_removed_accepted, law_zk_aliases_removed_accepted,
};
use crate::circuit::Circuit;
use crate::convert::dag_to_spartan;
use crate::crypto::{blake3_wide, encoded_circuit, evaluation_point, CryptoHash};
use crate::dag::{DAG, Graph};
use crate::dag_laws::{law_witness_satisfies, lemma_evaluable_closed, lemma_system_entries};
use crate::elimination::{eliminated, has_definitions, Kind};
use crate::encoding::le_bytes;
use crate::evaluate::compute_witness;
use crate::field::ell;
use crate::forward::{determined, solve_witness_forward, solver_returns};
use crate::forward_laws::{lemma_determined, lemma_determined_inputs};
use crate::r1cs::{satisfies, SpartanInstance, WitnessError};
use crate::scalar::{le_value, same_scalars, values, Scalar};
use crate::spartan::{
    fault, judgeable, lemma_fault, provable, prove, refusal, submittable, verdict, verify,
};
use crate::system::assignment;
use crate::text::{append_field, decimal};
use crate::zk_optimization::{
    baseline_label, concat_scalars, first_scalars, judge_baseline, judge_star, lemma_labels,
    lemma_same_outputs, optimized_label, ChallengeError,
};
use libspartan::SNARK;
use vstd::prelude::*;
use vstd::string::StringSliceAdditionalSpecFns;

verus! {

/// How hard a challenge is.
#[derive(Clone, Copy, Debug, PartialEq, Eq)]
pub struct Difficulty {
    pub delta: usize,
}

impl Difficulty {
    /// Reads a difficulty from the first of a list of numbers.
    pub fn from_values(arr: &Vec<i32>) -> (r: Difficulty)
        requires
            arr@.len() > 0,
        ensures
            r.delta == arr@[0] as usize,
    {
        Difficulty { delta: arr[0] as usize }
    }

    /// The difficulty as a list of numbers.
    pub fn to_values(&self) -> (r: Vec<i32>)
        ensures
            r@ == seq![self.delta as i32],
    {
        let mut r: Vec<i32> = Vec::new();
        r.push(self.delta as i32);
        r
    }
}

/// A circuit to be optimized.
#[derive(Clone, Debug)]
pub struct Challenge {
    pub seed: [u8; 32],
    pub difficulty: Difficulty,
    pub circuit_c0: Circuit,
    pub num_circuit_inputs: usize,
    pub num_circuit_outputs: usize,
}

/// An optimized circuit, the outputs of both circuits and the proofs for them.
pub struct Solution {
    pub circuit_star: Circuit,
    pub y0_pub: Vec<Scalar>,
    pub y_star_pub: Vec<Scalar>,
    pub proof0: SNARK,
    pub proof_star: SNARK,
}

/// What becomes of a solution, or of a circuit that an honest solver submits.
pub enum Outcome {
    NoWitness,
    Unsatisfied,
    NotSmaller,
    OutputMismatch,
    InvalidBaseline,
    ProofRejected,
    InvalidOptimized,
    StarProofRejected,
    Accepted,
}

impl ChallengeError {
    /// The error in words, as this challenge puts it.
    pub open spec fn zk_words(self) -> Seq<char> {
        match self {
            ChallengeError::NotSmaller { num_cons, limit } => "Optimized circuit has "@ + decimal(
                num_cons as nat,
            ) + " constraints, must be < "@ + decimal(limit as nat) + " (baseline)"@,
            ChallengeError::InvalidBaseline(e) => "Failed to create Spartan Instance for C⁰: "@
                + e.words(),
            ChallengeError::InvalidOptimized(e) => "Failed to create Spartan Instance for C*: "@
                + e.words(),
            ChallengeError::ProofRejected(e) => "Proof π⁰ verification failed: "@ + e@,
            ChallengeError::StarProofRejected(e) => "Proof π* verification failed: "@ + e@,
            other => other.words(),
        }
    }

    /// The error in words, as this challenge puts it.
    pub fn zk_message(&self) -> (r: String)
        ensures
            r@ == self.zk_words(),
    {
        let mut text: String = String::new();
        match self {
            ChallengeError::NotSmaller { num_cons, limit } => {
                append_field(&mut text, "Optimized circuit has ", *num_cons);
                append_field(&mut text, " constraints, must be < ", *limit);
                text.append(" (baseline)");
            },
            ChallengeError::InvalidBaseline(e) => {
                text.append("Failed to create Spartan Instance for C⁰: ");
                text.append(e.name());
            },
            ChallengeError::InvalidOptimized(e) => {
                text.append("Failed to create Spartan Instance for C*: ");
                text.append(e.name());
            },
            ChallengeError::ProofRejected(e) => {
                text.append("Proof π⁰ verification failed: ");
                text.append(e.as_str());
            },
            ChallengeError::StarProofRejected(e) => {
                text.append("Proof π* verification failed: ");
                text.append(e.as_str());
            },
            _ => return self.message(),
        }
        assert(text@ =~= self.zk_words());
        text
    }
}

impl Challenge {
    /// The point at which an optimized circuit is compared with the baseline.
    pub open spec fn point(&self, circuit_star: &Circuit) -> Seq<int> {
        evaluation_point(
            encoded_circuit(&self.circuit_c0),
            encoded_circuit(circuit_star),
            self.num_circuit_inputs as nat,
        )
    }

    /// What the verifier says of the proof for the baseline.
    pub open spec fn baseline_verdict(&self, solution: &Solution, point: Seq<int>) -> Option<bool> {
        verdict(
            solution.proof0,
            self.circuit_c0.system(self.num_circuit_outputs as nat),
            values(solution.y0_pub@) + point,
            baseline_label(),
        )
    }

    /// What the verifier says of the proof for the optimized circuit.
    pub open spec fn star_verdict(&self, solution: &Solution, point: Seq<int>) -> Option<bool> {
        verdict(
            solution.proof_star,
            solution.circuit_star.system(self.num_circuit_outputs as nat),
            values(solution.y_star_pub@) + point,
            optimized_label(),
        )
    }

    /// The outcome of all checks at a point, in the order in which they are made.
    pub open spec fn outcome(&self, solution: &Solution, point: Seq<int>) -> Outcome {
        let no = self.num_circuit_outputs as nat;
        if solution.circuit_star.num_cons >= self.circuit_c0.num_cons {
            Outcome::NotSmaller
        } else if values(solution.y0_pub@) != values(solution.y_star_pub@) {
            Outcome::OutputMismatch
        } else if !self.circuit_c0.system(no).entries_valid() {
            Outcome::InvalidBaseline
        } else if self.baseline_verdict(solution, point) != Some(true) {
            Outcome::ProofRejected
        } else if !solution.circuit_star.system(no).entries_valid() {
            Outcome::InvalidOptimized
        } else if self.star_verdict(solution, point) != Some(true) {
            Outcome::StarProofRejected
        } else {
            Outcome::Accepted
        }
    }

    /// Whether the proofs can be checked, where the checks come that far: the circuits are of
    /// a size that can be committed to, and the verifier returns.
    pub open spec fn checkable(&self, solution: &Solution, point: Seq<int>) -> bool {
        let no = self.num_circuit_outputs as nat;
        let c0 = self.circuit_c0.system(no);
        let star = solution.circuit_star.system(no);
        star.num_cons < c0.num_cons && values(solution.y0_pub@) == values(solution.y_star_pub@)
            ==> {
            &&& judgeable(c0)
            &&& c0.entries_valid() ==> self.baseline_verdict(solution, point) is Some
            &&& c0.entries_valid() && self.baseline_verdict(solution, point) == Some(true) ==> {
                &&& judgeable(star)
                &&& star.entries_valid() ==> self.star_verdict(solution, point) is Some
            }
        }
    }

    /// Whether a result tells of the outcome of the checks at a point.
    pub open spec fn reports(
        &self,
        solution: &Solution,
        point: Seq<int>,
        r: Result<(), ChallengeError>,
    ) -> bool {
        let no = self.num_circuit_outputs as nat;
        let c0 = self.circuit_c0.system(no);
        let star = solution.circuit_star.system(no);
        match self.outcome(solution, point) {
            Outcome::NotSmaller => r == Err::<(), ChallengeError>(
                ChallengeError::NotSmaller {
                    num_cons: solution.circuit_star.num_cons,
                    limit: self.circuit_c0.num_cons,
                },
            ),
            Outcome::OutputMismatch => r == Err::<(), ChallengeError>(
                ChallengeError::OutputMismatch,
            ),
            Outcome::InvalidBaseline => r matches Err(ChallengeError::InvalidBaseline(f)) && fault(
                c0,
            ) == Some(f),
            Outcome::ProofRejected => r matches Err(ChallengeError::ProofRejected(t)) && t@
                == refusal(
                solution.proof0,
                c0,
                values(solution.y0_pub@) + point,
                baseline_label(),
            ),
            Outcome::InvalidOptimized => r matches Err(ChallengeError::InvalidOptimized(f))
                && fault(star) == Some(f),
            Outcome::StarProofRejected => r matches Err(ChallengeError::StarProofRejected(t)) && t@
                == refusal(
                solution.proof_star,
                star,
                values(solution.y_star_pub@) + point,
                optimized_label(),
            ),
            Outcome::Accepted => r is Ok,
            _ => false,
        }
    }

    /// Makes a challenge of a circuit.
    pub fn generate_instance(seed: &[u8; 32], difficulty: &Difficulty, dag: &DAG) -> (r: Result<
        Challenge,
        ChallengeError,
    >)
        requires
            dag.wf(),
            dag@.closed_under_operands(),
            dag@.z_len() <= usize::MAX,
        ensures
            r is Ok,
            r->Ok_0.seed == *seed,
            r->Ok_0.difficulty == *difficulty,
            r->Ok_0.circuit_c0.system(dag@.num_outputs) == dag@.system(),
            r->Ok_0.num_circuit_inputs == dag.num_inputs,
            r->Ok_0.num_circuit_outputs == dag.num_outputs,
    {
        let instance = dag_to_spartan(dag);
        Ok(
            Challenge {
                seed: *seed,
                difficulty: *difficulty,
                circuit_c0: Circuit::from_spartan_instance(instance),
                num_circuit_inputs: dag.num_inputs,
                num_circuit_outputs: dag.num_outputs,
            },
        )
    }

    /// Derives the point at which an optimized circuit is compared with the baseline.
    pub fn derive_point(&self, circuit_star: &Circuit) -> (r: Result<Vec<Scalar>, ChallengeError>)
        ensures
            r is Ok,
            values(r->Ok_0@) == self.point(circuit_star),
            r->Ok_0@.len() == self.num_circuit_inputs,
            forall|i: int|
                0 <= i < self.num_circuit_inputs ==> (#[trigger] r->Ok_0@[i])@ == le_value(
                    blake3_wide(
                        blake3_wide(
                            blake3_wide(encoded_circuit(&self.circuit_c0)) + blake3_wide(
                                encoded_circuit(circuit_star),
                            ),
                        ) + le_bytes(i, 8),
                    ),
                ) % ell(),
    {
        let h0 = match CryptoHash::from_circuit(&self.circuit_c0) {
            Ok(h) => h,
            Err(_) => return Err(ChallengeError::Encoding),
        };
        let h_star = match CryptoHash::from_circuit(circuit_star) {
            Ok(h) => h,
            Err(_) => return Err(ChallengeError::Encoding),
        };
        Ok(h0.combine(&h_star).to_scalars(self.num_circuit_inputs))
    }

    /// Verifies a solution at a given point.
    pub fn verify_solution_at(&self, solution: &Solution, x_eval: &Vec<Scalar>) -> (r: Result<
        (),
        ChallengeError,
    >)
        requires
            self.checkable(solution, values(x_eval@)),
        ensures
            self.reports(solution, values(x_eval@), r),
            r is Ok <==> {
                let no = self.num_circuit_outputs as nat;
                let c0 = self.circuit_c0.system(no);
                let star = solution.circuit_star.system(no);
                &&& solution.circuit_star.num_cons < self.circuit_c0.num_cons
                &&& values(solution.y0_pub@) == values(solution.y_star_pub@)
                &&& c0.entries_valid()
                &&& star.entries_valid()
                &&& verdict(
                    solution.proof0,
                    c0,
                    values(solution.y0_pub@) + values(x_eval@),
                    "ZKChallenge_C0".spec_bytes(),
                ) == Some(true)
                &&& verdict(
                    solution.proof_star,
                    star,
                    values(solution.y_star_pub@) + values(x_eval@),
                    "ZKChallenge_Cstar".spec_bytes(),
                ) == Some(true)
            },
    {
        let star = &solution.circuit_star;
        if star.num_cons >= self.circuit_c0.num_cons {
            return Err(
                ChallengeError::NotSmaller {
                    num_cons: star.num_cons,
                    limit: self.circuit_c0.num_cons,
                },
            );
        }
        if !same_scalars(solution.y0_pub.as_slice(), solution.y_star_pub.as_slice()) {
            return Err(ChallengeError::OutputMismatch);
        }
        let c0 = self.circuit_c0.to_spartan_instance(self.num_circuit_outputs);
        let io0 = concat_scalars(&solution.y0_pub, x_eval);
        proof {
            lemma_labels();
            lemma_fault(self.circuit_c0.system(self.num_circuit_outputs as nat));
            lemma_fault(star.system(self.num_circuit_outputs as nat));
        }
        let verdict0 = verify(
            &c0,
            &solution.proof0,
            io0.as_slice(),
            "ZKChallenge_C0".as_bytes(),
        );
        if let Err(e) = judge_baseline(verdict0) {
            return Err(e);
        }
        let c_star = star.to_spartan_instance(self.num_circuit_outputs);
        let io_star = concat_scalars(&solution.y_star_pub, x_eval);
        let verdict_star = verify(
            &c_star,
            &solution.proof_star,
            io_star.as_slice(),
            "ZKChallenge_Cstar".as_bytes(),
        );
        judge_star(verdict_star)
    }

    /// Verifies a solution: the circuit is smaller, the claimed outputs of the two circuits
    /// agree, and both proofs verify at the point that the hashes of the circuits give.
    pub fn verify_solution(&self, solution: &Solution) -> (r: Result<(), ChallengeError>)
        requires
            self.checkable(solution, self.point(&solution.circuit_star)),
        ensures
            self.reports(solution, self.point(&solution.circuit_star), r),
            r is Ok <==> {
                let no = self.num_circuit_outputs as nat;
                let c0 = self.circuit_c0.system(no);
                let star = solution.circuit_star.system(no);
                &&& solution.circuit_star.num_cons < self.circuit_c0.num_cons
                &&& values(solution.y0_pub@) == values(solution.y_star_pub@)
                &&& c0.entries_valid()
                &&& star.entries_valid()
                &&& verdict(
                    solution.proof0,
                    c0,
                    values(solution.y0_pub@) + self.point(&solution.circuit_star),
                    "ZKChallenge_C0".spec_bytes(),
                ) == Some(true)
                &&& verdict(
                    solution.proof_star,
                    star,
                    values(solution.y_star_pub@) + self.point(&solution.circuit_star),
                    "ZKChallenge_Cstar".spec_bytes(),
                ) == Some(true)
            },
    {
        let x_eval = match self.derive_point(&solution.circuit_star) {
            Ok(x) => x,
            Err(e) => return Err(e),
        };
        self.verify_solution_at(solution, &x_eval)
    }

    /// Whether the challenge was made of a circuit.
    pub open spec fn made_of(&self, g: Graph) -> bool {
        &&& self.circuit_c0.system(self.num_circuit_outputs as nat) == g.system()
        &&& self.num_circuit_inputs == g.num_free_inputs()
        &&& self.num_circuit_outputs == g.num_outputs
    }

    /// Whether a solution is made of an optimized circuit with a witness at a point: the
    /// circuit, the outputs of both circuits, and proofs that the verifier accepts where
    /// the statement is true.
    pub open spec fn built(
        &self,
        g: Graph,
        point: Seq<int>,
        vars_star: Seq<int>,
        io_star: Seq<int>,
        s: &Solution,
    ) -> bool {
        let star = s.circuit_star.system(self.num_circuit_outputs as nat);
        &&& values(s.y0_pub@) == g.public_values(point).take(g.num_outputs as int)
        &&& values(s.y_star_pub@) == io_star.take(g.num_outputs as int)
        &&& verdict(s.proof0, g.system(), g.public_values(point), baseline_label()) == Some(true)
        &&& star.satisfied(assignment(vars_star, io_star)) ==> verdict(
            s.proof_star,
            star,
            io_star,
            optimized_label(),
        ) == Some(true)
    }

    /// Builds a solution of an optimized circuit from its witness at a given point.
    pub fn assemble(
        &self,
        circuit_star: Circuit,
        dag: &DAG,
        x_eval: &Vec<Scalar>,
        vars_star: &Vec<Scalar>,
        io_star: &Vec<Scalar>,
    ) -> (r: Result<Solution, ChallengeError>)
        requires
            dag.wf(),
            dag@.evaluable(),
            self.made_of(dag@),
            x_eval@.len() == self.num_circuit_inputs,
            provable(dag@.system()),
            submittable(circuit_star.system(self.num_circuit_outputs as nat)),
            vars_star@.len() == circuit_star.num_vars,
            io_star@.len() == circuit_star.num_inputs,
            self.num_circuit_outputs <= circuit_star.num_inputs,
        ensures
            r is Ok <==> circuit_star.system(self.num_circuit_outputs as nat).entries_valid(),
            match r {
                Ok(s) => s.circuit_star == circuit_star && self.built(
                    dag@,
                    values(x_eval@),
                    values(vars_star@),
                    values(io_star@),
                    &s,
                ),
                Err(e) => e matches ChallengeError::InvalidOptimized(f) && fault(
                    circuit_star.system(self.num_circuit_outputs as nat),
                ) == Some(f),
            },
    {
        let ghost g = dag@;
        let ghost point = values(x_eval@);
        let (vars0, io0) = compute_witness(dag, x_eval.as_slice());
        proof {
            law_witness_satisfies(g, point);
            lemma_evaluable_closed(g);
            lemma_system_entries(g);
            assert(g.public_values(point).len() == g.num_outputs + g.num_free_inputs());
            assert(assignment(values(vars0@), values(io0@)) == g.witness(point));
            assert(values(vars0@).len() == g.num_private()) by {
                assert(g.witness(point).len() == g.z_len());
            }
            lemma_labels();
            lemma_fault(g.system());
            lemma_fault(circuit_star.system(self.num_circuit_outputs as nat));
        }
        let c0 = self.circuit_c0.to_spartan_instance(self.num_circuit_outputs);
        let proof0 = match prove(
            &c0,
            vars0.as_slice(),
            io0.as_slice(),
            "ZKChallenge_C0".as_bytes(),
        ) {
            Ok(p) => p,
            Err(e) => return Err(ChallengeError::InvalidBaseline(e)),
        };
        let c_star = circuit_star.to_spartan_instance(self.num_circuit_outputs);
        let proof_star = match prove(
            &c_star,
            vars_star.as_slice(),
            io_star.as_slice(),
            "ZKChallenge_Cstar".as_bytes(),
        ) {
            Ok(p) => p,
            Err(e) => return Err(ChallengeError::InvalidOptimized(e)),
        };
        let y0_pub = first_scalars(&io0, self.num_circuit_outputs);
        let y_star_pub = first_scalars(io_star, self.num_circuit_outputs);
        Ok(Solution { circuit_star, y0_pub, y_star_pub, proof0, proof_star })
    }

    /// A solution that was assembled from a true witness can be checked, and it is accepted
    /// exactly when the circuit is smaller and has the same outputs.
    pub proof fn law_assembled_solution(
        &self,
        g: Graph,
        vars_star: Seq<int>,
        io_star: Seq<int>,
        s: &Solution,
    )
        requires
            g.evaluable(),
            self.made_of(g),
            provable(g.system()),
            provable(s.circuit_star.system(self.num_circuit_outputs as nat)),
            s.circuit_star.system(self.num_circuit_outputs as nat).entries_valid(),
            s.circuit_star.system(self.num_circuit_outputs as nat).satisfied(
                assignment(vars_star, io_star),
            ),
            self.num_circuit_outputs <= io_star.len(),
            io_star.skip(self.num_circuit_outputs as int) == self.point(&s.circuit_star),
            self.built(g, self.point(&s.circuit_star), vars_star, io_star, s),
        ensures
            self.checkable(s, self.point(&s.circuit_star)),
            self.outcome(s, self.point(&s.circuit_star)) is Accepted <==> {
                &&& s.circuit_star.num_cons < self.circuit_c0.num_cons
                &&& io_star.take(g.num_outputs as int) == g.public_values(
                    self.point(&s.circuit_star),
                ).take(g.num_outputs as int)
            },
    {
        let point = self.point(&s.circuit_star);
        lemma_evaluable_closed(g);
        lemma_system_entries(g);
        assert(point.len() == self.num_circuit_inputs);
        assert(values(s.y0_pub@) + point =~= g.public_values(point));
        assert(values(s.y_star_pub@) + point =~= io_star);
    }

    /// What becomes of an optimized circuit whose rows stand in evaluation order when an honest
    /// solver submits it, given the point of comparison.
    pub open spec fn honest_outcome(
        &self,
        circuit_star: &Circuit,
        g: Graph,
        point: Seq<int>,
    ) -> Outcome {
        let no = self.num_circuit_outputs as nat;
        let star = circuit_star.system(no);
        let first = circuit_star.num_vars + 1;
        match determined(star, no, point) {
            None => Outcome::NoWitness,
            Some(z) => if !star.satisfied(z) {
                Outcome::Unsatisfied
            } else if star.num_cons >= self.circuit_c0.num_cons {
                Outcome::NotSmaller
            } else if z.subrange(first, first + no) != g.public_values(point).take(no as int) {
                Outcome::OutputMismatch
            } else {
                Outcome::Accepted
            },
        }
    }

    /// Solves the challenge with an optimized circuit whose rows stand in evaluation order,
    /// and verifies the solution: what an honest solver who submits the circuit is told. Who
    /// removes the aliases of a circuit that has some, or the scales besides, is accepted.
    pub fn evaluate_circuit(&self, circuit_star: &Circuit, dag: &DAG) -> (r: Result<
        (),
        ChallengeError,
    >)
        requires
            dag.wf(),
            dag@.evaluable(),
            self.made_of(dag@),
            forall|x: Seq<int>|
                (#[trigger] determined(
                    circuit_star.system(self.num_circuit_outputs as nat),
                    self.num_circuit_outputs as nat,
                    x,
                )) is Some ==> provable(dag@.system()) && provable(
                    circuit_star.system(self.num_circuit_outputs as nat),
                ),
        ensures
            match self.honest_outcome(circuit_star, dag@, self.point(circuit_star)) {
                Outcome::NoWitness => r matches Err(ChallengeError::WitnessFailed(w))
                    && solver_returns(
                    circuit_star.system(self.num_circuit_outputs as nat),
                    self.num_circuit_outputs as nat,
                    self.point(circuit_star),
                    Err(w),
                ),
                Outcome::Unsatisfied => r == Err::<(), ChallengeError>(ChallengeError::Unsatisfied),
                Outcome::NotSmaller => r == Err::<(), ChallengeError>(
                    ChallengeError::NotSmaller {
                        num_cons: circuit_star.num_cons,
                        limit: self.circuit_c0.num_cons,
                    },
                ),
                Outcome::OutputMismatch => r == Err::<(), ChallengeError>(
                    ChallengeError::OutputMismatch,
                ),
                _ => r is Ok,
            },
            ({
                let star = circuit_star.system(self.num_circuit_outputs as nat);
                let one = eliminated(Kind::Alias, dag@.system());
                let two = eliminated(Kind::Scale, one);
                &&& provable(dag@.system()) && has_definitions(Kind::Alias, dag@.system())
                    && star == one ==> r is Ok
                &&& provable(dag@.system()) && (has_definitions(Kind::Alias, dag@.system())
                    || has_definitions(Kind::Scale, one)) && star == two ==> r is Ok
            }),
            r is Ok <==> {
                let no = self.num_circuit_outputs as nat;
                let star = circuit_star.system(no);
                let point = self.point(circuit_star);
                let first = circuit_star.num_vars + 1;
                &&& circuit_star.num_cons < self.circuit_c0.num_cons
                &&& determined(star, no, point) matches Some(z) && star.satisfied(z) && (forall|
                    k: int,
                |
                    0 <= k < no ==> #[trigger] z[first + k] == dag@.value(point, k))
            },
    {
        let ghost point = self.point(circuit_star);
        let ghost no = self.num_circuit_outputs as nat;
        let ghost star = circuit_star.system(no);
        let ghost first = circuit_star.num_vars + 1;
        proof {
            lemma_same_outputs(star, dag@, point);
            let one = eliminated(Kind::Alias, dag@.system());
            if provable(dag@.system()) {
                if has_definitions(Kind::Alias, dag@.system()) && star == one {
                    law_zk_aliases_removed_accepted(self, circuit_star, dag@);
                }
                if (has_definitions(Kind::Alias, dag@.system()) || has_definitions(
                    Kind::Scale,
                    one,
                )) && star == eliminated(Kind::Scale, one) {
                    law_zk_aliases_and_scales_removed_accepted(self, circuit_star, dag@);
                }
            }
        }
        let x_eval = match self.derive_point(circuit_star) {
            Ok(x) => x,
            Err(e) => return Err(e),
        };
        assert(values(x_eval@).len() == self.num_circuit_inputs);
        let instance = circuit_star.to_spartan_instance(self.num_circuit_outputs);
        let (vars_star, io_star) = match solve_witness_forward(
            &instance,
            self.num_circuit_outputs,
            x_eval.as_slice(),
        ) {
            Ok(w) => w,
            Err(e) => return Err(ChallengeError::WitnessFailed(e)),
        };
        let ghost z = determined(star, no, point)->0;
        proof {
            lemma_determined(star, no, point);
            lemma_determined_inputs(star, no, point);
            assert(assignment(values(vars_star@), values(io_star@)) =~= z);
            assert(values(vars_star@).len() == circuit_star.num_vars);
            assert(values(io_star@).len() == circuit_star.num_inputs);
        }
        if !satisfies(&instance, vars_star.as_slice(), io_star.as_slice()) {
            return Err(ChallengeError::Unsatisfied);
        }
        let copy = circuit_star.clone();
        assert(encoded_circuit(&copy) == encoded_circuit(circuit_star));
        assert(copy.system(no) == star);
        let solution = match self.assemble(copy, dag, &x_eval, &vars_star, &io_star) {
            Ok(s) => s,
            Err(e) => return Err(e),
        };
        proof {
            assert(values(io_star@).skip(no as int) =~= z.skip(first + no));
            assert(values(io_star@).take(no as int) =~= z.subrange(first, first + no));
            self.law_assembled_solution(
                dag@,
                values(vars_star@),
                values(io_star@),
                &solution,
            );
        }
        self.verify_solution(&solution)
    }
}

/// A witness solver as solvers of challenges bring it: what it may be asked, and what shape
/// its answers have.
pub open spec fn solver_fits<W: Fn(&SpartanInstance, usize, &[Scalar]) -> Result<
    (Vec<Scalar>, Vec<Scalar>),
    WitnessError,
>>(solve: W, num_outputs: usize) -> bool {
    &&& forall|i: &SpartanInstance, x: &[Scalar]| #[trigger] solve.requires((i, num_outputs, x))
    &&& forall|i: &SpartanInstance, x: &[Scalar], v: Vec<Scalar>, io: Vec<Scalar>| #[trigger]
        solve.ensures((i, num_outputs, x), Ok((v, io))) ==> {
            &&& v@.len() == i.num_vars
            &&& io@.len() == i.num_inputs
            &&& num_outputs <= io@.len()
        }
}

/// Solves a challenge with an optimizer and a witness solver.
pub fn solve_challenge<
    F: Fn(&Circuit) -> Circuit,
    W: Fn(&SpartanInstance, usize, &[Scalar]) -> Result<(Vec<Scalar>, Vec<Scalar>), WitnessError>,
>(challenge: &Challenge, optimize: F, solve: W, dag: &DAG) -> (r: Result<Solution, ChallengeError>)
    requires
        dag.wf(),
        dag@.evaluable(),
        challenge.made_of(dag@),
        optimize.requires((&challenge.circuit_c0,)),
        forall|
            star: Circuit,
            i: &SpartanInstance,
            x: &[Scalar],
            w: (Vec<Scalar>, Vec<Scalar>),
        |
            #[trigger] optimize.ensures((&challenge.circuit_c0,), star) && i@ == star.system(
                challenge.num_circuit_outputs as nat,
            ) && #[trigger] solve.ensures((i, challenge.num_circuit_outputs, x), Ok(w))
                ==> provable(dag@.system()) && submittable(i@),
        solver_fits(solve, challenge.num_circuit_outputs),
    ensures
        exists|
            star: Circuit,
            i: SpartanInstance,
            x: &[Scalar],
            w: Result<(Vec<Scalar>, Vec<Scalar>), WitnessError>,
        |
            {
                &&& #[trigger] optimize.ensures((&challenge.circuit_c0,), star)
                &&& i@ == star.system(challenge.num_circuit_outputs as nat)
                &&& values(x@) == challenge.point(&star)
                &&& #[trigger] solve.ensures((&i, challenge.num_circuit_outputs, x), w)
                &&& match w {
                    Err(e) => r == Err::<Solution, ChallengeError>(
                        ChallengeError::WitnessFailed(e),
                    ),
                    Ok((vars, io)) => if i@.entries_valid() {
                        r matches Ok(s) && s.circuit_star == star && challenge.built(
                            dag@,
                            challenge.point(&star),
                            values(vars@),
                            values(io@),
                            &s,
                        )
                    } else {
                        r matches Err(ChallengeError::InvalidOptimized(f)) && fault(i@) == Some(f)
                    },
                }
            },
{
    let circuit_star = optimize(&challenge.circuit_c0);
    let x_eval = match challenge.derive_point(&circuit_star) {
        Ok(x) => x,
        Err(e) => return Err(e),
    };
    let instance = circuit_star.to_spartan_instance(challenge.num_circuit_outputs);
    let witness = solve(&instance, challenge.num_circuit_outputs, x_eval.as_slice());
    match witness {
        Err(e) => Err(ChallengeError::WitnessFailed(e)),
        Ok((vars_star, io_star)) => {
            assert(values(x_eval@).len() == challenge.num_circuit_inputs);
            challenge.assemble(circuit_star, dag, &x_eval, &vars_star, &io_star)
        },
    }
}

} // verus!
