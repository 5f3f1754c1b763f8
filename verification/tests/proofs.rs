//! Proofs and the judgement of solutions, on small circuits.
use zk_optimization::baselines::{remove_aliases, remove_aliases_and_scales};
use zk_optimization::circuit::{longest, Circuit};
use zk_optimization::dag::{Node, OpType, DAG};
use zk_optimization::forward::solve_witness_forward;
use zk_optimization::r1cs::{SpartanInstance, WitnessError};
use zk_optimization::scalar::Scalar;
use zk_optimization::spartan::{
    can_encode, can_judge, can_prove, can_submit, num_non_zero, prove, scalars_to_bytes, verify, InvalidInstance,
};
use zk_optimization::zk;
use zk_optimization::zk_optimization::{
    concat_scalars, first_scalars, judge_baseline, judge_star, Challenge, ChallengeError, Solution,
    Track,
};

fn small_dag() -> DAG {
    let ops = [
        OpType::Mul(1, 2),
        OpType::Alias(3),
        OpType::Scale(3, 5),
        OpType::Mul(4, 5),
        OpType::Input,
        OpType::Input,
    ];
    let nodes = ops
        .iter()
        .enumerate()
        .map(|(id, &op)| Node { id, op })
        .collect();
    DAG { nodes, num_inputs: 2, num_outputs: 1 }
}

fn challenge() -> Challenge {
    Challenge::generate_instance(&[1; 32], &Track { delta: 1 }, &small_dag()).unwrap()
}

fn solved() -> (Challenge, Solution) {
    let ch = challenge();
    let star = remove_aliases(&ch.circuit_c0);
    let solution = ch.build_solution(&star, &small_dag()).unwrap();
    (ch, solution)
}

fn scalars(xs: &[u64]) -> Vec<Scalar> {
    xs.iter().map(|&x| Scalar::from_u64(x)).collect()
}

#[test]
fn a_challenge_records_its_circuit() {
    let ch = challenge();
    assert_eq!(ch.seed, [1; 32]);
    assert_eq!(ch.delta, 1);
    assert_eq!((ch.num_circuit_inputs, ch.num_circuit_outputs), (2, 1));
    assert_eq!((ch.circuit_c0.num_cons, ch.circuit_c0.num_vars), (4, 3));
}

#[test]
fn a_true_statement_is_proved_and_verified() {
    let ch = challenge();
    let x = scalars(&[2, 3]);
    let (vars, io) = solve_witness_forward(&ch.circuit_c0, 1, &x).unwrap();
    assert_eq!(io[0], Scalar::from_u64(180));
    let proof = prove(&ch.circuit_c0, &vars, &io, b"label").unwrap();
    assert_eq!(verify(&ch.circuit_c0, &proof, &io, b"label"), Ok(Ok(())));
    assert_eq!(verify(&ch.circuit_c0, &proof, &io, b"other"), Ok(Err("InternalError".to_string())));
    let wrong = scalars(&[181, 2, 3]);
    assert_eq!(verify(&ch.circuit_c0, &proof, &wrong, b"label"), Ok(Err("InternalError".to_string())));
}

#[test]
fn a_single_constraint_is_proved() {
    // (x + 1) * x == y over [| 1 | y | x].
    let one = Scalar::one().to_bytes();
    let inst = SpartanInstance {
        num_cons: 1,
        num_vars: 0,
        num_inputs: 2,
        num_outputs: 1,
        A: vec![(0, 2, one), (0, 0, one)],
        B: vec![(0, 2, one)],
        C: vec![(0, 1, one)],
    };
    let io = scalars(&[42, 6]);
    let proof = prove(&inst, &[], &io, b"label").unwrap();
    assert_eq!(verify(&inst, &proof, &io, b"label"), Ok(Ok(())));
}

#[test]
fn a_system_without_public_values_is_proved() {
    // z0 * z0 == 4 * z0 and (z0 + 1) * 1 == 5 over [z0 | 1].
    let n = |x: u64| Scalar::from_u64(x).to_bytes();
    let inst = SpartanInstance {
        num_cons: 2,
        num_vars: 1,
        num_inputs: 0,
        num_outputs: 0,
        A: vec![(0, 0, n(1)), (1, 0, n(1)), (1, 1, n(1))],
        B: vec![(0, 0, n(1)), (1, 1, n(1))],
        C: vec![(0, 0, n(4)), (1, 1, n(5))],
    };
    let proof = prove(&inst, &scalars(&[4]), &[], b"label").unwrap();
    assert_eq!(verify(&inst, &proof, &[], b"label"), Ok(Ok(())));
}

#[test]
fn a_malformed_instance_is_neither_proved_nor_verified() {
    let ch = challenge();
    let x = scalars(&[2, 3]);
    let (vars, io) = solve_witness_forward(&ch.circuit_c0, 1, &x).unwrap();
    let proof = prove(&ch.circuit_c0, &vars, &io, b"label").unwrap();
    let one = Scalar::one().to_bytes();
    for (bad, fault) in [
        ((9, 0, one), InvalidInstance::InvalidIndex),
        ((0, 9, one), InvalidInstance::InvalidIndex),
        ((0, 0, [0xff; 32]), InvalidInstance::InvalidScalar),
    ] {
        let mut inst = ch.circuit_c0.clone();
        inst.B[0] = bad;
        assert_eq!(prove(&inst, &vars, &io, b"label").err(), Some(fault));
        assert_eq!(verify(&inst, &proof, &io, b"label"), Err(fault));
    }
    // The first fault counts, and an instance that could not be proved is refused as well.
    let mut inst = ch.circuit_c0.clone();
    inst.A[1].2 = [0xff; 32];
    inst.B[0].0 = 9;
    assert_eq!(verify(&inst, &proof, &io, b"label"), Err(InvalidInstance::InvalidScalar));
    inst.num_cons = 0;
    assert!(!can_prove(&inst) && can_submit(&inst) && can_judge(&inst));
    assert_eq!(verify(&inst, &proof, &io, b"label"), Err(InvalidInstance::InvalidIndex));
}

#[test]
fn the_same_circuit_is_not_smaller() {
    let ch = challenge();
    let res = ch.evaluate_circuit(&ch.circuit_c0, &small_dag());
    assert!(matches!(res, Err(ChallengeError::NotSmaller { num_cons: 4, limit: 4 })));
}

#[test]
fn another_shape_is_refused() {
    let (ch, mut solution) = solved();
    solution.circuit_star.num_outputs = 2;
    let res = ch.evaluate_num_constraints(&solution);
    assert!(matches!(res, Err(ChallengeError::OtherShape {
            num_inputs: 3,
            num_outputs: 2,
            expected_inputs: 3,
            expected_outputs: 1,
        })));
}

#[test]
fn a_circuit_that_leaves_something_open_is_refused() {
    let (ch, mut solution) = solved();
    solution.circuit_star.A.retain(|e| e.0 != 2);
    solution.circuit_star.B.retain(|e| e.0 != 2);
    solution.circuit_star.C.retain(|e| e.0 != 2);
    let res = ch.evaluate_num_constraints(&solution);
    assert!(matches!(
        res,
        Err(ChallengeError::NotAFunction(WitnessError::SolverStuck { .. }))
    ));
    let res = ch.build_solution(&solution.circuit_star, &small_dag());
    assert!(matches!(
        res,
        Err(ChallengeError::WitnessFailed(WitnessError::SolverStuck { .. }))
    ));
}

#[test]
fn a_contradictory_circuit_is_refused() {
    // y == a and y == a + 1.
    let one = Scalar::one().to_bytes();
    let ch = challenge();
    let star = SpartanInstance {
        num_cons: 2,
        num_vars: 0,
        num_inputs: 3,
        num_outputs: 1,
        A: vec![(0, 2, one), (1, 2, one), (1, 0, one)],
        B: vec![(0, 0, one), (1, 0, one)],
        C: vec![(0, 1, one), (1, 1, one)],
    };
    let (_, solution) = solved();
    let solution = Solution { circuit_star: star, ..solution };
    let x = ch.derive_point(&solution.circuit_star).unwrap();
    assert!(matches!(
        ch.check_circuits(&solution, &x),
        Err(ChallengeError::Unsatisfied)
    ));
    assert!(matches!(
        ch.evaluate_num_constraints(&solution),
        Err(ChallengeError::Unsatisfied)
    ));
}

#[test]
fn wrong_claims_are_refused() {
    let (ch, mut solution) = solved();
    let claimed = solution.y_star_pub.clone();
    solution.y_star_pub = scalars(&[1]);
    assert!(matches!(
        ch.evaluate_num_constraints(&solution),
        Err(ChallengeError::WrongOutputs)
    ));
    solution.y_star_pub = vec![];
    assert!(matches!(
        ch.evaluate_num_constraints(&solution),
        Err(ChallengeError::WrongOutputs)
    ));
    solution.y_star_pub = claimed;
    solution.y0_pub = scalars(&[1]);
    assert!(matches!(
        ch.evaluate_num_constraints(&solution),
        Err(ChallengeError::OutputMismatch)
    ));
}

#[test]
fn the_checks_depend_on_the_point() {
    let (ch, mut solution) = solved();
    let x = scalars(&[2, 3]);
    solution.y0_pub = scalars(&[180]);
    solution.y_star_pub = scalars(&[180]);
    assert!(ch.check_circuits(&solution, &x).is_ok());
    assert!(matches!(
        ch.check_circuits(&solution, &scalars(&[2, 4])),
        Err(ChallengeError::WrongOutputs)
    ));
}

#[test]
fn a_malformed_baseline_is_refused() {
    let (mut ch, mut solution) = solved();
    ch.circuit_c0.A.push((0, 0, [0xff; 32]));
    let x = ch.derive_point(&solution.circuit_star).unwrap();
    let (_, io) = solve_witness_forward(&solution.circuit_star, 1, &x).unwrap();
    solution.y0_pub = first_scalars(&io, 1);
    solution.y_star_pub = first_scalars(&io, 1);
    assert!(matches!(
        ch.evaluate_num_constraints(&solution),
        Err(ChallengeError::InvalidBaseline(InvalidInstance::InvalidScalar))
    ));
}

#[test]
fn verdicts_are_judged() {
    let no = || "InternalError".to_string();
    let bad = InvalidInstance::InvalidIndex;
    assert!(judge_baseline(Ok(Ok(()))).is_ok());
    assert!(matches!(
        judge_baseline(Ok(Err(no()))),
        Err(ChallengeError::ProofRejected(e)) if e == no()
    ));
    assert!(matches!(
        judge_baseline(Err(bad)),
        Err(ChallengeError::InvalidBaseline(InvalidInstance::InvalidIndex))
    ));
    assert!(judge_star(Ok(Ok(()))).is_ok());
    assert!(matches!(
        judge_star(Ok(Err(no()))),
        Err(ChallengeError::StarProofRejected(e)) if e == no()
    ));
    assert!(matches!(
        judge_star(Err(bad)),
        Err(ChallengeError::InvalidOptimized(InvalidInstance::InvalidIndex))
    ));
}

#[test]
fn every_error_has_its_words() {
    let stuck = || WitnessError::SolverStuck { solved: 9, total: 10 };
    let no = || "InternalError".to_string();
    let index = InvalidInstance::InvalidIndex;
    let scalar = InvalidInstance::InvalidScalar;
    let shape = ChallengeError::OtherShape {
        num_inputs: 3,
        num_outputs: 2,
        expected_inputs: 13,
        expected_outputs: 1,
    };
    let cases = [
        (ChallengeError::Encoding, "circuit could not be encoded"),
        (
            ChallengeError::NotSmaller { num_cons: 1000, limit: 869 },
            "C* has 1000 constraints, must be < 869 (C⁰)",
        ),
        (shape, "C* I/O shape (3/2) differs from C0 (13/1)"),
        (
            ChallengeError::NotAFunction(stuck()),
            "C* is not a well-formed function: SolverStuck { solved: 9, total: 10 }",
        ),
        (
            ChallengeError::Unsatisfied,
            "C* forward-solved witness does not satisfy all constraints",
        ),
        (ChallengeError::WrongOutputs, "C* solved outputs != claimed y_star_pub"),
        (
            ChallengeError::OutputMismatch,
            "Output mismatch: C⁰ and C* produced different outputs",
        ),
        (ChallengeError::InvalidBaseline(index), "Spartan instance for C⁰: InvalidIndex"),
        (ChallengeError::InvalidOptimized(scalar), "Spartan instance for C*: InvalidScalar"),
        (ChallengeError::ProofRejected(no()), "π⁰ verification failed: InternalError"),
        (ChallengeError::StarProofRejected(no()), "π* verification failed: InternalError"),
        (
            ChallengeError::WitnessFailed(stuck()),
            "C* witness solver failed: SolverStuck { solved: 9, total: 10 }",
        ),
    ];
    for (error, words) in cases {
        assert_eq!(error.message(), words);
    }
}

#[test]
fn the_other_challenge_has_words_of_its_own() {
    let no = || "InternalError".to_string();
    let cases = [
        (
            ChallengeError::NotSmaller { num_cons: 10, limit: 7 },
            "Optimized circuit has 10 constraints, must be < 7 (baseline)",
        ),
        (
            ChallengeError::InvalidBaseline(InvalidInstance::InvalidScalar),
            "Failed to create Spartan Instance for C⁰: InvalidScalar",
        ),
        (
            ChallengeError::InvalidOptimized(InvalidInstance::InvalidIndex),
            "Failed to create Spartan Instance for C*: InvalidIndex",
        ),
        (ChallengeError::ProofRejected(no()), "Proof π⁰ verification failed: InternalError"),
        (ChallengeError::StarProofRejected(no()), "Proof π* verification failed: InternalError"),
        (
            ChallengeError::OutputMismatch,
            "Output mismatch: C⁰ and C* produced different outputs",
        ),
    ];
    for (error, words) in cases {
        assert_eq!(error.zk_message(), words);
    }
}

#[test]
fn a_witness_error_is_written_as_its_debug_form() {
    let errors = [
        WitnessError::InvalidInputs { expected: 0, got: usize::MAX },
        WitnessError::SolverStuck { solved: 10, total: 4096 },
        WitnessError::NotInEvaluationOrder { row: 100 },
        WitnessError::NonLinearUnknown { row: 7 },
        WitnessError::MalformedInstance { reason: "num_inputs < num_outputs" },
    ];
    for e in errors {
        let mut text = "error: ".to_string();
        e.append_to(&mut text);
        assert_eq!(text, format!("error: {:?}", e));
    }
}

#[test]
fn lists_are_cut_and_joined() {
    let a = scalars(&[1, 2, 3]);
    assert_eq!(first_scalars(&a, 2), scalars(&[1, 2]));
    assert_eq!(concat_scalars(&a, &scalars(&[4])), scalars(&[1, 2, 3, 4]));
    assert_eq!(scalars_to_bytes(&a)[2], Scalar::from_u64(3).to_bytes());
}

#[test]
fn the_fullest_matrix_counts() {
    let ch = challenge();
    let c = &ch.circuit_c0;
    assert_eq!(num_non_zero(c), 4);
    assert_eq!(longest(&c.A, &vec![], &vec![]), 4);
    assert_eq!(longest(&vec![], &vec![], &vec![]), 0);
}

#[test]
fn a_difficulty_is_a_list_of_one_number() {
    let d = zk::Difficulty::from_values(&vec![7, 8]);
    assert_eq!(d, zk::Difficulty { delta: 7 });
    assert_eq!(d.to_values(), vec![7]);
}

#[test]
fn a_circuit_is_converted_back_and_forth() {
    let si = challenge().circuit_c0;
    let circuit = Circuit::from_spartan_instance(si.clone());
    let back = circuit.clone().to_spartan_instance(1);
    assert_eq!((back.num_cons, back.num_vars, back.num_inputs), (4, 3, 3));
    assert_eq!(back.num_outputs, si.num_outputs);
    assert_eq!((back.A, back.B, back.C), (si.A, si.B, si.C));
    assert_eq!(circuit.num_non_zero(), 4);
}

fn zk_solved() -> (zk::Challenge, zk::Solution) {
    let dag = small_dag();
    let d = zk::Difficulty { delta: 1 };
    let ch = zk::Challenge::generate_instance(&[1; 32], &d, &dag).unwrap();
    let optimize = |c: &Circuit| {
        Circuit::from_spartan_instance(remove_aliases(&c.to_spartan_instance(1)))
    };
    let solution = zk::solve_challenge(&ch, optimize, solve_witness_forward, &dag).unwrap();
    (ch, solution)
}

#[test]
fn a_malformed_optimized_circuit_is_refused() {
    let (ch, mut solution) = zk_solved();
    let x = ch.derive_point(&solution.circuit_star).unwrap();
    let (vars, io) =
        solve_witness_forward(&solution.circuit_star.to_spartan_instance(1), 1, &x).unwrap();
    let mut bad = solution.circuit_star.clone();
    bad.A.push((0, 0, [0xff; 32]));
    let res = ch.assemble(bad.clone(), &small_dag(), &x, &vars, &io);
    assert!(matches!(
        res,
        Err(ChallengeError::InvalidOptimized(InvalidInstance::InvalidScalar))
    ));
    // The proof for the baseline still holds at the old point.
    solution.circuit_star = bad;
    assert!(matches!(
        ch.verify_solution_at(&solution, &x),
        Err(ChallengeError::InvalidOptimized(InvalidInstance::InvalidScalar))
    ));
}

#[test]
fn a_failing_witness_solver_is_reported() {
    let dag = small_dag();
    let d = zk::Difficulty { delta: 1 };
    let ch = zk::Challenge::generate_instance(&[1; 32], &d, &dag).unwrap();
    let none = |_: &SpartanInstance, _: usize, _: &[Scalar]| {
        Err(WitnessError::SolverStuck { solved: 1, total: 2 })
    };
    let res = zk::solve_challenge(&ch, |c: &Circuit| c.clone(), none, &dag);
    assert!(matches!(
        res,
        Err(ChallengeError::WitnessFailed(WitnessError::SolverStuck { solved: 1, total: 2 }))
    ));
}

#[test]
fn sizes_are_checked() {
    let inst = challenge().circuit_c0;
    assert!(can_encode(&inst) && can_prove(&inst));
    let mut empty = inst.clone();
    empty.num_cons = 0;
    assert!(!can_encode(&empty) && !can_prove(&empty));
    let mut huge = inst.clone();
    huge.num_vars = usize::MAX;
    assert!(!can_encode(&huge));
    let mut sparse = inst.clone();
    for m in [&mut sparse.A, &mut sparse.B, &mut sparse.C] {
        m.truncate(1);
    }
    assert!(can_encode(&sparse) && !can_prove(&sparse));
    sparse.num_cons = 1;
    assert!(!can_encode(&sparse));
}

#[test]
fn an_honest_solution_is_accepted() {
    let (ch, solution) = solved();
    assert_eq!(ch.evaluate_num_constraints(&solution).unwrap(), 3);
    assert_eq!(ch.compute_baseline().unwrap(), 3);
}

#[test]
fn an_optimized_circuit_is_evaluated() {
    let ch = challenge();
    let star = remove_aliases(&ch.circuit_c0);
    assert_eq!(ch.evaluate_circuit(&star, &small_dag()).unwrap(), 3);
}

#[test]
fn a_baseline_proof_on_the_wrong_transcript_is_rejected() {
    let (ch, mut solution) = solved();
    let x = ch.derive_point(&solution.circuit_star).unwrap();
    let (vars, io) = solve_witness_forward(&ch.circuit_c0, 1, &x).unwrap();
    solution.proof0 = prove(&ch.circuit_c0, &vars, &io, b"ZKChallenge_Cstar").unwrap();
    assert!(matches!(
        ch.evaluate_num_constraints(&solution),
        Err(ChallengeError::ProofRejected(_))
    ));
}

#[test]
fn an_optimized_proof_on_the_wrong_transcript_is_rejected() {
    let (ch, mut solution) = solved();
    let x = ch.derive_point(&solution.circuit_star).unwrap();
    let (vars, io) = solve_witness_forward(&solution.circuit_star, 1, &x).unwrap();
    solution.proof_star = prove(&solution.circuit_star, &vars, &io, b"ZKChallenge_C0").unwrap();
    assert!(matches!(
        ch.evaluate_num_constraints(&solution),
        Err(ChallengeError::StarProofRejected(_))
    ));
}

#[test]
fn a_solution_is_verified_at_its_point() {
    let (ch, solution) = zk_solved();
    let x = ch.derive_point(&solution.circuit_star).unwrap();
    assert!(ch.verify_solution_at(&solution, &x).is_ok());
}

#[test]
fn solutions_are_judged_by_size_and_outputs() {
    let (ch, mut solution) = zk_solved();
    let claimed = std::mem::replace(&mut solution.y0_pub, scalars(&[1]));
    assert!(matches!(
        ch.verify_solution(&solution),
        Err(ChallengeError::OutputMismatch)
    ));
    solution.y0_pub = claimed;
    solution.circuit_star = ch.circuit_c0.clone();
    assert!(matches!(
        ch.verify_solution(&solution),
        Err(ChallengeError::NotSmaller { num_cons: 4, limit: 4 })
    ));
}

#[test]
fn solutions_are_judged_by_their_proofs() {
    let (ch, mut solution) = zk_solved();
    std::mem::swap(&mut solution.y0_pub, &mut solution.y_star_pub);
    assert!(ch.verify_solution(&solution).is_ok());
    solution.y0_pub = scalars(&[1]);
    solution.y_star_pub = scalars(&[1]);
    assert!(matches!(
        ch.verify_solution(&solution),
        Err(ChallengeError::ProofRejected(_))
    ));
}

fn zk_star() -> (zk::Challenge, Circuit) {
    let d = zk::Difficulty { delta: 1 };
    let ch = zk::Challenge::generate_instance(&[1; 32], &d, &small_dag()).unwrap();
    let star = remove_aliases(&ch.circuit_c0.to_spartan_instance(1));
    (ch, Circuit::from_spartan_instance(star))
}

#[test]
fn a_smaller_circuit_solves_the_challenge() {
    let (ch, star) = zk_star();
    assert!(ch.evaluate_circuit(&star, &small_dag()).is_ok());
}

#[test]
fn a_circuit_without_aliases_and_scales_solves_the_challenge() {
    let (ch, _) = zk_star();
    let star = remove_aliases_and_scales(&ch.circuit_c0.to_spartan_instance(1));
    assert_eq!(star.num_cons, 2);
    let star = Circuit::from_spartan_instance(star);
    assert!(ch.evaluate_circuit(&star, &small_dag()).is_ok());
}

#[test]
fn the_same_circuit_does_not_solve_the_challenge() {
    let (ch, _) = zk_star();
    assert!(matches!(
        ch.evaluate_circuit(&ch.circuit_c0, &small_dag()),
        Err(ChallengeError::NotSmaller { num_cons: 4, limit: 4 })
    ));
}

#[test]
fn another_function_does_not_solve_the_challenge() {
    let (ch, mut star) = zk_star();
    let last = star.A.len() - 1;
    star.A[last].2 = Scalar::from_u64(9).to_bytes();
    assert!(matches!(
        ch.evaluate_circuit(&star, &small_dag()),
        Err(ChallengeError::OutputMismatch)
    ));
    star.C.pop();
    assert!(matches!(
        ch.evaluate_circuit(&star, &small_dag()),
        Err(ChallengeError::WitnessFailed(_))
    ));
}
