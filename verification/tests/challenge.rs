//! Challenges on circuits of about a thousand constraints, and, where proofs are made, on
//! circuits of a few dozen.
use libspartan::{InputsAssignment, Instance, SNARKGens, VarsAssignment, SNARK};
use merlin::Transcript;
use zk_optimization::algorithms;
use zk_optimization::baselines::{check_eliminable, remove_aliases, remove_aliases_and_scales};
use zk_optimization::circuit::Circuit;
use zk_optimization::crypto::CryptoHash;
use zk_optimization::dag::{Node, OpType, DAG};
use zk_optimization::evaluate::compute_witness;
use zk_optimization::forward::solve_witness_forward;
use zk_optimization::r1cs::{R1CSMatrix, SpartanInstance, WitnessError};
use zk_optimization::scalar::Scalar;
use zk_optimization::seed::seed_to_hex;
use zk_optimization::spartan::{num_non_zero, scalars_to_bytes};
use zk_optimization::zk;
use zk_optimization::zk_optimization::{Challenge, Track};

/// A deterministic circuit for a seed: outputs first, inputs last, every node reading
/// deeper ones. One output is an alias, and factors may be one.
fn generate_dag(seed_hex: &str, inner: usize) -> DAG {
    let num_outputs = 4;
    let num_inputs = 8;
    let total = num_outputs + inner + num_inputs;
    let mut state: u64 = 0x9e37_79b9_7f4a_7c15;
    for b in seed_hex.bytes() {
        state = (state ^ b as u64).wrapping_mul(0x0000_0100_0000_01b3);
    }
    let mut next = move |bound: usize| -> usize {
        state = state.wrapping_mul(6364136223846793005).wrapping_add(1442695040888963407);
        ((state >> 33) as usize) % bound
    };
    let mut nodes = Vec::new();
    for i in 0..total {
        let op = if i >= num_outputs + inner {
            OpType::Input
        } else {
            let reach = (total - i - 1).min(60);
            let s = i + 1 + next(reach);
            let t = i + 1 + next(reach);
            let kind = next(100);
            if i == 0 {
                OpType::Alias(s)
            } else if i < num_outputs || kind < 30 {
                OpType::Mul(s, t)
            } else if kind < 55 {
                OpType::Add(s, t)
            } else if kind < 70 {
                OpType::Alias(s)
            } else if kind < 90 {
                OpType::Scale(s, 1 + next(97) as u64)
            } else {
                OpType::Pow5(s)
            }
        };
        nodes.push(Node { id: i, op });
    }
    DAG { nodes, num_inputs, num_outputs }
}

fn test_seed() -> [u8; 32] {
    let mut seed = [0u8; 32];
    seed[0] = 42;
    seed
}

fn test_dag(delta: usize) -> DAG {
    generate_dag(&seed_to_hex(&test_seed()), 840 * delta)
}

/// The circuit for tests that make proofs.
fn small_dag(delta: usize) -> DAG {
    generate_dag(&seed_to_hex(&test_seed()), 18 * delta)
}

fn make_challenge(delta: usize) -> Challenge {
    Challenge::generate_instance(&test_seed(), &Track { delta }, &test_dag(delta)).unwrap()
}

fn make_small_challenge(delta: usize) -> Challenge {
    Challenge::generate_instance(&test_seed(), &Track { delta }, &small_dag(delta)).unwrap()
}

fn make_zk_challenge(delta: usize) -> zk::Challenge {
    let difficulty = zk::Difficulty { delta };
    zk::Challenge::generate_instance(&test_seed(), &difficulty, &test_dag(delta)).unwrap()
}

fn make_small_zk_challenge(delta: usize) -> zk::Challenge {
    let difficulty = zk::Difficulty { delta };
    zk::Challenge::generate_instance(&test_seed(), &difficulty, &small_dag(delta)).unwrap()
}

#[test]
fn zk_test_generate_instance() {
    let ch = make_zk_challenge(1);
    assert!(ch.circuit_c0.num_cons >= 900, "delta=1 should give ~1000 constraints");
    assert!(ch.circuit_c0.num_vars > 0);
    assert!(ch.circuit_c0.num_inputs > 0);
    assert!(ch.num_circuit_inputs > 0);
    assert!(ch.num_circuit_outputs > 0);
}

#[test]
fn zk_test_deterministic_generation() {
    let c1 = make_zk_challenge(1);
    let c2 = make_zk_challenge(1);
    assert_eq!(c1.circuit_c0.num_cons, c2.circuit_c0.num_cons);
    assert_eq!(c1.circuit_c0.num_vars, c2.circuit_c0.num_vars);
    assert_eq!(c1.circuit_c0.num_inputs, c2.circuit_c0.num_inputs);
    assert_eq!(c1.circuit_c0.A, c2.circuit_c0.A);
}

#[test]
fn zk_test_hash_and_xeval_derivation() {
    let ch = make_zk_challenge(1);
    let h0 = CryptoHash::from_circuit(&ch.circuit_c0).unwrap();
    let h0_again = CryptoHash::from_circuit(&ch.circuit_c0).unwrap();
    assert_eq!(h0, h0_again, "Hashing must be deterministic");

    let combined = h0.combine(&h0_again);
    let x_eval = combined.to_scalars(ch.num_circuit_inputs);
    assert_eq!(x_eval.len(), ch.num_circuit_inputs);

    for (i, s) in x_eval.iter().enumerate() {
        assert_ne!(*s, Scalar::zero(), "x_eval[{}] should not be zero", i);
    }
}

#[test]
fn zk_test_witness_satisfies_c0() {
    let ch = make_zk_challenge(1);
    let c0 = &ch.circuit_c0;

    let h0 = CryptoHash::from_circuit(c0).unwrap();
    let x_eval = h0.combine(&h0).to_scalars(ch.num_circuit_inputs);

    let dag = test_dag(ch.difficulty.delta);
    let (vars, public_io) = compute_witness(&dag, &x_eval);

    assert_eq!(vars.len(), c0.num_vars, "vars length must match num_vars");
    assert_eq!(public_io.len(), c0.num_inputs, "public_io length must match num_inputs");

    let inst =
        Instance::new(c0.num_cons, c0.num_vars, c0.num_inputs, &c0.A, &c0.B, &c0.C).unwrap();
    let av = VarsAssignment::new(&scalars_to_bytes(&vars)).unwrap();
    let ai = InputsAssignment::new(&scalars_to_bytes(&public_io)).unwrap();
    assert!(inst.is_sat(&av, &ai).unwrap(), "Witness must satisfy C0");
}

#[test]
fn zk_test_full_identity_roundtrip() {
    let ch = make_small_zk_challenge(1);
    let c0 = &ch.circuit_c0;

    let h0 = CryptoHash::from_circuit(c0).unwrap();
    let h_star = h0.clone();
    let x_eval = h0.combine(&h_star).to_scalars(ch.num_circuit_inputs);

    let dag = small_dag(ch.difficulty.delta);
    let (vars0, public_io0) = compute_witness(&dag, &x_eval);

    let inst0 =
        Instance::new(c0.num_cons, c0.num_vars, c0.num_inputs, &c0.A, &c0.B, &c0.C).unwrap();
    let gens0 = SNARKGens::new(c0.num_cons, c0.num_vars, c0.num_inputs, c0.num_non_zero());
    let (comm0, decomm0) = SNARK::encode(&inst0, &gens0);

    let av0 = VarsAssignment::new(&scalars_to_bytes(&vars0)).unwrap();
    let ai0 = InputsAssignment::new(&scalars_to_bytes(&public_io0)).unwrap();

    let mut t_prove0 = Transcript::new(b"ZKChallenge_C0");
    let proof0 = SNARK::prove(&inst0, &comm0, &decomm0, av0, &ai0, &gens0, &mut t_prove0);

    let mut t_verify0 = Transcript::new(b"ZKChallenge_C0");
    proof0
        .verify(&comm0, &ai0, &mut t_verify0, &gens0)
        .expect("pi0 verification must succeed");

    let (vars_star, public_io_star) = solve_witness_forward(
        &c0.to_spartan_instance(ch.num_circuit_outputs),
        ch.num_circuit_outputs,
        &x_eval,
    )
    .expect("R1CS solver must succeed for identity circuit");
    let gens_star = SNARKGens::new(c0.num_cons, c0.num_vars, c0.num_inputs, c0.num_non_zero());
    let (comm_star, decomm_star) = SNARK::encode(&inst0, &gens_star);

    let av_star = VarsAssignment::new(&scalars_to_bytes(&vars_star)).unwrap();
    let ai_star = InputsAssignment::new(&scalars_to_bytes(&public_io_star)).unwrap();

    let mut t_prove_star = Transcript::new(b"ZKChallenge_Cstar");
    let proof_star = SNARK::prove(
        &inst0,
        &comm_star,
        &decomm_star,
        av_star,
        &ai_star,
        &gens_star,
        &mut t_prove_star,
    );

    let mut t_verify_star = Transcript::new(b"ZKChallenge_Cstar");
    proof_star
        .verify(&comm_star, &ai_star, &mut t_verify_star, &gens_star)
        .expect("pi* verification must succeed");

    let y0_pub = &public_io0[..ch.num_circuit_outputs];
    let y_star_pub = &public_io_star[..ch.num_circuit_outputs];
    assert_eq!(y0_pub, y_star_pub, "C0 and C* must produce the same outputs");
}

#[test]
fn zk_test_alias_optimizer_roundtrip() {
    let ch = make_small_zk_challenge(1);
    let num_outputs = ch.num_circuit_outputs;

    let alias_optimizer = |c0: &Circuit| -> Circuit {
        let si = c0.to_spartan_instance(num_outputs);
        let optimized = remove_aliases(&si);
        Circuit::from_spartan_instance(optimized)
    };

    let dag = small_dag(ch.difficulty.delta);
    let solution = zk::solve_challenge(&ch, alias_optimizer, solve_witness_forward, &dag)
        .expect("solve_challenge must succeed with alias optimizer");

    assert!(
        solution.circuit_star.num_cons < ch.circuit_c0.num_cons,
        "Alias optimizer must reduce constraint count: {} >= {}",
        solution.circuit_star.num_cons,
        ch.circuit_c0.num_cons
    );

    ch.verify_solution(&solution)
        .expect("verify_solution must succeed for alias-optimized circuit");
}

#[test]
fn test_remove_scales_reduces_constraints() {
    let ch = make_challenge(1);
    let c0 = &ch.circuit_c0;

    let after_aliases = remove_aliases(c0);
    let after_both = remove_aliases_and_scales(c0);

    assert!(
        after_both.num_cons < c0.num_cons,
        "remove_aliases_and_scales must reduce constraints: {} -> {}",
        c0.num_cons,
        after_both.num_cons
    );
    assert!(
        after_both.num_cons <= after_aliases.num_cons,
        "remove_aliases_and_scales must be at least as good as remove_aliases: {} vs {}",
        after_both.num_cons,
        after_aliases.num_cons
    );
}

#[test]
fn test_remove_scales_topological_order() {
    let ch = make_challenge(1);
    let result = remove_aliases_and_scales(&ch.circuit_c0);

    let h0 = CryptoHash::from_serializable(&ch.circuit_c0).unwrap();
    let x_eval = h0.combine(&h0).to_scalars(ch.num_circuit_inputs);

    let witness = solve_witness_forward(&result, ch.num_circuit_outputs, &x_eval);
    assert!(
        witness.is_ok(),
        "forward witness solver must succeed on aliases+scales result: {:?}",
        witness.err()
    );
}

#[test]
fn mod_test_generate_instance() {
    let ch = make_challenge(1);
    assert!(ch.circuit_c0.num_cons >= 900);
    assert!(ch.circuit_c0.num_vars > 0);
    assert!(ch.circuit_c0.num_inputs > 0);
}

#[test]
fn mod_test_deterministic_generation() {
    let c1 = make_challenge(1);
    let c2 = make_challenge(1);
    assert_eq!(c1.circuit_c0.num_cons, c2.circuit_c0.num_cons);
    assert_eq!(c1.circuit_c0.A, c2.circuit_c0.A);
}

#[test]
fn mod_test_hash_and_xeval_derivation() {
    let ch = make_challenge(1);
    let h0 = CryptoHash::from_serializable(&ch.circuit_c0).unwrap();
    let h0_again = CryptoHash::from_serializable(&ch.circuit_c0).unwrap();
    assert_eq!(h0, h0_again);

    let x_eval = h0.combine(&h0_again).to_scalars(ch.num_circuit_inputs);
    assert_eq!(x_eval.len(), ch.num_circuit_inputs);
    for (i, s) in x_eval.iter().enumerate() {
        assert_ne!(*s, Scalar::zero(), "x_eval[{}] should not be zero", i);
    }
}

#[test]
fn mod_test_witness_satisfies_c0() {
    let ch = make_challenge(1);
    let c0 = &ch.circuit_c0;
    let h0 = CryptoHash::from_serializable(c0).unwrap();
    let x_eval = h0.combine(&h0).to_scalars(ch.num_circuit_inputs);

    let dag_val = test_dag(ch.delta);
    let (vars, public_io) = compute_witness(&dag_val, &x_eval);

    let inst =
        Instance::new(c0.num_cons, c0.num_vars, c0.num_inputs, &c0.A, &c0.B, &c0.C).unwrap();
    let av = VarsAssignment::new(&scalars_to_bytes(&vars)).unwrap();
    let ai = InputsAssignment::new(&scalars_to_bytes(&public_io)).unwrap();
    assert!(inst.is_sat(&av, &ai).unwrap(), "Witness must satisfy C0");
}

#[test]
fn mod_test_full_identity_roundtrip() {
    let ch = make_small_challenge(1);
    let c0 = &ch.circuit_c0;

    let h0 = CryptoHash::from_serializable(c0).unwrap();
    let x_eval = h0.combine(&h0).to_scalars(ch.num_circuit_inputs);

    let dag_val = small_dag(ch.delta);
    let (vars0, io0) = compute_witness(&dag_val, &x_eval);

    let inst0 =
        Instance::new(c0.num_cons, c0.num_vars, c0.num_inputs, &c0.A, &c0.B, &c0.C).unwrap();
    let gens0 = SNARKGens::new(c0.num_cons, c0.num_vars, c0.num_inputs, num_non_zero(c0));
    let (comm0, decomm0) = SNARK::encode(&inst0, &gens0);
    let av0 = VarsAssignment::new(&scalars_to_bytes(&vars0)).unwrap();
    let ai0 = InputsAssignment::new(&scalars_to_bytes(&io0)).unwrap();

    let proof0 = SNARK::prove(
        &inst0,
        &comm0,
        &decomm0,
        av0,
        &ai0,
        &gens0,
        &mut Transcript::new(b"ZKChallenge_C0"),
    );
    proof0
        .verify(&comm0, &ai0, &mut Transcript::new(b"ZKChallenge_C0"), &gens0)
        .expect("pi0 must verify");

    let (vars_star, io_star) = solve_witness_forward(c0, ch.num_circuit_outputs, &x_eval).unwrap();
    let gens_star = SNARKGens::new(c0.num_cons, c0.num_vars, c0.num_inputs, num_non_zero(c0));
    let (comm_star, decomm_star) = SNARK::encode(&inst0, &gens_star);
    let av_star = VarsAssignment::new(&scalars_to_bytes(&vars_star)).unwrap();
    let ai_star = InputsAssignment::new(&scalars_to_bytes(&io_star)).unwrap();

    let proof_star = SNARK::prove(
        &inst0,
        &comm_star,
        &decomm_star,
        av_star,
        &ai_star,
        &gens_star,
        &mut Transcript::new(b"ZKChallenge_Cstar"),
    );
    proof_star
        .verify(&comm_star, &ai_star, &mut Transcript::new(b"ZKChallenge_Cstar"), &gens_star)
        .expect("pi* must verify");

    assert_eq!(&io0[..ch.num_circuit_outputs], &io_star[..ch.num_circuit_outputs]);
}

#[test]
fn mod_test_alias_optimizer_roundtrip() {
    let ch = make_small_challenge(1);
    let dag = small_dag(ch.delta);

    let circuit_star = remove_aliases(&ch.circuit_c0);
    let solution = ch
        .build_solution(&circuit_star, &dag)
        .expect("build_solution must succeed");

    assert!(solution.circuit_star.num_cons < ch.circuit_c0.num_cons);

    let accepted = ch
        .evaluate_num_constraints(&solution)
        .expect("evaluate_num_constraints must succeed");
    assert_eq!(accepted, solution.circuit_star.num_cons);
}

#[test]
fn test_wrong_order_rejected() {
    let ch = make_challenge(1);
    let c0 = &ch.circuit_c0;
    let num_cons = c0.num_cons;

    let flip = |mat: &R1CSMatrix| -> R1CSMatrix {
        mat.iter()
            .map(|&(row, col, val)| (num_cons - 1 - row, col, val))
            .collect()
    };

    let reversed = SpartanInstance {
        num_cons: c0.num_cons,
        num_vars: c0.num_vars,
        num_inputs: c0.num_inputs,
        num_outputs: c0.num_outputs,
        A: flip(&c0.A),
        B: flip(&c0.B),
        C: flip(&c0.C),
    };

    let h0 = CryptoHash::from_serializable(c0).unwrap();
    let x_eval = h0.combine(&h0).to_scalars(ch.num_circuit_inputs);

    let result = solve_witness_forward(&reversed, ch.num_circuit_outputs, &x_eval);
    assert!(
        matches!(result, Err(WitnessError::NotInEvaluationOrder { .. })),
        "Expected NotInEvaluationOrder, got: {:?}",
        result
    );
}

#[test]
fn test_cheat_deleted_rows_rejected() {
    let ch = make_challenge(1);
    let c0 = &ch.circuit_c0;

    let drop_every = 3usize;
    let mut remap: Vec<Option<usize>> = vec![None; c0.num_cons];
    let mut new_row = 0usize;
    for old in 0..c0.num_cons {
        if old % drop_every == 0 {
            continue;
        }
        remap[old] = Some(new_row);
        new_row += 1;
    }
    assert!(new_row < c0.num_cons);
    let pick = |m: &R1CSMatrix| -> R1CSMatrix {
        m.iter()
            .filter_map(|&(r, col, val)| remap[r].map(|nr| (nr, col, val)))
            .collect()
    };
    let cheat = SpartanInstance {
        num_cons: new_row,
        num_vars: c0.num_vars,
        num_inputs: c0.num_inputs,
        num_outputs: c0.num_outputs,
        A: pick(&c0.A),
        B: pick(&c0.B),
        C: pick(&c0.C),
    };

    let h0 = CryptoHash::from_serializable(c0).unwrap();
    let x_eval = h0.combine(&h0).to_scalars(ch.num_circuit_inputs);
    let res = solve_witness_forward(&cheat, ch.num_circuit_outputs, &x_eval);
    assert!(
        res.is_err(),
        "delete-rows cheat must be rejected (C* would not be a function), got: {:?}",
        res
    );
}

#[test]
fn test_f5_wrong_outputs_rejected() {
    let ch = make_small_challenge(1);
    let dag = small_dag(ch.delta);
    let circuit_star = remove_aliases(&ch.circuit_c0);
    let mut solution = ch.build_solution(&circuit_star, &dag).expect("valid solution");

    assert!(
        !solution.y_star_pub.is_empty(),
        "test requires at least one circuit output"
    );
    let wrong = solution.y_star_pub[0].plus(&Scalar::one());
    if let Some(o) = solution.y0_pub.first_mut() {
        *o = wrong;
    }
    if let Some(o) = solution.y_star_pub.first_mut() {
        *o = wrong;
    }

    let res = ch.evaluate_num_constraints(&solution);
    let err = res.expect_err("tampered outputs must be rejected by the F5 check");
    assert!(
        err.message().contains("solved outputs"),
        "expected the F5 solved-outputs check to fire, got: {:?}",
        err
    );
}

#[test]
fn both_eliminations_keep_the_outputs() {
    let ch = make_challenge(1);
    let dag = test_dag(1);
    let x_eval = CryptoHash::from_serializable(&ch.circuit_c0)
        .unwrap()
        .to_scalars(ch.num_circuit_inputs);
    let (_, io) = compute_witness(&dag, &x_eval);
    let small = remove_aliases_and_scales(&ch.circuit_c0);
    let (_, small_io) = solve_witness_forward(&small, ch.num_circuit_outputs, &x_eval).unwrap();
    assert_eq!(io, small_io);
    assert_eq!(small.num_inputs, ch.circuit_c0.num_inputs);
    assert_eq!(small.num_outputs, ch.circuit_c0.num_outputs);
}

#[test]
fn the_baseline_is_what_removing_aliases_leaves() {
    let ch = make_challenge(1);
    assert_eq!(
        ch.compute_baseline().unwrap(),
        remove_aliases(&ch.circuit_c0).num_cons
    );
}

#[test]
fn removing_aliases_solves_the_challenge() {
    let ch = make_small_challenge(1);
    let dag = small_dag(1);
    let solution = algorithms::solve_challenge(&ch, &dag).unwrap().unwrap();
    assert_eq!(
        ch.evaluate_num_constraints(&solution).unwrap(),
        ch.compute_baseline().unwrap()
    );
}

#[test]
fn both_eliminations_can_be_run_on_a_circuit() {
    let ch = make_challenge(1);
    assert!(check_eliminable(&ch.circuit_c0));
    let without_aliases = remove_aliases(&ch.circuit_c0);
    assert!(check_eliminable(&without_aliases));
    assert_eq!(
        ch.circuit_c0.num_cons,
        ch.circuit_c0.num_vars + ch.circuit_c0.num_outputs
    );
}
