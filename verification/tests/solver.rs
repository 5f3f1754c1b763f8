//! Witnesses by one pass over the rows.
use zk_optimization::forward::{check_convergence, solve_witness_forward};
use zk_optimization::r1cs::{satisfies, SpartanInstance, WitnessError};
use zk_optimization::scalar::Scalar;

fn bytes(x: u64) -> [u8; 32] {
    Scalar::from_u64(x).to_bytes()
}

/// One constraint, one private variable, one input, no outputs.
fn minimal_instance() -> SpartanInstance {
    SpartanInstance {
        num_cons: 1,
        num_vars: 1,
        num_inputs: 1,
        num_outputs: 0,
        A: vec![(0, 0, bytes(1))],
        B: vec![(0, 1, bytes(1))],
        C: vec![(0, 2, bytes(1))],
    }
}

/// `z0 = x * x`, then `y = z0 + 3`, laid out as `[z0 | 1 | y | x]`.
fn square_plus_three() -> SpartanInstance {
    SpartanInstance {
        num_cons: 2,
        num_vars: 1,
        num_inputs: 2,
        num_outputs: 1,
        A: vec![(0, 3, bytes(1)), (1, 0, bytes(1)), (1, 1, bytes(3))],
        B: vec![(0, 3, bytes(1)), (1, 1, bytes(1))],
        C: vec![(0, 0, bytes(1)), (1, 2, bytes(1))],
    }
}

#[test]
fn test_nonlinear_row_rejected() {
    let inst = SpartanInstance {
        num_cons: 1,
        num_vars: 1,
        num_inputs: 1,
        num_outputs: 0,
        A: vec![(0, 0, bytes(1)), (0, 1, bytes(5))],
        B: vec![(0, 0, bytes(1)), (0, 1, bytes(3))],
        C: vec![(0, 0, bytes(1))],
    };
    let x_eval = vec![Scalar::from_u64(7)];
    let res = solve_witness_forward(&inst, 0, &x_eval);
    assert!(
        matches!(res, Err(WitnessError::NonLinearUnknown { row: 0 })),
        "quadratic defining row must be rejected, got: {:?}",
        res
    );
}

#[test]
fn test_malformed_non_canonical_rejected() {
    let mut inst = minimal_instance();
    let mut bad = bytes(1);
    bad[31] = 0xff;
    inst.A = vec![(0, 0, bad)];

    let x_eval = vec![Scalar::from_u64(7)];
    let res = solve_witness_forward(&inst, 0, &x_eval);
    assert!(
        matches!(res, Err(WitnessError::MalformedInstance { .. })),
        "non-canonical scalar must be rejected, got: {:?}",
        res
    );
}

#[test]
fn test_malformed_row_out_of_range_rejected() {
    let mut inst = minimal_instance();
    inst.A = vec![(5, 0, bytes(1))];

    let x_eval = vec![Scalar::from_u64(7)];
    let res = solve_witness_forward(&inst, 0, &x_eval);
    assert!(
        matches!(res, Err(WitnessError::MalformedInstance { .. })),
        "out-of-range row must be rejected, got: {:?}",
        res
    );
}

#[test]
fn test_malformed_col_out_of_range_rejected() {
    let mut inst = minimal_instance();
    inst.A = vec![(0, 7, bytes(1))];

    let x_eval = vec![Scalar::from_u64(7)];
    let res = solve_witness_forward(&inst, 0, &x_eval);
    assert!(
        matches!(res, Err(WitnessError::MalformedInstance { .. })),
        "out-of-range column must be rejected, got: {:?}",
        res
    );
}

#[test]
fn test_malformed_huge_num_vars_rejected() {
    let mut inst = minimal_instance();
    inst.num_vars = 1usize << 50;
    inst.num_cons = 1;

    let x_eval = vec![Scalar::from_u64(7)];
    let res = solve_witness_forward(&inst, 0, &x_eval);
    assert!(
        matches!(res, Err(WitnessError::MalformedInstance { .. })),
        "huge num_vars must be rejected without panicking, got: {:?}",
        res
    );
}

#[test]
fn a_row_is_solved_for_its_only_unknown() {
    let (vars, io) =
        solve_witness_forward(&square_plus_three(), 1, &[Scalar::from_u64(5)]).unwrap();
    assert_eq!(vars, vec![Scalar::from_u64(25)]);
    assert_eq!(io, vec![Scalar::from_u64(28), Scalar::from_u64(5)]);
}

#[test]
fn an_unknown_in_a_factor_is_divided_out() {
    // (3 * z0) * 1 == x, at x = 12.
    let mut inst = minimal_instance();
    inst.A = vec![(0, 0, bytes(3))];
    let (vars, _) = solve_witness_forward(&inst, 0, &[Scalar::from_u64(12)]).unwrap();
    assert_eq!(vars, vec![Scalar::from_u64(4)]);
}

#[test]
fn a_row_that_pins_nothing_leaves_the_variable_open() {
    // (0 * z0) * 1 == x - x.
    let mut inst = minimal_instance();
    inst.A = vec![(0, 0, bytes(0))];
    inst.C = vec![];
    let res = solve_witness_forward(&inst, 0, &[Scalar::from_u64(1)]);
    assert!(matches!(res, Err(WitnessError::SolverStuck { solved: 0, total: 1 })));
}

#[test]
fn missing_rows_leave_the_solver_stuck() {
    let mut inst = square_plus_three();
    inst.A = vec![(0, 3, bytes(1))];
    inst.B = vec![(0, 3, bytes(1))];
    inst.C = vec![(0, 0, bytes(1))];
    let res = solve_witness_forward(&inst, 1, &[Scalar::from_u64(5)]);
    assert!(matches!(res, Err(WitnessError::SolverStuck { solved: 1, total: 2 })));
}

#[test]
fn the_number_of_inputs_has_to_fit() {
    let res = solve_witness_forward(&square_plus_three(), 1, &[]);
    assert!(matches!(res, Err(WitnessError::InvalidInputs { expected: 1, got: 0 })));
}

#[test]
fn rows_out_of_order_are_named() {
    let mut inst = square_plus_three();
    for m in [&mut inst.A, &mut inst.B, &mut inst.C] {
        for e in m.iter_mut() {
            e.0 = 1 - e.0;
        }
    }
    let res = solve_witness_forward(&inst, 1, &[Scalar::from_u64(5)]);
    assert!(matches!(res, Err(WitnessError::NotInEvaluationOrder { row: 0 })));
}

#[test]
fn each_malformation_has_its_reason() {
    let reason = |inst: &SpartanInstance| match solve_witness_forward(inst, 0, &[]) {
        Err(WitnessError::MalformedInstance { reason }) => reason,
        other => panic!("expected a malformed instance, got {:?}", other),
    };
    let mut inst = minimal_instance();
    inst.num_outputs = 2;
    assert_eq!(reason(&inst), "num_inputs < num_outputs");
    let mut inst = minimal_instance();
    inst.num_vars = 2;
    assert_eq!(reason(&inst), "num_vars > num_cons");
    let mut inst = minimal_instance();
    inst.num_inputs = usize::MAX;
    assert_eq!(reason(&inst), "dimension overflow");
    let mut inst = minimal_instance();
    inst.C = vec![(0, 3, bytes(1))];
    assert_eq!(reason(&inst), "row/col out of range or non-canonical scalar");
}

#[test]
fn satisfaction_is_checked_row_by_row() {
    let inst = square_plus_three();
    let vars = vec![Scalar::from_u64(25)];
    let good = vec![Scalar::from_u64(28), Scalar::from_u64(5)];
    let bad = vec![Scalar::from_u64(29), Scalar::from_u64(5)];
    assert!(satisfies(&inst, &vars, &good));
    assert!(!satisfies(&inst, &vars, &bad));
    assert!(!satisfies(&inst, &[], &good));
    let mut malformed = square_plus_three();
    malformed.A[0].1 = 9;
    assert!(!satisfies(&malformed, &vars, &good));
}

#[test]
fn the_solved_witness_is_the_only_one() {
    let inst = square_plus_three();
    let x = Scalar::from_u64(9);
    let (vars, io) = solve_witness_forward(&inst, 1, &[x]).unwrap();
    assert!(satisfies(&inst, &vars, &io));
    let other = vec![vars[0].plus(&Scalar::one())];
    assert!(!satisfies(&inst, &other, &io));
}

#[test]
fn more_outputs_than_public_values_are_refused() {
    let res = solve_witness_forward(&minimal_instance(), 2, &[]);
    assert!(matches!(
        res,
        Err(WitnessError::MalformedInstance { reason: "num_inputs < num_outputs" })
    ));
}

#[test]
fn convergence_counts_variables_and_outputs_alone() {
    // Columns [v0, v1 | 1 | y0, y1 | x].
    let solved = vec![true, false, false, true, true, false];
    assert!(matches!(
        check_convergence(&solved, 2, 2, 2),
        Err(WitnessError::SolverStuck { solved: 3, total: 4 })
    ));
    assert!(check_convergence(&vec![true, true, false, true, true, false], 2, 2, 2).is_ok());
}

#[test]
fn convergence_finds_the_outputs_behind_the_constant() {
    let solved = vec![true, false, false, false, true];
    assert!(check_convergence(&solved, 1, 1, 3).is_ok());
    assert!(matches!(
        check_convergence(&solved, 1, 1, 2),
        Err(WitnessError::SolverStuck { solved: 1, total: 2 })
    ));
    assert!(check_convergence(&vec![true, true], 2, 1, 0).is_ok());
}

#[test]
fn with_as_many_rows_as_unknowns_the_solved_witness_satisfies_all() {
    let inst = square_plus_three();
    assert_eq!(inst.num_cons, inst.num_vars + inst.num_outputs);
    for x in 0..20 {
        let (vars, io) = solve_witness_forward(&inst, 1, &[Scalar::from_u64(x)]).unwrap();
        assert!(satisfies(&inst, &vars, &io));
    }
}

#[test]
fn with_more_rows_than_unknowns_the_solved_witness_may_fail_one() {
    // One row more: z0 = 7.
    let mut inst = square_plus_three();
    inst.num_cons = 3;
    inst.A.push((2, 0, bytes(1)));
    inst.B.push((2, 1, bytes(1)));
    inst.C.push((2, 1, bytes(7)));
    let (vars, io) = solve_witness_forward(&inst, 1, &[Scalar::from_u64(5)]).unwrap();
    assert!(!satisfies(&inst, &vars, &io));
}
