//! Removing aliases and scales from small systems.
use zk_optimization::baselines::{
    check_eliminable, remove_aliases, remove_aliases_and_scales, remove_scales,
};
use zk_optimization::convert::dag_to_spartan;
use zk_optimization::dag::{Node, OpType, DAG};
use zk_optimization::forward::solve_witness_forward;
use zk_optimization::r1cs::{satisfies, R1CSMatrix, SpartanInstance};
use zk_optimization::scalar::Scalar;

fn bytes(x: u64) -> [u8; 32] {
    Scalar::from_u64(x).to_bytes()
}

fn minus_one() -> [u8; 32] {
    Scalar::zero().minus(&Scalar::one()).to_bytes()
}

fn matrix(entries: &[(usize, usize, u64)]) -> R1CSMatrix {
    entries.iter().map(|&(r, c, v)| (r, c, bytes(v))).collect()
}

/// `z0 = x * x`, then a row that ties `z1` to `z0`, then `y = z1 * x`, laid out as
/// `[z0, z1 | 1 | y | x]`.
fn with_middle(a: (usize, u64), c: (usize, u64)) -> SpartanInstance {
    SpartanInstance {
        num_cons: 3,
        num_vars: 2,
        num_inputs: 2,
        num_outputs: 1,
        A: matrix(&[(0, 4, 1), (1, a.0, a.1), (2, 1, 1)]),
        B: matrix(&[(0, 4, 1), (1, 2, 1), (2, 4, 1)]),
        C: matrix(&[(0, 0, 1), (1, c.0, c.1), (2, 3, 1)]),
    }
}

fn output(inst: &SpartanInstance, x: u64) -> Scalar {
    let (_, io) = solve_witness_forward(inst, 1, &[Scalar::from_u64(x)]).unwrap();
    io[0]
}

#[test]
fn an_alias_is_substituted() {
    let inst = with_middle((1, 1), (0, 1));
    let small = remove_aliases(&inst);
    assert_eq!((small.num_cons, small.num_vars), (2, 1));
    assert_eq!((small.num_inputs, small.num_outputs), (2, 1));
    assert_eq!(small.A, matrix(&[(0, 3, 1), (1, 0, 1)]));
    assert_eq!(small.B, matrix(&[(0, 3, 1), (1, 3, 1)]));
    assert_eq!(small.C, matrix(&[(0, 0, 1), (1, 2, 1)]));
    assert_eq!(output(&inst, 6), Scalar::from_u64(216));
    assert_eq!(output(&small, 6), Scalar::from_u64(216));
}

#[test]
fn a_scale_multiplies_the_coefficients() {
    let inst = with_middle((0, 5), (1, 1));
    let small = remove_scales(&inst);
    assert_eq!((small.num_cons, small.num_vars), (2, 1));
    assert_eq!(small.A, matrix(&[(0, 3, 1), (1, 0, 5)]));
    assert_eq!(small.B, matrix(&[(0, 3, 1), (1, 3, 1)]));
    assert_eq!(small.C, matrix(&[(0, 0, 1), (1, 2, 1)]));
    assert_eq!(output(&inst, 2), Scalar::from_u64(40));
    assert_eq!(output(&small, 2), Scalar::from_u64(40));
}

#[test]
fn scales_are_no_aliases_and_aliases_no_scales() {
    let alias = with_middle((1, 1), (0, 1));
    let same = remove_scales(&alias);
    assert_eq!((same.num_cons, same.num_vars), (3, 2));
    assert_eq!(same.A, alias.A);
    let scale = with_middle((0, 5), (1, 1));
    let same = remove_aliases(&scale);
    assert_eq!((same.num_cons, same.num_vars), (3, 2));
    assert_eq!(same.C, scale.C);
}

#[test]
fn a_zero_factor_is_kept() {
    let inst = with_middle((0, 0), (1, 1));
    assert_eq!(remove_scales(&inst).num_cons, 3);
}

#[test]
fn a_scale_of_a_variable_by_itself_is_kept() {
    let inst = with_middle((1, 5), (1, 1));
    assert_eq!(remove_scales(&inst).num_cons, 3);
}

#[test]
fn chains_of_scales_multiply() {
    // z0 = x * x, z1 = 7 * z0, z2 = 3 * z1, y = z2 * 1 over [z0, z1, z2 | 1 | y | x].
    let inst = SpartanInstance {
        num_cons: 4,
        num_vars: 3,
        num_inputs: 2,
        num_outputs: 1,
        A: matrix(&[(0, 5, 1), (1, 0, 7), (2, 1, 3), (3, 2, 1), (3, 5, 1)]),
        B: matrix(&[(0, 5, 1), (1, 3, 1), (2, 3, 1), (3, 3, 1)]),
        C: matrix(&[(0, 0, 1), (1, 1, 1), (2, 2, 1), (3, 4, 1)]),
    };
    let small = remove_aliases_and_scales(&inst);
    assert_eq!((small.num_cons, small.num_vars), (2, 1));
    assert_eq!(small.A, matrix(&[(0, 3, 1), (1, 0, 21), (1, 3, 1)]));
    assert_eq!(output(&inst, 10), Scalar::from_u64(2110));
    assert_eq!(output(&small, 10), Scalar::from_u64(2110));
}

#[test]
fn like_terms_are_collected_and_zeros_dropped() {
    // z0 = x * x, z1 = z0, y = (z0 + z1) * (z1 - z0 + 1) over [z0, z1 | 1 | y | x].
    let mut inst = with_middle((1, 1), (0, 1));
    inst.A = matrix(&[(0, 4, 1), (1, 1, 1), (2, 0, 1), (2, 1, 1)]);
    inst.B = matrix(&[(0, 4, 1), (1, 2, 1), (2, 1, 1), (2, 2, 1)]);
    inst.B.push((2, 0, minus_one()));
    let small = remove_aliases(&inst);
    assert_eq!(small.A, matrix(&[(0, 3, 1), (1, 0, 2)]));
    assert_eq!(small.B, matrix(&[(0, 3, 1), (1, 1, 1)]));
    assert_eq!(output(&inst, 3), Scalar::from_u64(18));
    assert_eq!(output(&small, 3), Scalar::from_u64(18));
}

#[test]
fn an_output_that_is_an_alias_keeps_its_row() {
    // z0 = x * x, y = z0 over [z0 | 1 | y | x]: the column that is set equal is public.
    let inst = SpartanInstance {
        num_cons: 2,
        num_vars: 1,
        num_inputs: 2,
        num_outputs: 1,
        A: matrix(&[(0, 3, 1), (1, 2, 1)]),
        B: matrix(&[(0, 3, 1), (1, 1, 1)]),
        C: matrix(&[(0, 0, 1), (1, 0, 1)]),
    };
    let same = remove_aliases(&inst);
    assert_eq!((same.num_cons, same.num_vars), (2, 1));
    assert_eq!(same.A, inst.A);
    assert_eq!(same.B, inst.B);
    assert_eq!(same.C, inst.C);
    assert_eq!(output(&same, 9), Scalar::from_u64(81));
}

#[test]
fn a_row_without_private_alias_is_copied_with_its_unused_variables() {
    // y = z1 over [z0, z1 | 1 | y], with z0 in no row.
    let inst = SpartanInstance {
        num_cons: 1,
        num_vars: 2,
        num_inputs: 1,
        num_outputs: 1,
        A: matrix(&[(0, 3, 1)]),
        B: matrix(&[(0, 2, 1)]),
        C: matrix(&[(0, 1, 1)]),
    };
    let same = remove_aliases(&inst);
    assert_eq!((same.num_cons, same.num_vars, same.num_inputs), (1, 2, 1));
    assert_eq!(same.A, inst.A);
    assert_eq!(same.B, inst.B);
    assert_eq!(same.C, inst.C);
}

#[test]
fn an_output_stays_tied_to_an_input_through_an_alias() {
    // z0 = x, y = z0 over [z0 | 1 | y | x].
    let inst = SpartanInstance {
        num_cons: 2,
        num_vars: 1,
        num_inputs: 2,
        num_outputs: 1,
        A: matrix(&[(0, 0, 1), (1, 2, 1)]),
        B: matrix(&[(0, 1, 1), (1, 1, 1)]),
        C: matrix(&[(0, 3, 1), (1, 0, 1)]),
    };
    let small = remove_aliases(&inst);
    assert_eq!((small.num_cons, small.num_vars, small.num_inputs), (1, 0, 2));
    assert_eq!(small.A, matrix(&[(0, 1, 1)]));
    assert_eq!(small.B, matrix(&[(0, 0, 1)]));
    assert_eq!(small.C, matrix(&[(0, 2, 1)]));
}

fn circuit(ops: Vec<OpType>, num_inputs: usize) -> SpartanInstance {
    let nodes = ops.into_iter().enumerate().map(|(id, op)| Node { id, op }).collect();
    dag_to_spartan(&DAG { nodes, num_inputs, num_outputs: 1 })
}

fn io(y: u64, x: u64) -> [Scalar; 2] {
    [Scalar::from_u64(y), Scalar::from_u64(x)]
}

#[test]
fn a_chain_of_aliases_up_to_an_output_computes_the_same() {
    let inst = circuit(vec![OpType::Alias(1), OpType::Alias(2), OpType::Input], 1);
    let small = remove_aliases(&inst);
    assert_eq!((small.num_cons, small.num_vars), (1, 0));
    assert!(satisfies(&small, &[], &io(7, 7)));
    assert!(!satisfies(&small, &[], &io(5, 7)));
}

#[test]
fn a_unit_factor_beside_an_alias_computes_the_same() {
    let inst = circuit(
        vec![OpType::Mul(1, 1), OpType::Scale(2, 1), OpType::Alias(3), OpType::Input],
        1,
    );
    for small in [remove_aliases(&inst), remove_aliases_and_scales(&inst)] {
        assert!(small.num_cons < inst.num_cons);
        assert_eq!(output(&inst, 5), Scalar::from_u64(25));
        assert_eq!(output(&small, 5), Scalar::from_u64(25));
        let (vars, public) = solve_witness_forward(&small, 1, &[Scalar::from_u64(5)]).unwrap();
        assert!(satisfies(&small, &vars, &public));
        assert!(!satisfies(&small, &vars, &io(4, 5)));
    }
}

#[test]
fn a_second_alias_of_a_variable_stays() {
    // z0 = z1, z0 = z2, y = z0 + z1 over [z0, z1, z2 | 1 | y].
    let inst = SpartanInstance {
        num_cons: 3,
        num_vars: 3,
        num_inputs: 1,
        num_outputs: 1,
        A: matrix(&[(0, 0, 1), (1, 0, 1), (2, 0, 1), (2, 1, 1)]),
        B: matrix(&[(0, 3, 1), (1, 3, 1), (2, 3, 1)]),
        C: matrix(&[(0, 1, 1), (1, 2, 1), (2, 4, 1)]),
    };
    let small = remove_aliases(&inst);
    assert_eq!((small.num_cons, small.num_vars), (2, 2));
    assert_eq!(small.A, matrix(&[(0, 0, 1), (1, 0, 2)]));
    assert_eq!(small.B, matrix(&[(0, 2, 1), (1, 2, 1)]));
    assert_eq!(small.C, matrix(&[(0, 1, 1), (1, 3, 1)]));
}

#[test]
fn a_second_scale_of_a_variable_stays() {
    // z0 = 3 * x, z0 = 5 * y over [z0 | 1 | y | x].
    let inst = SpartanInstance {
        num_cons: 2,
        num_vars: 1,
        num_inputs: 2,
        num_outputs: 1,
        A: matrix(&[(0, 3, 3), (1, 2, 5)]),
        B: matrix(&[(0, 1, 1), (1, 1, 1)]),
        C: matrix(&[(0, 0, 1), (1, 0, 1)]),
    };
    let small = remove_scales(&inst);
    assert_eq!((small.num_cons, small.num_vars), (1, 0));
    assert_eq!(small.A, matrix(&[(0, 1, 5)]));
    assert_eq!(small.C, matrix(&[(0, 2, 3)]));
    assert!(satisfies(&small, &[], &io(3, 5)));
    assert!(!satisfies(&small, &[], &io(3, 4)));
}

#[test]
fn aliases_go_before_scales() {
    // z0 = x * x, z1 = z0, z2 = 4 * z1, y = z2 * x over [z0, z1, z2 | 1 | y | x].
    let inst = SpartanInstance {
        num_cons: 4,
        num_vars: 3,
        num_inputs: 2,
        num_outputs: 1,
        A: matrix(&[(0, 5, 1), (1, 1, 1), (2, 1, 4), (3, 2, 1)]),
        B: matrix(&[(0, 5, 1), (1, 3, 1), (2, 3, 1), (3, 5, 1)]),
        C: matrix(&[(0, 0, 1), (1, 0, 1), (2, 2, 1), (3, 4, 1)]),
    };
    let small = remove_aliases_and_scales(&inst);
    assert_eq!((small.num_cons, small.num_vars), (2, 1));
    assert_eq!(small.A, matrix(&[(0, 3, 1), (1, 0, 4)]));
    assert_eq!(output(&small, 2), Scalar::from_u64(32));
}

#[test]
fn an_alias_that_closes_a_circle_says_nothing_new() {
    // z0 = z1 beside z1 = z0.
    let mut inst = with_middle((1, 1), (0, 1));
    inst.A[0] = (0, 0, bytes(1));
    inst.B[0] = (0, 2, bytes(1));
    inst.C[0] = (0, 1, bytes(1));
    assert!(check_eliminable(&inst));
    let small = remove_aliases(&inst);
    assert_eq!((small.num_cons, small.num_vars), (1, 1));
    assert_eq!(small.A, matrix(&[(0, 0, 1)]));
    assert_eq!(small.B, matrix(&[(0, 3, 1)]));
    assert_eq!(small.C, matrix(&[(0, 2, 1)]));
    // z1 = z1: nothing is substituted, so the result is a copy.
    let own = with_middle((1, 1), (1, 1));
    assert!(check_eliminable(&own));
    assert_eq!(remove_aliases(&own).num_cons, 3);
}

#[test]
fn a_scale_that_closes_a_circle_with_another_factor_stays() {
    // z1 = 2 * z0 beside z0 = 3 * z1.
    let mut inst = with_middle((0, 2), (1, 1));
    inst.A[0] = (0, 1, bytes(3));
    inst.B[0] = (0, 2, bytes(1));
    inst.C[0] = (0, 0, bytes(1));
    let small = remove_scales(&inst);
    assert_eq!((small.num_cons, small.num_vars), (2, 1));
    assert_eq!(small.A, matrix(&[(0, 0, 6), (1, 0, 1)]));
    assert_eq!(small.C, matrix(&[(0, 0, 1), (1, 2, 1)]));
}

/// Rows that each hold one term per matrix, over `[z0, z1, z2 | 1 | y | x]`.
fn unary_rows(rows: &[((usize, u64), usize)]) -> SpartanInstance {
    let n = rows.len();
    SpartanInstance {
        num_cons: n,
        num_vars: 3,
        num_inputs: 2,
        num_outputs: 1,
        A: (0..n).map(|r| (r, rows[r].0 .0, bytes(rows[r].0 .1))).collect(),
        B: (0..n).map(|r| (r, 3, bytes(1))).collect(),
        C: (0..n).map(|r| (r, rows[r].1, bytes(1))).collect(),
    }
}

#[test]
fn a_repeated_alias_goes_every_time() {
    let small = remove_aliases(&unary_rows(&[((0, 1), 5), ((0, 1), 5)]));
    assert_eq!((small.num_cons, small.num_vars), (0, 0));
    assert!(small.A.is_empty() && small.B.is_empty() && small.C.is_empty());
}

#[test]
fn an_alias_that_later_rows_imply_goes_too() {
    // z0 = z1, z0 = z2, z1 = z2.
    let small = remove_aliases(&unary_rows(&[((0, 1), 1), ((0, 1), 2), ((1, 1), 2)]));
    assert_eq!((small.num_cons, small.num_vars), (0, 0));
}

#[test]
fn a_repeated_scale_goes_only_with_the_same_factor() {
    // 6 * x = z0, by way of z1 = 2 * x as well.
    let rows = [((5, 6), 0), ((5, 2), 1), ((1, 3), 0)];
    assert_eq!(remove_scales(&unary_rows(&rows)).num_cons, 0);
    let rows = [((5, 6), 0), ((5, 2), 1), ((1, 4), 0)];
    let small = remove_scales(&unary_rows(&rows));
    assert_eq!(small.num_cons, 1);
    assert_eq!(small.A, matrix(&[(0, 2, 8)]));
    assert_eq!(small.C, matrix(&[(0, 2, 6)]));
}

#[test]
fn malformed_instances_are_not_eliminable() {
    let mut inst = with_middle((1, 1), (0, 1));
    inst.A[0].1 = 5;
    assert!(!check_eliminable(&inst));
    let mut inst = with_middle((1, 1), (0, 1));
    inst.A[0].2 = [0xff; 32];
    assert!(!check_eliminable(&inst));
    let mut inst = with_middle((1, 1), (0, 1));
    inst.num_inputs = usize::MAX;
    assert!(!check_eliminable(&inst));
}

#[test]
fn every_variable_that_is_left_occurs() {
    let inst = with_middle((1, 1), (0, 1));
    let small = remove_aliases(&inst);
    for v in 0..small.num_vars {
        let occurs = |m: &R1CSMatrix| m.iter().any(|e| e.1 == v);
        assert!(occurs(&small.A) || occurs(&small.B) || occurs(&small.C));
    }
}
