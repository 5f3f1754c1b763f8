//! Circuits, their constraint systems and their evaluation.
use zk_optimization::columns::{assign_columns, check_dag};
use zk_optimization::convert::{dag_to_spartan, push_entry};
use zk_optimization::dag::{Node, OpType, DAG};
use zk_optimization::evaluate::compute_witness;
use zk_optimization::forward::solve_witness_forward;
use zk_optimization::r1cs::{satisfies, R1CSMatrix};
use zk_optimization::scalar::Scalar;

fn dag(ops: &[OpType], num_inputs: usize, num_outputs: usize) -> DAG {
    let nodes = ops
        .iter()
        .enumerate()
        .map(|(id, &op)| Node { id, op })
        .collect();
    DAG { nodes, num_inputs, num_outputs }
}

fn matrix(entries: &[(usize, usize, u64)]) -> R1CSMatrix {
    entries
        .iter()
        .map(|&(r, c, v)| (r, c, Scalar::from_u64(v).to_bytes()))
        .collect()
}

fn scalars(xs: &[u64]) -> Vec<Scalar> {
    xs.iter().map(|&x| Scalar::from_u64(x)).collect()
}

/// y = (3 * a + alias of b) with every operation but powers: node 0 is the output.
fn mixed() -> DAG {
    dag(
        &[
            OpType::Add(1, 2),
            OpType::Scale(4, 3),
            OpType::Alias(3),
            OpType::Mul(4, 5),
            OpType::Input,
            OpType::Input,
        ],
        2,
        1,
    )
}

#[test]
fn columns_are_private_first_then_public() {
    let cols = assign_columns(&mixed());
    assert_eq!(cols.node_to_col, vec![4, 0, 1, 2, 5, 6]);
    assert_eq!(cols.num_private_vars, 3);
    assert_eq!(cols.col_const_one, 3);
    assert_eq!(cols.num_public_inputs, 3);
    assert_eq!(cols.output_node_order, vec![0]);
    assert_eq!(cols.input_node_order, vec![4, 5]);
}

#[test]
fn rows_stand_in_evaluation_order() {
    let inst = dag_to_spartan(&mixed());
    assert_eq!((inst.num_cons, inst.num_vars), (4, 3));
    assert_eq!((inst.num_inputs, inst.num_outputs), (3, 1));
    assert_eq!(inst.A, matrix(&[(0, 5, 1), (1, 1, 1), (2, 5, 3), (3, 0, 1), (3, 1, 1)]));
    assert_eq!(inst.B, matrix(&[(0, 6, 1), (1, 3, 1), (2, 3, 1), (3, 3, 1)]));
    assert_eq!(inst.C, matrix(&[(0, 2, 1), (1, 2, 1), (2, 0, 1), (3, 4, 1)]));
}

#[test]
fn a_circuit_is_evaluated() {
    let (vars, io) = compute_witness(&mixed(), &scalars(&[5, 7]));
    assert_eq!(vars, scalars(&[15, 35, 35]));
    assert_eq!(io, scalars(&[50, 5, 7]));
}

#[test]
fn a_fifth_power_takes_three_rows() {
    let d = dag(&[OpType::Pow5(1), OpType::Input], 1, 1);
    let inst = dag_to_spartan(&d);
    assert_eq!((inst.num_cons, inst.num_vars), (3, 2));
    assert_eq!(inst.A, matrix(&[(0, 4, 1), (1, 0, 1), (2, 1, 1)]));
    assert_eq!(inst.B, matrix(&[(0, 4, 1), (1, 0, 1), (2, 4, 1)]));
    assert_eq!(inst.C, matrix(&[(0, 0, 1), (1, 1, 1), (2, 3, 1)]));
    let (vars, io) = compute_witness(&d, &scalars(&[3]));
    assert_eq!(vars, scalars(&[9, 81]));
    assert_eq!(io, scalars(&[243, 3]));
}

#[test]
fn a_private_fifth_power_has_its_value_first() {
    let d = dag(&[OpType::Alias(1), OpType::Pow5(2), OpType::Input], 1, 1);
    let (vars, io) = compute_witness(&d, &scalars(&[2]));
    assert_eq!(vars, scalars(&[32, 4, 16]));
    assert_eq!(io, scalars(&[32, 2]));
}

#[test]
fn a_zero_scale_has_an_empty_row() {
    let d = dag(&[OpType::Scale(1, 0), OpType::Input], 1, 1);
    let inst = dag_to_spartan(&d);
    assert_eq!(inst.A, matrix(&[]));
    assert_eq!(inst.C, matrix(&[(0, 1, 1)]));
    let (_, io) = compute_witness(&d, &scalars(&[9]));
    assert_eq!(io, scalars(&[0, 9]));
}

#[test]
fn zero_entries_are_left_out() {
    let mut m: R1CSMatrix = vec![];
    push_entry(&mut m, 1, 2, &Scalar::zero());
    assert_eq!(m, vec![]);
    push_entry(&mut m, 1, 2, &Scalar::from_u64(4));
    assert_eq!(m, matrix(&[(1, 2, 4)]));
}

#[test]
fn evaluation_and_the_forward_pass_agree() {
    let d = dag(
        &[
            OpType::Mul(2, 3),
            OpType::Add(4, 5),
            OpType::Pow5(4),
            OpType::Scale(5, 11),
            OpType::Mul(6, 7),
            OpType::Alias(7),
            OpType::Input,
            OpType::Input,
        ],
        2,
        2,
    );
    let x = scalars(&[6, 10]);
    let inst = dag_to_spartan(&d);
    let (vars, io) = compute_witness(&d, &x);
    assert!(satisfies(&inst, &vars, &io));
    assert_eq!(solve_witness_forward(&inst, 2, &x).unwrap(), (vars, io.clone()));
    // (60^5) * (11 * 10) and 60 + 10.
    assert_eq!(io[..2], scalars(&[60u64.pow(5) * 110, 70])[..]);
}

#[test]
fn inputs_are_told_from_other_nodes() {
    assert!(Node { id: 0, op: OpType::Input }.is_input());
    assert!(!Node { id: 0, op: OpType::Alias(1) }.is_input());
}

#[test]
fn circuits_are_checked() {
    assert!(check_dag(&mixed()));
    let mut unnumbered = mixed();
    unnumbered.nodes[1].id = 2;
    assert!(!check_dag(&unnumbered));
    let mut miscounted = mixed();
    miscounted.num_inputs = 3;
    assert!(!check_dag(&miscounted));
    let mut backwards = mixed();
    backwards.nodes[3].op = OpType::Alias(1);
    assert!(!check_dag(&backwards));
    let mut missing = mixed();
    missing.nodes[0].op = OpType::Add(1, 6);
    assert!(!check_dag(&missing));
    let mut too_many = mixed();
    too_many.num_outputs = 7;
    assert!(!check_dag(&too_many));
    let mut undefined = mixed();
    undefined.nodes[2].op = OpType::Undefined;
    assert!(!check_dag(&undefined));
}

#[test]
fn a_circuit_has_a_row_for_each_variable_and_output() {
    let inst = dag_to_spartan(&mixed());
    assert_eq!(inst.num_cons, inst.num_vars + inst.num_outputs);
    let mut fewer = inst.clone();
    fewer.num_cons -= 1;
    for m in [&mut fewer.A, &mut fewer.B, &mut fewer.C] {
        m.retain(|e| e.0 != 3);
    }
    assert!(solve_witness_forward(&fewer, 1, &scalars(&[5, 7])).is_err());
}
