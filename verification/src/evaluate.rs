//! Witnesses by evaluating a circuit.
use crate::columns::{assign_columns, lemma_offset_monotone};
use crate::dag::{DAG, OpType};
use crate::scalar::{lemma_scalar_range, values, Scalar};
use vstd::prelude::*;

verus! {

broadcast use lemma_scalar_range;

/// Evaluates every node, deepest first.
fn node_values(dag: &DAG, input_order: &Vec<usize>, input_values: &[Scalar]) -> (r: Vec<Scalar>)
    requires
        dag.wf(),
        dag@.evaluable(),
        input_values@.len() == dag@.num_free_inputs(),
        input_order@.len() == dag@.num_free_inputs(),
        forall|k: int|
            0 <= k < input_order@.len() ==> {
                let i = (#[trigger] input_order@[k]) as int;
                0 <= i < dag@.len() && dag@.is_free_input(i) && dag@.input_rank(i) == k
            },
        forall|i: int|
            0 <= i < dag@.len() && #[trigger] dag@.is_free_input(i)
                ==> input_order@[dag@.input_rank(i) as int] == i,
    ensures
        r@.len() == dag@.len(),
        forall|i: int|
            0 <= i < dag@.len() ==> (#[trigger] r@[i])@ == dag@.value(values(input_values@), i),
{
    let ghost g = dag@;
    let ghost ins = values(input_values@);
    let n: usize = dag.nodes.len();
    let zero = Scalar::zero();
    let mut vals: Vec<Scalar> = Vec::new();
    let mut k: usize = 0;
    while k < n
        invariant
            k <= n,
            vals@.len() == k,
        decreases n - k,
    {
        vals.push(zero);
        k += 1;
    }
    let m: usize = input_order.len();
    let mut j: usize = 0;
    while j < m
        invariant
            m == input_order@.len(),
            m == input_values@.len(),
            g == dag@,
            ins == values(input_values@),
            j <= m,
            vals@.len() == g.len(),
            forall|k: int|
                0 <= k < input_order@.len() ==> {
                    let i = (#[trigger] input_order@[k]) as int;
                    0 <= i < g.len() && g.is_free_input(i) && g.input_rank(i) == k
                },
            forall|k: int|
                0 <= k < j ==> vals@[(#[trigger] input_order@[k]) as int]@ == ins[k],
        decreases m - j,
    {
        let id: usize = input_order[j];
        vals.set(id, input_values[j]);
        j += 1;
    }
    assert forall|i: int| 0 <= i < g.len() && #[trigger] g.is_free_input(i) implies vals@[i]@
        == g.value(ins, i) by {
        lemma_offset_monotone(g, i + 1, g.len() as int);
        let r = g.input_rank(i) as int;
        assert(input_order@[r] == i);
    }
    let mut i: usize = n;
    while i > 0
        invariant
            n == dag.nodes@.len(),
            i <= n,
            g == dag@,
            dag.wf(),
            g.evaluable(),
            ins == values(input_values@),
            vals@.len() == g.len(),
            forall|k: int|
                0 <= k < g.len() && (#[trigger] g.is_free_input(k)) ==> vals@[k]@ == g.value(ins, k),
            forall|k: int| i <= k < n ==> (#[trigger] vals@[k])@ == g.value(ins, k),
        decreases i,
    {
        i -= 1;
        let node = dag.nodes[i];
        let ghost ii = i as int;
        proof {
            assert(g.ops[ii] == node.op);
            assert(g.node_evaluable(ii));
        }
        match node.op {
            OpType::Add(l, r) => {
                assert(g.is_free_input(l as int) || l > i);
                assert(g.is_free_input(r as int) || r > i);
                let v = vals[l].plus(&vals[r]);
                vals.set(i, v);
            },
            OpType::Mul(l, r) => {
                assert(g.is_free_input(l as int) || l > i);
                assert(g.is_free_input(r as int) || r > i);
                let v = vals[l].times(&vals[r]);
                vals.set(i, v);
            },
            OpType::Alias(src) => {
                assert(g.is_free_input(src as int) || src > i);
                let v = vals[src];
                vals.set(i, v);
            },
            OpType::Scale(src, k) => {
                assert(g.is_free_input(src as int) || src > i);
                let v = Scalar::from_u64(k).times(&vals[src]);
                vals.set(i, v);
            },
            OpType::Pow5(src) => {
                assert(g.is_free_input(src as int) || src > i);
                let x = vals[src];
                let sq = x.times(&x);
                let v = sq.times(&sq).times(&x);
                vals.set(i, v);
            },
            OpType::Input | OpType::Output | OpType::Undefined => {
                assert(g.is_free_input(ii));
            },
        }
    }
    vals
}

/// Computes the full witness of a circuit: the private values and the public values.
pub fn compute_witness(dag: &DAG, input_values: &[Scalar]) -> (r: (Vec<Scalar>, Vec<Scalar>))
    requires
        dag.wf(),
        dag@.evaluable(),
        dag@.z_len() <= usize::MAX,
        input_values@.len() == dag@.num_free_inputs(),
    ensures
        values(r.0@) == dag@.private_values(values(input_values@), dag@.len() as int),
        values(r.1@) == dag@.public_values(values(input_values@)),
{
    let cols = assign_columns(dag);
    let vals = node_values(dag, &cols.input_node_order, input_values);
    let ghost g = dag@;
    let ghost ins = values(input_values@);
    let n: usize = dag.nodes.len();
    let mut vars: Vec<Scalar> = Vec::new();
    let mut i: usize = 0;
    assert(values(vars@) =~= Seq::empty());
    while i < n
        invariant
            n == dag.nodes@.len(),
            i <= n,
            g == dag@,
            dag.wf(),
            g.evaluable(),
            vals@.len() == g.len(),
            forall|k: int| 0 <= k < g.len() ==> (#[trigger] vals@[k])@ == g.value(ins, k),
            values(vars@) == g.private_values(ins, i as int),
        decreases n - i,
    {
        let node = dag.nodes[i];
        let ghost ii = i as int;
        let ghost before = vars@;
        proof {
            assert(g.ops[ii] == node.op);
            assert(g.node_evaluable(ii));
        }
        if i >= dag.num_outputs && !node.is_input() {
            vars.push(vals[i]);
        }
        if let OpType::Pow5(src) = node.op {
            let x = vals[src];
            let sq = x.times(&x);
            let qd = sq.times(&sq);
            vars.push(sq);
            vars.push(qd);
        }
        assert(values(vars@) =~= values(before) + g.node_vars(ins, ii));
        i += 1;
    }
    let mut public_io: Vec<Scalar> = Vec::new();
    let mut o: usize = 0;
    while o < dag.num_outputs
        invariant
            g == dag@,
            dag.wf(),
            o <= dag.num_outputs,
            vals@.len() == g.len(),
            forall|k: int| 0 <= k < g.len() ==> (#[trigger] vals@[k])@ == g.value(ins, k),
            public_io@.len() == o,
            forall|k: int| 0 <= k < o ==> (#[trigger] public_io@[k])@ == g.value(ins, k),
        decreases dag.num_outputs - o,
    {
        public_io.push(vals[o]);
        o += 1;
    }
    let m: usize = input_values.len();
    let mut j: usize = 0;
    let ghost outputs = public_io@;
    while j < m
        invariant
            m == input_values@.len(),
            j <= m,
            public_io@ == outputs + input_values@.take(j as int),
        decreases m - j,
    {
        public_io.push(input_values[j]);
        j += 1;
    }
    assert(input_values@.take(m as int) =~= input_values@);
    assert(values(public_io@) =~= g.public_values(ins));
    (vars, public_io)
}

} // verus!
