//! The assignment of columns to the nodes of a circuit.
use crate::dag::{DAG, Graph, OpType};
use vstd::prelude::*;

verus! {

/// Where the values of a circuit stand in a full assignment.
pub struct ColumnAssignment {
    /// The column of each node.
    pub node_to_col: Vec<usize>,
    /// For each fifth power, the columns of the square and of the fourth power, and
    /// the node that is raised.
    pub pow5_intermediates: Vec<Option<(usize, usize, usize)>>,
    pub num_private_vars: usize,
    pub num_public_inputs: usize,
    pub col_const_one: usize,
    pub output_node_order: Vec<usize>,
    pub input_node_order: Vec<usize>,
}

impl ColumnAssignment {
    /// The columns are those of the graph.
    pub open spec fn of_graph(&self, g: Graph) -> bool {
        &&& self.node_to_col@.len() == g.len()
        &&& forall|i: int| 0 <= i < g.len() ==> #[trigger] self.node_to_col@[i] == g.col(i)
        &&& self.pow5_intermediates@.len() == g.len()
        &&& forall|i: int|
            0 <= i < g.len() ==> (match g.ops[i] {
                OpType::Pow5(s) => (#[trigger] self.pow5_intermediates@[i]) matches Some(t) && t.0
                    == g.square_col(i) && t.1 == g.fourth_col(i) && t.2 == s,
                _ => self.pow5_intermediates@[i] is None,
            })
        &&& self.num_private_vars == g.num_private()
        &&& self.num_public_inputs == g.num_outputs + g.num_free_inputs()
        &&& self.col_const_one == g.one()
        &&& self.output_node_order@.len() == g.num_outputs
        &&& forall|i: int| 0 <= i < g.num_outputs ==> #[trigger] self.output_node_order@[i] == i
        &&& self.input_node_order@.len() == g.num_free_inputs()
        &&& forall|i: int|
            0 <= i < g.len() && #[trigger] g.is_free_input(i)
                ==> self.input_node_order@[g.input_rank(i) as int] == i
        &&& forall|k: int|
            0 <= k < self.input_node_order@.len() ==> {
                let i = (#[trigger] self.input_node_order@[k]) as int;
                0 <= i < g.len() && g.is_free_input(i) && g.input_rank(i) == k
            }
    }
}

pub proof fn lemma_offset_monotone(g: Graph, i: int, j: int)
    requires
        0 <= i <= j,
    ensures
        g.offset(i) <= g.offset(j),
        g.input_rank(i) <= g.input_rank(j),
        g.input_rank(j) - g.input_rank(i) <= j - i,
    decreases j,
{
    if i < j {
        lemma_offset_monotone(g, i, j - 1);
    }
}

/// Assigns a column to every node: private variables first, in node order, then the
/// constant, the outputs and the circuit inputs.
pub fn assign_columns(dag: &DAG) -> (r: ColumnAssignment)
    requires
        dag.wf(),
        dag@.z_len() <= usize::MAX,
    ensures
        r.of_graph(dag@),
        r.node_to_col@.len() == dag.nodes@.len(),
        forall|i: int| 0 <= i < dag.nodes@.len() ==> #[trigger] r.node_to_col@[i] == dag@.col(i),
        r.num_private_vars == dag@.num_private(),
        r.col_const_one == dag@.num_private(),
        r.num_public_inputs == dag.num_outputs + dag@.num_free_inputs(),
        r.output_node_order@ == Seq::new(dag.num_outputs as nat, |i: int| i as usize),
        r.input_node_order@.len() == dag@.num_free_inputs(),
        forall|k: int|
            0 <= k < r.input_node_order@.len() ==> {
                let i = (#[trigger] r.input_node_order@[k]) as int;
                &&& dag.num_outputs <= i < dag.nodes@.len()
                &&& dag.nodes@[i].op is Input
                &&& dag@.input_rank(i) == k
            },
{
    let ghost g = dag@;
    let n: usize = dag.nodes.len();
    let mut output_node_order: Vec<usize> = Vec::new();
    let mut o: usize = 0;
    while o < dag.num_outputs
        invariant
            o <= dag.num_outputs,
            output_node_order@.len() == o,
            forall|i: int| 0 <= i < o ==> #[trigger] output_node_order@[i] == i,
        decreases dag.num_outputs - o,
    {
        output_node_order.push(o);
        o += 1;
    }
    let mut input_node_order: Vec<usize> = Vec::new();
    let mut private_cols: Vec<usize> = Vec::new();
    let mut pow5_intermediates: Vec<Option<(usize, usize, usize)>> = Vec::new();
    let mut next_private: usize = 0;
    let mut i: usize = 0;
    while i < n
        invariant
            n == dag.nodes@.len(),
            g == dag@,
            dag.wf(),
            g.z_len() <= usize::MAX,
            i <= n,
            next_private == g.offset(i as int),
            private_cols@.len() == i,
            forall|k: int| 0 <= k < i ==> #[trigger] private_cols@[k] == g.offset(k),
            pow5_intermediates@.len() == i,
            forall|k: int|
                0 <= k < i ==> (match g.ops[k] {
                    OpType::Pow5(s) => (#[trigger] pow5_intermediates@[k]) matches Some(t) && t.0
                        == g.square_col(k) && t.1 == g.fourth_col(k) && t.2 == s,
                    _ => pow5_intermediates@[k] is None,
                }),
            input_node_order@.len() == g.input_rank(i as int),
            forall|k: int|
                0 <= k < i && #[trigger] g.is_free_input(k) ==> g.input_rank(k)
                    < input_node_order@.len() && input_node_order@[g.input_rank(k) as int] == k,
            forall|k: int|
                0 <= k < input_node_order@.len() ==> {
                    let m = (#[trigger] input_node_order@[k]) as int;
                    0 <= m < i && g.is_free_input(m) && g.input_rank(m) == k
                },
        decreases n - i,
    {
        let node = dag.nodes[i];
        proof {
            assert(g.ops[i as int] == node.op);
            lemma_offset_monotone(g, i as int + 1, n as int);
        }
        private_cols.push(next_private);
        let public = i < dag.num_outputs || node.is_input();
        if !public {
            next_private += 1;
        }
        match node.op {
            OpType::Pow5(src) => {
                let sq_col: usize = next_private;
                next_private += 1;
                let qd_col: usize = next_private;
                next_private += 1;
                pow5_intermediates.push(Some((sq_col, qd_col, src)));
            },
            _ => {
                pow5_intermediates.push(None);
            },
        }
        if node.is_input() && i >= dag.num_outputs {
            input_node_order.push(i);
        }
        i += 1;
    }
    let num_private_vars: usize = next_private;
    let num_public_inputs: usize = output_node_order.len() + input_node_order.len();
    let mut node_to_col: Vec<usize> = Vec::new();
    let mut rank: usize = 0;
    let mut j: usize = 0;
    while j < n
        invariant
            n == dag.nodes@.len(),
            g == dag@,
            dag.wf(),
            g.z_len() <= usize::MAX,
            num_private_vars == g.num_private(),
            private_cols@.len() == n,
            forall|k: int| 0 <= k < n ==> #[trigger] private_cols@[k] == g.offset(k),
            j <= n,
            rank == g.input_rank(j as int),
            node_to_col@.len() == j,
            forall|k: int| 0 <= k < j ==> #[trigger] node_to_col@[k] == g.col(k),
        decreases n - j,
    {
        let node = dag.nodes[j];
        proof {
            assert(g.ops[j as int] == node.op);
            lemma_offset_monotone(g, j as int + 1, n as int);
        }
        if j < dag.num_outputs {
            node_to_col.push(num_private_vars + 1 + j);
        } else if node.is_input() {
            node_to_col.push(num_private_vars + 1 + dag.num_outputs + rank);
            rank += 1;
        } else {
            node_to_col.push(private_cols[j]);
        }
        j += 1;
    }
    ColumnAssignment {
        node_to_col,
        pow5_intermediates,
        num_private_vars,
        num_public_inputs,
        col_const_one: num_private_vars,
        output_node_order,
        input_node_order,
    }
}

/// Whether the value of node `s` is at hand when node `i` is evaluated.
fn is_ready(dag: &DAG, i: usize, s: usize) -> (r: bool)
    requires
        i < dag.nodes@.len(),
    ensures
        r == dag@.ready(i as int, s as int),
{
    if s >= dag.nodes.len() {
        false
    } else {
        i < s || (dag.num_outputs <= s && dag.nodes[s].is_input())
    }
}

/// Whether node `i` can be evaluated.
fn is_node_evaluable(dag: &DAG, i: usize) -> (r: bool)
    requires
        i < dag.nodes@.len(),
    ensures
        r == dag@.node_evaluable(i as int),
{
    match dag.nodes[i].op {
        OpType::Input => dag.num_outputs <= i,
        OpType::Alias(s) => is_ready(dag, i, s),
        OpType::Add(a, b) => is_ready(dag, i, a) && is_ready(dag, i, b),
        OpType::Mul(a, b) => is_ready(dag, i, a) && is_ready(dag, i, b),
        OpType::Scale(s, _) => is_ready(dag, i, s),
        OpType::Pow5(s) => is_ready(dag, i, s),
        OpType::Output | OpType::Undefined => false,
    }
}

/// Checks a circuit: its nodes are numbered and can be evaluated, its inputs are counted,
/// and a full assignment has a length.
pub fn check_dag(dag: &DAG) -> (r: bool)
    ensures
        r <==> {
            &&& dag.wf()
            &&& dag@.evaluable()
            &&& dag@.z_len() <= usize::MAX
            &&& dag.num_inputs == dag@.num_free_inputs()
        },
{
    let ghost g = dag@;
    let n: usize = dag.nodes.len();
    if dag.num_outputs > n {
        return false;
    }
    let mut private: usize = 0;
    let mut inputs: usize = 0;
    let mut i: usize = 0;
    while i < n
        invariant
            n == dag.nodes@.len(),
            g == dag@,
            dag.num_outputs <= n,
            i <= n,
            forall|k: int| 0 <= k < i ==> (#[trigger] dag.nodes@[k]).id == k,
            forall|k: int| 0 <= k < i ==> #[trigger] g.node_evaluable(k),
            private == g.offset(i as int),
            inputs == g.input_rank(i as int),
            inputs <= i,
        decreases n - i,
    {
        let node = dag.nodes[i];
        assert(g.ops[i as int] == node.op);
        if node.id != i || !is_node_evaluable(dag, i) {
            return false;
        }
        let mut width: usize = 0;
        if i >= dag.num_outputs && !node.is_input() {
            width = 1;
        }
        if let OpType::Pow5(_) = node.op {
            width += 2;
        }
        proof {
            lemma_offset_monotone(g, i + 1, n as int);
        }
        match private.checked_add(width) {
            Some(sum) => {
                private = sum;
            },
            None => {
                return false;
            },
        }
        if i >= dag.num_outputs && node.is_input() {
            inputs += 1;
        }
        i += 1;
    }
    if inputs != dag.num_inputs {
        return false;
    }
    match private.checked_add(1) {
        Some(a) => match a.checked_add(dag.num_outputs) {
            Some(b) => b.checked_add(inputs).is_some(),
            None => false,
        },
        None => false,
    }
}

} // verus!
