//! Arithmetic circuits as directed acyclic graphs, and how their nodes map to columns.
use crate::field::ell;
use crate::system::{assignment, Lin, Row, System};
use vstd::prelude::*;

verus! {

/// What a node computes from other nodes.
#[derive(Clone, Copy, Debug, PartialEq, Eq)]
pub enum OpType {
    Input,
    Alias(usize),
    Add(usize, usize),
    Mul(usize, usize),
    Scale(usize, u64),
    Pow5(usize),
    Output,
    Undefined,
}

#[derive(Clone, Copy, Debug, PartialEq, Eq)]
pub struct Node {
    pub id: usize,
    pub op: OpType,
}

impl Node {
    pub fn is_input(&self) -> (r: bool)
        ensures
            r == (self.op is Input),
    {
        match self.op {
            OpType::Input => true,
            _ => false,
        }
    }
}

/// A circuit. The outputs are its first nodes, and a node reads nodes of larger index.
#[derive(Debug)]
pub struct DAG {
    pub nodes: Vec<Node>,
    pub num_inputs: usize,
    pub num_outputs: usize,
}

/// The operations of a circuit by node, and the number of its outputs.
pub struct Graph {
    pub ops: Seq<OpType>,
    pub num_outputs: nat,
}

impl View for DAG {
    type V = Graph;

    open spec fn view(&self) -> Graph {
        Graph {
            ops: Seq::new(self.nodes@.len(), |i: int| self.nodes@[i].op),
            num_outputs: self.num_outputs as nat,
        }
    }
}

impl DAG {
    /// Nodes are numbered by their position, and the outputs are among them.
    pub open spec fn wf(&self) -> bool {
        &&& forall|i: int| 0 <= i < self.nodes@.len() ==> (#[trigger] self.nodes@[i]).id == i
        &&& self.num_outputs <= self.nodes@.len()
    }
}

impl Graph {
    pub open spec fn len(self) -> nat {
        self.ops.len()
    }

    /// A node whose value is public input to the circuit.
    pub open spec fn is_free_input(self, i: int) -> bool {
        self.num_outputs <= i && self.ops[i] is Input
    }

    /// How many columns for private variables a node needs: one for its value unless
    /// that is public, and two for the intermediate powers of a fifth power.
    pub open spec fn width(self, i: int) -> nat {
        (if i < self.num_outputs || self.ops[i] is Input {
            0nat
        } else {
            1nat
        }) + (if self.ops[i] is Pow5 {
            2nat
        } else {
            0nat
        })
    }

    /// The number of private columns of the nodes before `n`.
    pub open spec fn offset(self, n: int) -> nat
        decreases n,
    {
        if n <= 0 {
            0
        } else {
            self.offset(n - 1) + self.width(n - 1)
        }
    }

    /// The number of circuit inputs among the nodes before `n`.
    pub open spec fn input_rank(self, n: int) -> nat
        decreases n,
    {
        if n <= 0 {
            0
        } else {
            self.input_rank(n - 1) + (if self.is_free_input(n - 1) {
                1nat
            } else {
                0nat
            })
        }
    }

    pub open spec fn num_private(self) -> nat {
        self.offset(self.len() as int)
    }

    pub open spec fn num_free_inputs(self) -> nat {
        self.input_rank(self.len() as int)
    }

    /// The length of a full assignment.
    pub open spec fn z_len(self) -> nat {
        self.num_private() + 1 + self.num_outputs + self.num_free_inputs()
    }

    /// The column of the constant one.
    pub open spec fn one(self) -> int {
        self.num_private() as int
    }

    /// The column of a node's value.
    pub open spec fn col(self, i: int) -> int {
        if i < self.num_outputs {
            self.num_private() + 1 + i
        } else if self.ops[i] is Input {
            (self.num_private() + 1 + self.num_outputs + self.input_rank(i)) as int
        } else {
            self.offset(i) as int
        }
    }

    /// The column of the square that a fifth power goes through.
    pub open spec fn square_col(self, i: int) -> int {
        if i < self.num_outputs {
            self.offset(i) as int
        } else {
            self.offset(i) as int + 1
        }
    }

    /// The column of the fourth power that a fifth power goes through.
    pub open spec fn fourth_col(self, i: int) -> int {
        self.square_col(i) + 1
    }

    /// The linear form of one column.
    pub open spec fn single(self, c: int) -> Lin {
        seq![(c, 1int)]
    }

    /// The constraints of a node.
    pub open spec fn node_rows(self, i: int) -> Seq<Row> {
        let out = self.single(self.col(i));
        let one = self.single(self.one());
        match self.ops[i] {
            OpType::Alias(s) => seq![Row { a: out, b: one, c: self.single(self.col(s as int)) }],
            OpType::Add(l, r) => seq![
                Row {
                    a: seq![(self.col(l as int), 1int), (self.col(r as int), 1int)],
                    b: one,
                    c: out,
                },
            ],
            OpType::Mul(l, r) => seq![
                Row {
                    a: self.single(self.col(l as int)),
                    b: self.single(self.col(r as int)),
                    c: out,
                },
            ],
            OpType::Scale(s, k) => seq![
                Row {
                    a: if k == 0 {
                        Seq::empty()
                    } else {
                        seq![(self.col(s as int), k as int)]
                    },
                    b: one,
                    c: out,
                },
            ],
            OpType::Pow5(s) => {
                let src = self.single(self.col(s as int));
                let sq = self.single(self.square_col(i));
                let qd = self.single(self.fourth_col(i));
                seq![
                    Row { a: src, b: src, c: sq },
                    Row { a: sq, b: sq, c: qd },
                    Row { a: qd, b: src, c: out },
                ]
            },
            _ => Seq::empty(),
        }
    }

    /// The constraints of the nodes from `n` on, deepest node first.
    pub open spec fn rows_from(self, n: int) -> Seq<Row>
        decreases self.len() - n,
    {
        if n >= self.len() {
            Seq::empty()
        } else {
            self.rows_from(n + 1) + self.node_rows(n)
        }
    }

    /// The constraint system of a circuit.
    pub open spec fn system(self) -> System {
        let rows = self.rows_from(0);
        System {
            num_cons: rows.len(),
            num_vars: self.num_private(),
            num_inputs: self.num_outputs + self.num_free_inputs(),
            num_outputs: self.num_outputs,
            a: flatten(Seq::new(rows.len(), |i: int| rows[i].a)),
            b: flatten(Seq::new(rows.len(), |i: int| rows[i].b)),
            c: flatten(Seq::new(rows.len(), |i: int| rows[i].c)),
        }
    }

    /// The value of a node, given those of the circuit inputs.
    pub open spec fn value(self, inputs: Seq<int>, i: int) -> int
        decreases self.len() - i,
    {
        if self.is_free_input(i) {
            inputs[self.input_rank(i) as int]
        } else if i < 0 || i >= self.len() {
            0
        } else {
            // A circuit input is at hand at once, any other operand lies deeper.
            let at = |s: usize|
                if self.is_free_input(s as int) {
                    inputs[self.input_rank(s as int) as int]
                } else if i < s < self.len() {
                    self.value(inputs, s as int)
                } else {
                    0
                };
            match self.ops[i] {
                OpType::Alias(s) => at(s),
                OpType::Add(l, r) => (at(l) + at(r)) % ell(),
                OpType::Mul(l, r) => (at(l) * at(r)) % ell(),
                OpType::Scale(s, k) => (k * at(s)) % ell(),
                OpType::Pow5(s) => fifth_power(at(s)),
                _ => 0,
            }
        }
    }

    /// The private values that a node contributes to a witness.
    pub open spec fn node_vars(self, inputs: Seq<int>, i: int) -> Seq<int> {
        (if i < self.num_outputs || self.ops[i] is Input {
            Seq::empty()
        } else {
            seq![self.value(inputs, i)]
        }) + (match self.ops[i] {
            OpType::Pow5(s) => {
                let x = self.value(inputs, s as int);
                seq![square(x), square(square(x))]
            },
            _ => Seq::empty(),
        })
    }

    /// The private values of the nodes before `n`, in column order.
    pub open spec fn private_values(self, inputs: Seq<int>, n: int) -> Seq<int>
        decreases n,
    {
        if n <= 0 {
            Seq::empty()
        } else {
            self.private_values(inputs, n - 1) + self.node_vars(inputs, n - 1)
        }
    }

    /// The public values: outputs, then circuit inputs.
    pub open spec fn public_values(self, inputs: Seq<int>) -> Seq<int> {
        Seq::new(self.num_outputs, |k: int| self.value(inputs, k)) + inputs
    }

    /// The full assignment of an evaluation.
    pub open spec fn witness(self, inputs: Seq<int>) -> Seq<int> {
        assignment(
            self.private_values(inputs, self.len() as int),
            self.public_values(inputs),
        )
    }

    /// Whether the operands of a node are nodes of the circuit.
    pub open spec fn operands_exist(self, i: int) -> bool {
        match self.ops[i] {
            OpType::Alias(s) => s < self.len(),
            OpType::Add(l, r) => l < self.len() && r < self.len(),
            OpType::Mul(l, r) => l < self.len() && r < self.len(),
            OpType::Scale(s, _) => s < self.len(),
            OpType::Pow5(s) => s < self.len(),
            _ => true,
        }
    }

    /// Whether every operand is a node of the circuit.
    pub open spec fn closed_under_operands(self) -> bool {
        forall|i: int| 0 <= i < self.len() ==> #[trigger] self.operands_exist(i)
    }

    /// Whether the value of node `s` is at hand when node `i` is evaluated, deepest
    /// node first.
    pub open spec fn ready(self, i: int, s: int) -> bool {
        s < self.len() && (i < s || self.is_free_input(s))
    }

    /// Whether node `i` can be evaluated.
    pub open spec fn node_evaluable(self, i: int) -> bool {
        match self.ops[i] {
            OpType::Input => self.num_outputs <= i,
            OpType::Alias(s) => self.ready(i, s as int),
            OpType::Add(l, r) => self.ready(i, l as int) && self.ready(i, r as int),
            OpType::Mul(l, r) => self.ready(i, l as int) && self.ready(i, r as int),
            OpType::Scale(s, _) => self.ready(i, s as int),
            OpType::Pow5(s) => self.ready(i, s as int),
            _ => false,
        }
    }

    /// Whether every node can be evaluated, deepest node first.
    pub open spec fn evaluable(self) -> bool {
        &&& self.num_outputs <= self.len()
        &&& forall|i: int| 0 <= i < self.len() ==> #[trigger] self.node_evaluable(i)
    }
}

pub open spec fn square(x: int) -> int {
    (x * x) % ell()
}

/// A fifth power, by way of the square and the fourth power.
pub open spec fn fifth_power(x: int) -> int {
    (square(square(x)) * x) % ell()
}

/// The terms of a linear form as the entries of row `r`.
pub open spec fn tag(l: Lin, r: int) -> Seq<(int, int, int)> {
    Seq::new(l.len(), |i: int| (r, l[i].0, l[i].1))
}

/// The matrix with the given rows.
pub open spec fn flatten(rows: Seq<Lin>) -> Seq<(int, int, int)>
    decreases rows.len(),
{
    if rows.len() == 0 {
        Seq::empty()
    } else {
        flatten(rows.drop_last()) + tag(rows.last(), rows.len() - 1)
    }
}

} // verus!
