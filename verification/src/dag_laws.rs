//! What holds of the constraint system of a circuit.
use crate::columns::lemma_offset_monotone;
use crate::convert::{a_forms, b_forms, c_forms, form_ok, lemma_flatten_valid, lemma_system_row};
use crate::dag::{square, Graph, OpType};
use crate::field::{cong, ell, lemma_cong_reduced, lemma_ell, lemma_mod_range, lemma_unit_one};
use crate::forward::lemma_unknown_below;
use crate::forward_laws::{has_inputs, law_unique_witness, lemma_forward_shape, lemma_sys_row_below};
use crate::system::{
    coeff, complete, entries_valid, eval, eval_except, forward, lemma_coeff_absent, mentions,
    pivot, start, step, target, unknown, Outcome, Partial, Pass, Row, System,
};
use vstd::prelude::*;

verus! {

// Columns.

/// The value of an operand is that of its node.
pub proof fn lemma_col_below(g: Graph, i: int)
    requires
        0 <= i < g.len(),
        g.num_outputs <= g.len(),
    ensures
        0 <= g.col(i) < g.z_len(),
        g.ops[i] is Pow5 ==> 0 <= g.square_col(i) && g.fourth_col(i) < g.num_private(),
{
    lemma_offset_monotone(g, i + 1, g.len() as int);
}

pub proof fn lemma_private_len(g: Graph, inputs: Seq<int>, n: int)
    requires
        0 <= n <= g.len(),
    ensures
        g.private_values(inputs, n).len() == g.offset(n),
    decreases n,
{
    if n > 0 {
        lemma_private_len(g, inputs, n - 1);
    }
}

proof fn lemma_private_at(g: Graph, inputs: Seq<int>, n: int, i: int, d: int)
    requires
        0 <= i < n <= g.len(),
        0 <= d < g.width(i),
    ensures
        g.offset(i) + d < g.offset(n),
        g.private_values(inputs, n)[g.offset(i) + d] == g.node_vars(inputs, i)[d],
    decreases n,
{
    lemma_private_len(g, inputs, n - 1);
    if i < n - 1 {
        lemma_private_at(g, inputs, n - 1, i, d);
    }
}

/// Where the values of a node stand in a witness.
pub proof fn lemma_witness_at(g: Graph, inputs: Seq<int>, i: int)
    requires
        g.num_outputs <= g.len(),
        inputs.len() == g.num_free_inputs(),
        0 <= i < g.len(),
        g.ops[i] is Input ==> g.num_outputs <= i,
    ensures
        g.witness(inputs).len() == g.z_len(),
        g.witness(inputs)[g.one()] == 1,
        g.witness(inputs)[g.col(i)] == g.value(inputs, i),
        g.ops[i] matches OpType::Pow5(s) ==> {
            let x = g.value(inputs, s as int);
            &&& g.witness(inputs)[g.square_col(i)] == square(x)
            &&& g.witness(inputs)[g.fourth_col(i)] == square(square(x))
        },
{
    let n = g.len() as int;
    lemma_private_len(g, inputs, n);
    lemma_offset_monotone(g, i + 1, n);
    if i >= g.num_outputs && !(g.ops[i] is Input) {
        lemma_private_at(g, inputs, n, i, 0);
    }
    if g.ops[i] is Pow5 {
        let k: int = if i < g.num_outputs {
            0
        } else {
            1
        };
        lemma_private_at(g, inputs, n, i, k);
        lemma_private_at(g, inputs, n, i, k + 1);
    }
}

// The witness satisfies the constraints.

pub proof fn lemma_eval_single(g: Graph, c: int, z: Seq<int>)
    ensures
        eval(g.single(c), z) == z[c],
{
    assert(g.single(c).drop_last() =~= Seq::empty());
    assert(eval(g.single(c).drop_last(), z) == 0);
}

proof fn lemma_node_rows_hold(g: Graph, inputs: Seq<int>, i: int)
    requires
        g.evaluable(),
        inputs.len() == g.num_free_inputs(),
        0 <= i < g.len(),
    ensures
        forall|r: int|
            0 <= r < g.node_rows(i).len() ==> (#[trigger] g.node_rows(i)[r]).holds(
                g.witness(inputs),
            ),
{
    let z = g.witness(inputs);
    assert(g.node_evaluable(i));
    lemma_witness_at(g, inputs, i);
    lemma_eval_single(g, g.one(), z);
    lemma_eval_single(g, g.col(i), z);
    match g.ops[i] {
        OpType::Alias(s) => {
            assert(g.node_evaluable(s as int));
            lemma_witness_at(g, inputs, s as int);
            lemma_eval_single(g, g.col(s as int), z);
            assert(z[g.col(i)] * 1 == z[g.col(i)]);
        },
        OpType::Add(l, r) => {
            assert(g.node_evaluable(l as int) && g.node_evaluable(r as int));
            lemma_witness_at(g, inputs, l as int);
            lemma_witness_at(g, inputs, r as int);
            let a = g.node_rows(i)[0].a;
            assert(a.drop_last() =~= g.single(g.col(l as int)));
            lemma_eval_single(g, g.col(l as int), z);
            let sum = g.value(inputs, l as int) + g.value(inputs, r as int);
            assert(a.last() == (g.col(r as int), 1int));
            assert(eval(a, z) == eval(a.drop_last(), z) + 1 * z[g.col(r as int)]);
            assert(eval(a, z) == sum);
            lemma_mod_range(sum);
            assert(eval(a, z) * 1 == sum);
        },
        OpType::Mul(l, r) => {
            assert(g.node_evaluable(l as int) && g.node_evaluable(r as int));
            lemma_witness_at(g, inputs, l as int);
            lemma_witness_at(g, inputs, r as int);
            lemma_eval_single(g, g.col(l as int), z);
            lemma_eval_single(g, g.col(r as int), z);
            lemma_mod_range(g.value(inputs, l as int) * g.value(inputs, r as int));
        },
        OpType::Scale(s, k) => {
            assert(g.node_evaluable(s as int));
            lemma_witness_at(g, inputs, s as int);
            let a = g.node_rows(i)[0].a;
            let x = g.value(inputs, s as int);
            lemma_mod_range(k * x);
            if k == 0 {
                assert(eval(a, z) == 0);
                assert(k * x == 0) by (nonlinear_arith)
                    requires
                        k == 0,
                ;
            } else {
                assert(a.drop_last() =~= Seq::empty());
                assert(eval(a.drop_last(), z) == 0);
                assert(eval(a, z) == k * x);
            }
            assert(eval(a, z) * 1 == k * x);
        },
        OpType::Pow5(s) => {
            assert(g.node_evaluable(s as int));
            lemma_witness_at(g, inputs, s as int);
            lemma_eval_single(g, g.col(s as int), z);
            lemma_eval_single(g, g.square_col(i), z);
            lemma_eval_single(g, g.fourth_col(i), z);
            let x = g.value(inputs, s as int);
            lemma_mod_range(x * x);
            lemma_mod_range(square(x) * square(x));
            lemma_mod_range(square(square(x)) * x);
            let rows = g.node_rows(i);
            assert(rows[0].holds(z));
            assert(rows[1].holds(z));
            assert(rows[2].holds(z));
        },
        _ => {},
    }
}

proof fn lemma_rows_hold(g: Graph, inputs: Seq<int>, n: int)
    requires
        g.evaluable(),
        inputs.len() == g.num_free_inputs(),
        0 <= n <= g.len(),
    ensures
        forall|r: int|
            0 <= r < g.rows_from(n).len() ==> (#[trigger] g.rows_from(n)[r]).holds(
                g.witness(inputs),
            ),
    decreases g.len() - n,
{
    if n < g.len() {
        lemma_rows_hold(g, inputs, n + 1);
        lemma_node_rows_hold(g, inputs, n);
        let k = g.rows_from(n + 1).len();
        assert forall|r: int| 0 <= r < g.rows_from(n).len() implies (#[trigger] g.rows_from(
            n,
        )[r]).holds(g.witness(inputs)) by {
            if r < k {
                assert(g.rows_from(n)[r] == g.rows_from(n + 1)[r]);
            } else {
                assert(g.rows_from(n)[r] == g.node_rows(n)[r - k]);
            }
        }
    }
}

/// Evaluating a circuit gives an assignment that satisfies its constraint system.
pub proof fn law_witness_satisfies(g: Graph, inputs: Seq<int>)
    requires
        g.evaluable(),
        inputs.len() == g.num_free_inputs(),
    ensures
        g.system().satisfied(g.witness(inputs)),
{
    let z = g.witness(inputs);
    lemma_private_len(g, inputs, g.len() as int);
    lemma_rows_hold(g, inputs, 0);
    assert forall|r: int| 0 <= r < g.system().num_cons implies (#[trigger] g.system().row(r)).holds(
        z,
    ) by {
        lemma_system_row(g, r);
    }
}

// The system passes the structural checks.

proof fn lemma_node_rows_ok(g: Graph, i: int)
    requires
        g.num_outputs <= g.len(),
        0 <= i < g.len(),
        g.operands_exist(i),
    ensures
        forall|r: int|
            0 <= r < g.node_rows(i).len() ==> {
                &&& form_ok((#[trigger] g.node_rows(i)[r]).a, g.z_len())
                &&& form_ok(g.node_rows(i)[r].b, g.z_len())
                &&& form_ok(g.node_rows(i)[r].c, g.z_len())
            },
{
    lemma_ell();
    lemma_col_below(g, i);
    match g.ops[i] {
        OpType::Alias(s) => {
            lemma_col_below(g, s as int);
        },
        OpType::Add(l, r) => {
            lemma_col_below(g, l as int);
            lemma_col_below(g, r as int);
        },
        OpType::Mul(l, r) => {
            lemma_col_below(g, l as int);
            lemma_col_below(g, r as int);
        },
        OpType::Scale(s, _) => {
            lemma_col_below(g, s as int);
        },
        OpType::Pow5(s) => {
            lemma_col_below(g, s as int);
        },
        _ => {},
    }
}

proof fn lemma_rows_ok(g: Graph, n: int)
    requires
        g.num_outputs <= g.len(),
        g.closed_under_operands(),
        0 <= n <= g.len(),
    ensures
        forall|r: int|
            0 <= r < g.rows_from(n).len() ==> {
                &&& form_ok((#[trigger] g.rows_from(n)[r]).a, g.z_len())
                &&& form_ok(g.rows_from(n)[r].b, g.z_len())
                &&& form_ok(g.rows_from(n)[r].c, g.z_len())
            },
    decreases g.len() - n,
{
    if n < g.len() {
        lemma_rows_ok(g, n + 1);
        assert(g.operands_exist(n));
        lemma_node_rows_ok(g, n);
        let k = g.rows_from(n + 1).len();
        assert forall|r: int| 0 <= r < g.rows_from(n).len() implies {
            &&& form_ok((#[trigger] g.rows_from(n)[r]).a, g.z_len())
            &&& form_ok(g.rows_from(n)[r].b, g.z_len())
            &&& form_ok(g.rows_from(n)[r].c, g.z_len())
        } by {
            if r < k {
                assert(g.rows_from(n)[r] == g.rows_from(n + 1)[r]);
            } else {
                assert(g.rows_from(n)[r] == g.node_rows(n)[r - k]);
            }
        }
    }
}

/// The entries of a circuit's system lie in range and are canonical.
pub proof fn lemma_system_entries(g: Graph)
    requires
        g.num_outputs <= g.len(),
        g.closed_under_operands(),
    ensures
        g.system().entries_valid(),
{
    let rows = g.rows_from(0);
    lemma_rows_ok(g, 0);
    lemma_flatten_valid(a_forms(rows), rows.len(), g.z_len());
    lemma_flatten_valid(b_forms(rows), rows.len(), g.z_len());
    lemma_flatten_valid(c_forms(rows), rows.len(), g.z_len());
}

pub proof fn lemma_evaluable_closed(g: Graph)
    requires
        g.evaluable(),
    ensures
        g.closed_under_operands(),
{
    assert forall|i: int| 0 <= i < g.len() implies #[trigger] g.operands_exist(i) by {
        assert(g.node_evaluable(i));
    }
}

proof fn lemma_rows_count(g: Graph, n: int)
    requires
        g.evaluable(),
        0 <= n <= g.len(),
    ensures
        g.rows_from(n).len() == g.num_private() - g.offset(n) + (if n < g.num_outputs {
            g.num_outputs - n
        } else {
            0
        }),
    decreases g.len() - n,
{
    if n < g.len() {
        assert(g.node_evaluable(n));
        lemma_rows_count(g, n + 1);
    }
}

/// An evaluable circuit has one constraint for each private variable and each output, so
/// none can be deleted.
pub proof fn law_circuit_rows(g: Graph)
    requires
        g.evaluable(),
    ensures
        g.system().num_cons == g.num_private() + g.num_outputs,
{
    lemma_rows_count(g, 0);
}

/// The constraint system of an evaluable circuit passes the structural checks.
pub proof fn law_circuit_valid(g: Graph)
    requires
        g.evaluable(),
        g.z_len() <= usize::MAX,
    ensures
        g.system().valid(),
{
    lemma_evaluable_closed(g);
    lemma_system_entries(g);
    law_circuit_rows(g);
}

// The forward pass evaluates the circuit.

proof fn lemma_single(g: Graph, c: int, j: int, z: Seq<int>)
    ensures
        mentions(g.single(c), j) <==> c == j,
        coeff(g.single(c), j) == if c == j {
            1int
        } else {
            0
        },
        eval_except(g.single(c), j, z) == if c == j {
            0
        } else {
            z[c]
        },
{
    let l = g.single(c);
    assert(l.drop_last() =~= Seq::empty());
    assert(coeff(l.drop_last(), j) == 0);
    assert(eval_except(l.drop_last(), j, z) == 0);
    if c == j {
        assert(l[0].0 == j);
    }
}

/// A row whose factors are known determines its only output column.
proof fn lemma_step_out(g: Graph, row: Row, p: Partial, j: int)
    requires
        row.c == g.single(j),
        0 <= j < p.known.len(),
        forall|c: int| #[trigger] mentions(row.a, c) ==> p.known[c],
        forall|c: int| #[trigger] mentions(row.b, c) ==> p.known[c],
    ensures
        step(row, p) matches Outcome::Next(q) && q.known == p.known.update(j, true),
{
    assert forall|c: int| unknown(row, p.known, c) implies c == j by {
        lemma_single(g, j, c, p.z);
    }
    lemma_single(g, j, j, p.z);
    if p.known[j] {
        assert(!exists|c: int| unknown(row, p.known, c));
        assert(p.known.update(j, true) =~= p.known);
    } else {
        assert(unknown(row, p.known, j));
        assert(j == choose|c: int| unknown(row, p.known, c));
        assert(!mentions(row.a, j));
        assert(!mentions(row.b, j));
        lemma_coeff_absent(row.a, j);
        lemma_coeff_absent(row.b, j);
        let d = pivot(row, j, p.z);
        assert(d == -1) by {
            assert(0 * eval_except(row.b, j, p.z) == 0);
            assert(0 * eval_except(row.a, j, p.z) == 0);
        }
        lemma_unit_one();
    }
}

/// The row of an alias determines the node.
proof fn lemma_step_alias(g: Graph, j: int, s: int, p: Partial)
    requires
        0 <= j < p.known.len(),
        p.known[s],
        p.known[g.one()],
        p.z[g.one()] == 1,
    ensures
        ({
            let row = Row { a: g.single(j), b: g.single(g.one()), c: g.single(s) };
            step(row, p) matches Outcome::Next(q) && q.known == p.known.update(j, true)
        }),
{
    let row = Row { a: g.single(j), b: g.single(g.one()), c: g.single(s) };
    assert forall|c: int| unknown(row, p.known, c) implies c == j by {
        lemma_single(g, j, c, p.z);
        lemma_single(g, g.one(), c, p.z);
        lemma_single(g, s, c, p.z);
    }
    lemma_single(g, j, j, p.z);
    lemma_single(g, g.one(), j, p.z);
    lemma_single(g, s, j, p.z);
    if p.known[j] {
        assert(!exists|c: int| unknown(row, p.known, c));
        assert(p.known.update(j, true) =~= p.known);
    } else {
        assert(unknown(row, p.known, j));
        assert(j == choose|c: int| unknown(row, p.known, c));
        let d = pivot(row, j, p.z);
        assert(d == 1);
        lemma_unit_one();
    }
}

/// Everything that the nodes from `n` on depend on or compute is known.
spec fn knows_from(g: Graph, p: Partial, n: int) -> bool {
    &&& p.known.len() == g.z_len()
    &&& p.known[g.one()]
    &&& p.z[g.one()] == 1
    &&& forall|i: int|
        0 <= i < g.len() && (n <= i || g.is_free_input(i)) ==> p.known[#[trigger] g.col(i)]
    &&& forall|i: int|
        n <= i < g.len() && g.ops[i] is Pow5 ==> p.known[#[trigger] g.square_col(i)]
            && p.known[g.fourth_col(i)]
}

proof fn lemma_knows_update(g: Graph, p: Partial, q: Partial, n: int, j: int)
    requires
        g.num_outputs <= g.len(),
        0 <= n,
        knows_from(g, p, n),
        0 <= j < p.known.len(),
        q.known == p.known.update(j, true),
        q.z[g.one()] == 1,
    ensures
        knows_from(g, q, n),
{
    assert forall|i: int| 0 <= i < g.len() && (n <= i || g.is_free_input(
        i,
    )) implies q.known[#[trigger] g.col(i)] by {
        lemma_col_below(g, i);
    }
    assert forall|i: int| n <= i < g.len() && g.ops[i] is Pow5 implies q.known[#[trigger] g.square_col(
        i,
    )] && q.known[g.fourth_col(i)] by {
        lemma_col_below(g, i);
    }
}

pub proof fn lemma_rows_prefix(g: Graph, n: int, m: int)
    requires
        0 <= n <= m <= g.len(),
    ensures
        g.rows_from(m).len() <= g.rows_from(n).len(),
        forall|r: int|
            0 <= r < g.rows_from(m).len() ==> #[trigger] g.rows_from(m)[r] == g.rows_from(n)[r],
    decreases m - n,
{
    if n < m {
        lemma_rows_prefix(g, n + 1, m);
        assert forall|r: int| 0 <= r < g.rows_from(m).len() implies #[trigger] g.rows_from(m)[r]
            == g.rows_from(n)[r] by {
            assert(g.rows_from(m)[r] == g.rows_from(n + 1)[r]);
            assert(g.rows_from(n)[r] == g.rows_from(n + 1)[r]);
        }
    }
}

/// The row of the whole system that is row `r` of node `n`.
pub proof fn lemma_row_at(g: Graph, n: int, r: int)
    requires
        0 <= n < g.len(),
        0 <= r < g.node_rows(n).len(),
    ensures
        g.rows_from(n + 1).len() + r < g.system().num_cons,
        g.system().row(g.rows_from(n + 1).len() + r) == g.node_rows(n)[r],
{
    let k = g.rows_from(n + 1).len() + r;
    lemma_rows_prefix(g, 0, n);
    assert(g.rows_from(n)[k] == g.node_rows(n)[r]);
    assert(g.rows_from(n)[k] == g.rows_from(0)[k]);
    lemma_system_row(g, k);
}

/// The pass over the rows of the nodes from `n` on succeeds.
proof fn lemma_forward_from(g: Graph, inputs: Seq<int>, n: int) -> (p: Partial)
    requires
        g.evaluable(),
        g.z_len() <= usize::MAX,
        inputs.len() == g.num_free_inputs(),
        0 <= n <= g.len(),
    ensures
        forward(g.system(), g.num_outputs, inputs, g.rows_from(n).len()) == Pass::Running(p),
        knows_from(g, p, n),
    decreases g.len() - n,
{
    let sys = g.system();
    let no = g.num_outputs;
    law_circuit_valid(g);
    if n == g.len() {
        let p = start(sys, no, inputs);
        assert forall|i: int| 0 <= i < g.len() && (n <= i || g.is_free_input(
            i,
        )) implies p.known[#[trigger] g.col(i)] by {
            lemma_col_below(g, i);
            lemma_offset_monotone(g, i + 1, g.len() as int);
        }
        p
    } else {
        let p = lemma_forward_from(g, inputs, n + 1);
        let k = g.rows_from(n + 1).len();
        let rows = g.node_rows(n);
        assert(g.node_evaluable(n));
        lemma_col_below(g, n);
        assert(g.rows_from(n).len() == k + rows.len());
        match g.ops[n] {
            OpType::Input => {
                assert(g.is_free_input(n));
                p
            },
            OpType::Alias(s) => {
                assert(g.is_free_input(s as int) || n + 1 <= s);
                assert(p.known[g.col(s as int)]);
                lemma_row_at(g, n, 0);
                lemma_step_alias(g, g.col(n), g.col(s as int), p);
                let q = step(rows[0], p)->Next_0;
                assert(forward(sys, no, inputs, (k + 1) as nat) == Pass::Running(q));
                lemma_forward_shape(sys, no, inputs, (k + 1) as nat, q);
                assert(start(sys, no, inputs).known[g.one()]);
                assert(q.known[g.one()]);
                lemma_knows_update(g, p, q, n + 1, g.col(n));
                q
            },
            OpType::Pow5(s) => {
                assert(g.is_free_input(s as int) || n + 1 <= s);
                assert(p.known[g.col(s as int)]);
                let sq = g.square_col(n);
                let qd = g.fourth_col(n);
                assert(start(sys, no, inputs).known[g.one()]);
                lemma_row_at(g, n, 0);
                lemma_row_at(g, n, 1);
                lemma_row_at(g, n, 2);
                assert forall|c: int| #[trigger] mentions(rows[0].a, c) implies p.known[c] by {
                    lemma_single(g, g.col(s as int), c, p.z);
                }
                lemma_step_out(g, rows[0], p, sq);
                let q0 = step(rows[0], p)->Next_0;
                assert(forward(sys, no, inputs, (k + 1) as nat) == Pass::Running(q0));
                lemma_forward_shape(sys, no, inputs, (k + 1) as nat, q0);
                assert(q0.known[g.one()]);
                lemma_knows_update(g, p, q0, n + 1, sq);
                assert(q0.known[sq]);
                assert forall|c: int| #[trigger] mentions(rows[1].a, c) implies q0.known[c] by {
                    lemma_single(g, sq, c, q0.z);
                }
                lemma_step_out(g, rows[1], q0, qd);
                let q1 = step(rows[1], q0)->Next_0;
                assert(forward(sys, no, inputs, (k + 2) as nat) == Pass::Running(q1));
                lemma_forward_shape(sys, no, inputs, (k + 2) as nat, q1);
                assert(q1.known[g.one()]);
                lemma_knows_update(g, q0, q1, n + 1, qd);
                assert(q1.known[qd] && q1.known[sq]);
                assert(q1.known[g.col(s as int)]);
                assert forall|c: int| #[trigger] mentions(rows[2].a, c) implies q1.known[c] by {
                    lemma_single(g, qd, c, q1.z);
                }
                assert forall|c: int| #[trigger] mentions(rows[2].b, c) implies q1.known[c] by {
                    lemma_single(g, g.col(s as int), c, q1.z);
                }
                lemma_step_out(g, rows[2], q1, g.col(n));
                let q2 = step(rows[2], q1)->Next_0;
                assert(forward(sys, no, inputs, (k + 3) as nat) == Pass::Running(q2));
                lemma_forward_shape(sys, no, inputs, (k + 3) as nat, q2);
                assert(q2.known[g.one()]);
                lemma_knows_update(g, q1, q2, n + 1, g.col(n));
                q2
            },
            _ => {
                let row = rows[0];
                assert(start(sys, no, inputs).known[g.one()]);
                lemma_row_at(g, n, 0);
                assert forall|c: int| #[trigger] mentions(row.a, c) implies p.known[c] by {
                    let i = choose|i: int| 0 <= i < row.a.len() && (#[trigger] row.a[i]).0 == c;
                    match g.ops[n] {
                        OpType::Add(l, r) => {
                            assert(g.is_free_input(l as int) || n + 1 <= l);
                            assert(g.is_free_input(r as int) || n + 1 <= r);
                            assert(p.known[g.col(l as int)] && p.known[g.col(r as int)]);
                        },
                        OpType::Mul(l, r) => {
                            assert(g.is_free_input(l as int) || n + 1 <= l);
                            assert(p.known[g.col(l as int)]);
                        },
                        OpType::Scale(s, _) => {
                            assert(g.is_free_input(s as int) || n + 1 <= s);
                            assert(p.known[g.col(s as int)]);
                        },
                        _ => {},
                    }
                }
                assert forall|c: int| #[trigger] mentions(row.b, c) implies p.known[c] by {
                    let i = choose|i: int| 0 <= i < row.b.len() && (#[trigger] row.b[i]).0 == c;
                    match g.ops[n] {
                        OpType::Mul(l, r) => {
                            assert(g.is_free_input(r as int) || n + 1 <= r);
                            assert(p.known[g.col(r as int)]);
                        },
                        _ => {},
                    }
                }
                lemma_step_out(g, row, p, g.col(n));
                let q = step(row, p)->Next_0;
                assert(forward(sys, no, inputs, (k + 1) as nat) == Pass::Running(q));
                lemma_forward_shape(sys, no, inputs, (k + 1) as nat, q);
                assert(q.known[g.one()]);
                lemma_knows_update(g, p, q, n + 1, g.col(n));
                q
            },
        }
    }
}

/// Every private column belongs to a node.
pub proof fn lemma_column_owner(g: Graph, c: int, n: int) -> (i: int)
    requires
        0 <= c < g.offset(n),
        0 <= n <= g.len(),
    ensures
        0 <= i < n,
        g.offset(i) <= c < g.offset(i) + g.width(i),
    decreases n,
{
    if c < g.offset(n - 1) {
        lemma_column_owner(g, c, n - 1)
    } else {
        n - 1
    }
}

/// The forward pass over the constraints of an evaluable circuit determines everything,
/// whatever the inputs are.
pub proof fn law_forward_completes(g: Graph, inputs: Seq<int>) -> (p: Partial)
    requires
        g.evaluable(),
        g.z_len() <= usize::MAX,
        inputs.len() == g.num_free_inputs(),
    ensures
        forward(g.system(), g.num_outputs, inputs, g.system().num_cons) == Pass::Running(p),
        complete(p.known, g.num_private(), g.num_outputs),
{
    let p = lemma_forward_from(g, inputs, 0);
    assert forall|c: int| 0 <= c < g.num_private() implies p.known[c] by {
        let i = lemma_column_owner(g, c, g.len() as int);
        assert(p.known[g.col(i)]);
        if g.ops[i] is Pow5 {
            assert(p.known[g.square_col(i)] && p.known[g.fourth_col(i)]);
        }
    }
    assert forall|c: int| g.num_private() < c <= g.num_private() + g.num_outputs implies p.known[c] by {
        let i = c - g.num_private() - 1;
        assert(p.known[g.col(i)]);
    }
    p
}

/// Whether all values are reduced.
pub open spec fn reduced(z: Seq<int>) -> bool {
    forall|i: int| 0 <= i < z.len() ==> 0 <= #[trigger] z[i] < ell()
}

/// The pass keeps values reduced.
pub proof fn lemma_forward_reduced(
    sys: System,
    num_outputs: nat,
    inputs: Seq<int>,
    n: nat,
    p: Partial,
)
    requires
        sys.entries_valid(),
        num_outputs + inputs.len() == sys.num_inputs,
        n <= sys.num_cons,
        reduced(inputs),
        forward(sys, num_outputs, inputs, n) == Pass::Running(p),
    ensures
        reduced(p.z),
    decreases n,
{
    lemma_ell();
    if n > 0 {
        match forward(sys, num_outputs, inputs, (n - 1) as nat) {
            Pass::Running(q) => {
                lemma_forward_reduced(sys, num_outputs, inputs, (n - 1) as nat, q);
                let row = sys.row(n - 1);
                let j = choose|c: int| unknown(row, q.known, c);
                lemma_forward_shape(sys, num_outputs, inputs, (n - 1) as nat, q);
                lemma_sys_row_below(sys, n - 1);
                if exists|c: int| unknown(row, q.known, c) {
                    lemma_unknown_below(row, q.known, sys.z_len() as int, j);
                }
                lemma_mod_range(
                    target(row, j, q.z) * crate::field::inverse(pivot(row, j, q.z)),
                );
            },
            _ => {},
        }
    } else {
        let first = sys.num_vars + 1 + num_outputs;
        assert forall|i: int| 0 <= i < p.z.len() implies 0 <= #[trigger] p.z[i] < ell() by {
            if i != sys.num_vars && first <= i < first + inputs.len() {
                assert(0 <= inputs[i - first] < ell());
            }
        }
    }
}

pub proof fn lemma_value_reduced(g: Graph, inputs: Seq<int>, i: int)
    requires
        g.evaluable(),
        inputs.len() == g.num_free_inputs(),
        reduced(inputs),
        0 <= i < g.len(),
    ensures
        0 <= g.value(inputs, i) < ell(),
    decreases g.len() - i,
{
    assert(g.node_evaluable(i));
    lemma_offset_monotone(g, i + 1, g.len() as int);
    match g.ops[i] {
        OpType::Input => {
            assert(0 <= inputs[g.input_rank(i) as int] < ell());
        },
        OpType::Alias(s) => {
            if g.is_free_input(s as int) {
                lemma_offset_monotone(g, s + 1, g.len() as int);
                assert(0 <= inputs[g.input_rank(s as int) as int] < ell());
            } else {
                lemma_value_reduced(g, inputs, s as int);
            }
        },
        OpType::Add(l, r) => {
            lemma_mod_range(g.value(inputs, l as int) + g.value(inputs, r as int));
        },
        OpType::Mul(l, r) => {
            lemma_mod_range(g.value(inputs, l as int) * g.value(inputs, r as int));
        },
        OpType::Scale(s, k) => {
            lemma_mod_range(k * g.value(inputs, s as int));
        },
        OpType::Pow5(s) => {
            let x = g.value(inputs, s as int);
            lemma_mod_range(square(square(x)) * x);
        },
        _ => {},
    }
}

proof fn lemma_private_reduced(g: Graph, inputs: Seq<int>, n: int)
    requires
        g.evaluable(),
        inputs.len() == g.num_free_inputs(),
        reduced(inputs),
        0 <= n <= g.len(),
    ensures
        reduced(g.private_values(inputs, n)),
    decreases n,
{
    if n > 0 {
        lemma_private_reduced(g, inputs, n - 1);
        lemma_value_reduced(g, inputs, n - 1);
        if let OpType::Pow5(s) = g.ops[n - 1] {
            let x = g.value(inputs, s as int);
            lemma_mod_range(x * x);
            lemma_mod_range(square(x) * square(x));
        }
        assert(reduced(g.node_vars(inputs, n - 1)));
    }
}

/// The values of an evaluation are reduced.
pub proof fn lemma_witness_reduced(g: Graph, inputs: Seq<int>)
    requires
        g.evaluable(),
        inputs.len() == g.num_free_inputs(),
        reduced(inputs),
    ensures
        reduced(g.witness(inputs)),
{
    lemma_ell();
    lemma_private_reduced(g, inputs, g.len() as int);
    assert forall|k: int| 0 <= k < g.num_outputs implies 0 <= #[trigger] g.value(inputs, k)
        < ell() by {
        lemma_value_reduced(g, inputs, k);
    }
    assert(reduced(g.public_values(inputs)));
}

/// A single forward pass over the constraints of an evaluable circuit computes the same
/// witness as evaluating the circuit.
pub proof fn law_forward_evaluates(g: Graph, inputs: Seq<int>) -> (p: Partial)
    requires
        g.evaluable(),
        g.z_len() <= usize::MAX,
        inputs.len() == g.num_free_inputs(),
        reduced(inputs),
    ensures
        forward(g.system(), g.num_outputs, inputs, g.system().num_cons) == Pass::Running(p),
        complete(p.known, g.num_private(), g.num_outputs),
        p.z == g.witness(inputs),
        p.z.take(g.num_private() as int) == g.private_values(inputs, g.len() as int),
        p.z.skip(g.num_private() as int + 1) == g.public_values(inputs),
{
    let sys = g.system();
    let z = g.witness(inputs);
    let p = law_forward_completes(g, inputs);
    law_circuit_valid(g);
    law_witness_satisfies(g, inputs);
    lemma_private_len(g, inputs, g.len() as int);
    assert(has_inputs(sys, g.num_outputs, inputs, z));
    law_unique_witness(sys, g.num_outputs, inputs, p, z);
    lemma_forward_reduced(sys, g.num_outputs, inputs, sys.num_cons, p);
    lemma_witness_reduced(g, inputs);
    lemma_forward_shape(sys, g.num_outputs, inputs, sys.num_cons, p);
    assert forall|c: int| 0 <= c < z.len() implies z[c] == p.z[c] by {
        assert(cong(z[c], p.z[c]));
        lemma_cong_reduced(z[c], p.z[c]);
    }
    assert(p.z =~= z);
    assert(z.take(g.num_private() as int) =~= g.private_values(inputs, g.len() as int));
    assert(z.skip(g.num_private() as int + 1) =~= g.public_values(inputs));
    p
}

} // verus!
