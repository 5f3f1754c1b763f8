//! What circuits compute, operation by operation: of their values, of the assignments that
//! satisfy their constraints, and of the columns and rows that these stand in.
use crate::columns::lemma_offset_monotone;
use crate::convert::{a_forms, b_forms, c_forms, lemma_flatten_sorted, lemma_system_row};
use crate::dag::{square, DAG, Graph, OpType};
use crate::dag_laws::{
    lemma_column_owner, lemma_eval_single, lemma_private_len, lemma_row_at, lemma_rows_prefix,
    lemma_value_reduced, lemma_witness_at,
};
use crate::field::{cong, ell, lemma_cong_mul, lemma_difference, lemma_mod_range};
use crate::system::{eval, Lin, Row};
use vstd::prelude::*;

verus! {

// Circuits.

/// A circuit stands for the operations of its nodes; its nodes are to be numbered by their
/// position, with the outputs among them.
pub proof fn law_circuit(dag: &DAG)
    ensures
        dag@.ops.len() == dag.nodes@.len(),
        forall|i: int| 0 <= i < dag.nodes@.len() ==> #[trigger] dag@.ops[i] == dag.nodes@[i].op,
        dag@.num_outputs == dag.num_outputs,
        dag.wf() <==> dag.num_outputs <= dag.nodes@.len() && forall|i: int|
            0 <= i < dag.nodes@.len() ==> (#[trigger] dag.nodes@[i]).id == i,
{
}

/// In which circuits every operand is a node.
pub proof fn law_closed(g: Graph)
    ensures
        g.closed_under_operands() <==> forall|i: int|
            0 <= i < g.ops.len() ==> (match #[trigger] g.ops[i] {
                OpType::Alias(s) => s < g.ops.len(),
                OpType::Add(l, r) => l < g.ops.len() && r < g.ops.len(),
                OpType::Mul(l, r) => l < g.ops.len() && r < g.ops.len(),
                OpType::Scale(s, k) => s < g.ops.len(),
                OpType::Pow5(s) => s < g.ops.len(),
                _ => true,
            }),
{
    if g.closed_under_operands() {
        assert forall|i: int| 0 <= i < g.ops.len() implies (match #[trigger] g.ops[i] {
            OpType::Alias(s) => s < g.ops.len(),
            OpType::Add(l, r) => l < g.ops.len() && r < g.ops.len(),
            OpType::Mul(l, r) => l < g.ops.len() && r < g.ops.len(),
            OpType::Scale(s, k) => s < g.ops.len(),
            OpType::Pow5(s) => s < g.ops.len(),
            _ => true,
        }) by {
            assert(g.operands_exist(i));
        }
    }
}

// Evaluation.

/// Which circuits can be evaluated: no output is a bare input, and every operand is a node
/// that lies deeper or is a circuit input.
pub proof fn law_evaluable(g: Graph)
    ensures
        g.evaluable() <==> {
            &&& g.num_outputs <= g.ops.len()
            &&& forall|i: int|
                0 <= i < g.ops.len() ==> {
                    let at_hand = |s: usize|
                        s < g.ops.len() && (i < s || (g.num_outputs <= s
                            && g.ops[s as int] is Input));
                    match #[trigger] g.ops[i] {
                        OpType::Input => g.num_outputs <= i,
                        OpType::Alias(s) => at_hand(s),
                        OpType::Add(l, r) => at_hand(l) && at_hand(r),
                        OpType::Mul(l, r) => at_hand(l) && at_hand(r),
                        OpType::Scale(s, k) => at_hand(s),
                        OpType::Pow5(s) => at_hand(s),
                        OpType::Output => false,
                        OpType::Undefined => false,
                    }
                }
        },
{
    if g.evaluable() {
        assert forall|i: int| 0 <= i < g.ops.len() implies {
            let at_hand = |s: usize|
                s < g.ops.len() && (i < s || (g.num_outputs <= s && g.ops[s as int] is Input));
            match #[trigger] g.ops[i] {
                OpType::Input => g.num_outputs <= i,
                OpType::Alias(s) => at_hand(s),
                OpType::Add(l, r) => at_hand(l) && at_hand(r),
                OpType::Mul(l, r) => at_hand(l) && at_hand(r),
                OpType::Scale(s, k) => at_hand(s),
                OpType::Pow5(s) => at_hand(s),
                OpType::Output => false,
                OpType::Undefined => false,
            }
        } by {
            assert(g.node_evaluable(i));
        }
    }
}

/// What the value of a node is: that of its operand for an alias, and for the other
/// operations the sum, the product, the multiple or the fifth power of those of its
/// operands.
pub proof fn law_value_of_node(g: Graph, inputs: Seq<int>, i: int)
    requires
        g.evaluable(),
        inputs.len() == g.num_free_inputs(),
        0 <= i < g.ops.len(),
    ensures
        ({
            let v = |n: int| g.value(inputs, n);
            match g.ops[i] {
                OpType::Alias(s) => v(i) == v(s as int),
                OpType::Add(l, r) => 0 <= v(i) < ell() && (v(i) - (v(l as int) + v(r as int)))
                    % ell() == 0,
                OpType::Mul(l, r) => 0 <= v(i) < ell() && (v(i) - v(l as int) * v(r as int)) % ell()
                    == 0,
                OpType::Scale(s, k) => 0 <= v(i) < ell() && (v(i) - k * v(s as int)) % ell() == 0,
                OpType::Pow5(s) => {
                    let x = v(s as int);
                    0 <= v(i) < ell() && (v(i) - x * x * x * x * x) % ell() == 0
                },
                _ => true,
            }
        }),
{
    let v = |n: int| g.value(inputs, n);
    assert(g.node_evaluable(i));
    match g.ops[i] {
        OpType::Add(l, r) => {
            lemma_mod_range(v(l as int) + v(r as int));
            lemma_difference(v(i), v(l as int) + v(r as int));
        },
        OpType::Mul(l, r) => {
            lemma_mod_range(v(l as int) * v(r as int));
            lemma_difference(v(i), v(l as int) * v(r as int));
        },
        OpType::Scale(s, k) => {
            lemma_mod_range(k * v(s as int));
            lemma_difference(v(i), k * v(s as int));
        },
        OpType::Pow5(s) => {
            let x = v(s as int);
            lemma_fifth_power(x);
            lemma_mod_range(square(square(x)) * x);
            lemma_difference(v(i), x * x * x * x * x);
        },
        _ => {},
    }
}

proof fn lemma_fifth_power(x: int)
    ensures
        cong(square(x), x * x),
        cong(square(square(x)), x * x * x * x),
        cong(square(square(x)) * x, x * x * x * x * x),
{
    lemma_mod_range(x * x);
    lemma_cong_mul(square(x), x * x, square(x), x * x);
    assert((x * x) * (x * x) == x * x * x * x) by (nonlinear_arith);
    lemma_mod_range(square(x) * square(x));
    lemma_cong_mul(square(square(x)), x * x * x * x, x, x);
}

/// The values given for the circuit inputs go to its input nodes in order: the first value
/// to the first of them.
pub proof fn law_input_order(g: Graph, inputs: Seq<int>)
    requires
        inputs.len() == g.num_free_inputs(),
    ensures
        forall|i: int|
            0 <= i < g.ops.len() && g.num_outputs <= i && (#[trigger] g.ops[i]) is Input ==> {
                &&& 0 <= g.input_rank(i) < inputs.len()
                &&& g.value(inputs, i) == inputs[g.input_rank(i) as int]
            },
        forall|i: int, j: int|
            0 <= i < j < g.ops.len() && g.num_outputs <= i && (#[trigger] g.ops[i]) is Input && (
            #[trigger] g.ops[j]) is Input ==> g.input_rank(i) < g.input_rank(j),
{
    let n = g.ops.len() as int;
    assert forall|i: int|
        0 <= i < g.ops.len() && g.num_outputs <= i && (#[trigger] g.ops[i]) is Input implies 0
        <= g.input_rank(i) < inputs.len() && g.value(inputs, i) == inputs[g.input_rank(
        i,
    ) as int] by {
        lemma_offset_monotone(g, i + 1, n);
    }
    assert forall|i: int, j: int|
        0 <= i < j < g.ops.len() && g.num_outputs <= i && (#[trigger] g.ops[i]) is Input && (
        #[trigger] g.ops[j]) is Input implies g.input_rank(i) < g.input_rank(j) by {
        lemma_offset_monotone(g, i + 1, j);
    }
}

/// Every value given goes to an input node.
pub proof fn law_input_used(g: Graph, k: int) -> (i: int)
    requires
        0 <= k < g.num_free_inputs(),
    ensures
        g.num_outputs <= i < g.ops.len(),
        g.ops[i] is Input,
        g.input_rank(i) == k,
{
    lemma_input_of_rank(g, g.ops.len() as int, k)
}

proof fn lemma_input_of_rank(g: Graph, n: int, k: int) -> (i: int)
    requires
        0 <= n,
        0 <= k < g.input_rank(n),
    ensures
        0 <= i < n,
        g.is_free_input(i),
        g.input_rank(i) == k,
    decreases n,
{
    if k < g.input_rank(n - 1) {
        lemma_input_of_rank(g, n - 1, k)
    } else {
        n - 1
    }
}

// Columns.

/// Where values stand in a full assignment: the private ones in node order, then the
/// constant, the outputs and the circuit inputs. The square and the fourth power that a
/// fifth power goes through follow its value, or stand in its place if that is an output.
pub proof fn law_columns(g: Graph)
    requires
        g.num_outputs <= g.ops.len(),
    ensures
        g.one() == g.num_private(),
        g.z_len() == g.num_private() + 1 + g.num_outputs + g.num_free_inputs(),
        forall|i: int| 0 <= i < g.num_outputs ==> #[trigger] g.col(i) == g.num_private() + 1 + i,
        forall|i: int|
            g.num_outputs <= i < g.ops.len() && g.ops[i] is Input ==> #[trigger] g.col(i)
                == g.num_private() + 1 + g.num_outputs + g.input_rank(i),
        forall|i: int|
            g.num_outputs <= i < g.ops.len() && !(g.ops[i] is Input) ==> 0 <= #[trigger] g.col(i)
                < g.num_private(),
        forall|i: int|
            0 <= i < g.ops.len() && g.ops[i] is Pow5 ==> {
                &&& 0 <= #[trigger] g.square_col(i)
                &&& g.fourth_col(i) == g.square_col(i) + 1
                &&& g.fourth_col(i) < g.num_private()
                &&& g.num_outputs <= i ==> g.square_col(i) == g.col(i) + 1
            },
{
    let n = g.ops.len() as int;
    assert forall|i: int| 0 <= i < n implies #[trigger] g.offset(i) + g.width(i)
        <= g.num_private() by {
        lemma_offset_monotone(g, i + 1, n);
    }
    assert forall|i: int|
        g.num_outputs <= i < g.ops.len() && !(g.ops[i] is Input) implies 0 <= #[trigger] g.col(i)
        < g.num_private() by {
        assert(g.offset(i) + g.width(i) <= g.num_private());
    }
    assert forall|i: int| 0 <= i < g.ops.len() && g.ops[i] is Pow5 implies {
        &&& 0 <= #[trigger] g.square_col(i)
        &&& g.fourth_col(i) == g.square_col(i) + 1
        &&& g.fourth_col(i) < g.num_private()
        &&& g.num_outputs <= i ==> g.square_col(i) == g.col(i) + 1
    } by {
        assert(g.offset(i) + g.width(i) <= g.num_private());
    }
}

/// The private columns of a node precede those of deeper nodes.
pub proof fn law_column_order(g: Graph, i: int, j: int)
    requires
        0 <= i < j < g.ops.len(),
        !(g.ops[i] is Input),
        !(g.ops[j] is Input),
    ensures
        g.num_outputs <= i ==> g.col(i) < g.col(j),
        g.num_outputs <= j && g.ops[i] is Pow5 ==> g.fourth_col(i) < g.col(j),
        g.num_outputs <= i && g.ops[j] is Pow5 ==> g.col(i) < g.square_col(j),
        g.ops[i] is Pow5 && g.ops[j] is Pow5 ==> g.fourth_col(i) < g.square_col(j),
{
    lemma_offset_monotone(g, i + 1, j);
}

/// No private column is left over: each holds the value of a node or a power on the way to
/// one.
pub proof fn law_column_used(g: Graph, c: int) -> (i: int)
    requires
        0 <= c < g.num_private(),
    ensures
        0 <= i < g.ops.len(),
        !(g.ops[i] is Input),
        (g.num_outputs <= i && g.col(i) == c) || (g.ops[i] is Pow5 && (g.square_col(i) == c
            || g.fourth_col(i) == c)),
{
    lemma_column_owner(g, c, g.ops.len() as int)
}

/// An evaluation puts the value of each node into its column, beside the constant one and
/// the powers that a fifth power goes through.
pub proof fn law_witness_layout(g: Graph, inputs: Seq<int>)
    requires
        g.evaluable(),
        inputs.len() == g.num_free_inputs(),
    ensures
        ({
            let vars = g.private_values(inputs, g.ops.len() as int);
            let io = g.public_values(inputs);
            let z = vars + seq![1int] + io;
            &&& g.witness(inputs) == z
            &&& vars.len() == g.num_private()
            &&& io.len() == g.num_outputs + inputs.len()
            &&& forall|i: int|
                0 <= i < g.ops.len() ==> #[trigger] z[g.col(i)] == g.value(inputs, i)
            &&& forall|k: int|
                0 <= k < inputs.len() ==> io[#[trigger] (g.num_outputs + k)] == inputs[k]
            &&& forall|i: int|
                0 <= i < g.ops.len() ==> ((#[trigger] g.ops[i]) matches OpType::Pow5(s) ==> {
                    let x = g.value(inputs, s as int);
                    &&& (z[g.square_col(i)] - x * x) % ell() == 0
                    &&& (z[g.fourth_col(i)] - x * x * x * x) % ell() == 0
                })
        }),
{
    let vars = g.private_values(inputs, g.ops.len() as int);
    let io = g.public_values(inputs);
    let z = vars + seq![1int] + io;
    lemma_private_len(g, inputs, g.ops.len() as int);
    assert forall|i: int| 0 <= i < g.ops.len() implies #[trigger] z[g.col(i)] == g.value(
        inputs,
        i,
    ) by {
        assert(g.node_evaluable(i));
        lemma_witness_at(g, inputs, i);
    }
    assert forall|i: int| 0 <= i < g.ops.len() implies ((#[trigger] g.ops[i]) matches OpType::Pow5(
        s,
    ) ==> {
        let x = g.value(inputs, s as int);
        &&& (z[g.square_col(i)] - x * x) % ell() == 0
        &&& (z[g.fourth_col(i)] - x * x * x * x) % ell() == 0
    }) by {
        if let OpType::Pow5(s) = g.ops[i] {
            let x = g.value(inputs, s as int);
            lemma_witness_at(g, inputs, i);
            lemma_fifth_power(x);
            lemma_difference(z[g.square_col(i)], x * x);
            lemma_difference(z[g.fourth_col(i)], x * x * x * x);
        }
    }
}

/// The values of an evaluation stay below the modulus if the inputs do.
pub proof fn law_values_reduced(g: Graph, inputs: Seq<int>, i: int)
    requires
        g.evaluable(),
        inputs.len() == g.num_free_inputs(),
        forall|k: int| 0 <= k < inputs.len() ==> 0 <= #[trigger] inputs[k] < ell(),
        0 <= i < g.ops.len(),
    ensures
        0 <= g.value(inputs, i) < ell(),
{
    lemma_value_reduced(g, inputs, i);
}

// Constraints.

/// The rows of a node: none for an input, three for a fifth power, and one for any other
/// operation. The rows of deeper nodes come first.
pub proof fn law_rows_of_node(g: Graph, i: int)
    requires
        0 <= i < g.ops.len(),
    ensures
        ({
            let first = g.rows_from(i + 1).len() as int;
            let after = g.rows_from(i).len() as int;
            let row = |d: int| g.system().row(first + d);
            let of = |c: int| seq![(c, 1int)];
            let v = g.col(i);
            let one = g.num_private() as int;
            &&& after <= g.system().num_cons
            &&& match g.ops[i] {
                OpType::Alias(s) => after == first + 1 && row(0) == (Row {
                    a: of(v),
                    b: of(one),
                    c: of(g.col(s as int)),
                }),
                OpType::Add(l, r) => after == first + 1 && row(0) == (Row {
                    a: seq![(g.col(l as int), 1int), (g.col(r as int), 1int)],
                    b: of(one),
                    c: of(v),
                }),
                OpType::Mul(l, r) => after == first + 1 && row(0) == (Row {
                    a: of(g.col(l as int)),
                    b: of(g.col(r as int)),
                    c: of(v),
                }),
                OpType::Scale(s, k) => after == first + 1 && row(0).b == of(one) && row(0).c == of(
                    v,
                ) && (k == 0 ==> row(0).a.len() == 0) && (k != 0 ==> row(0).a == seq![
                    (g.col(s as int), k as int),
                ]),
                OpType::Pow5(s) => {
                    let x = g.col(s as int);
                    &&& after == first + 3
                    &&& row(0) == (Row { a: of(x), b: of(x), c: of(g.square_col(i)) })
                    &&& row(1) == (Row {
                        a: of(g.square_col(i)),
                        b: of(g.square_col(i)),
                        c: of(g.fourth_col(i)),
                    })
                    &&& row(2) == (Row { a: of(g.fourth_col(i)), b: of(x), c: of(v) })
                },
                OpType::Input | OpType::Output | OpType::Undefined => after == first,
            }
        }),
{
    lemma_rows_prefix(g, 0, i);
    match g.ops[i] {
        OpType::Input | OpType::Output | OpType::Undefined => {},
        OpType::Pow5(s) => {
            lemma_row_at(g, i, 0);
            lemma_row_at(g, i, 1);
            lemma_row_at(g, i, 2);
        },
        _ => {
            lemma_row_at(g, i, 0);
        },
    }
}

/// A circuit has the rows of its nodes and no others, and as many columns as it needs.
pub proof fn law_system_counts(g: Graph)
    ensures
        g.rows_from(g.ops.len() as int).len() == 0,
        g.system().num_cons == g.rows_from(0).len(),
        g.system().num_vars == g.num_private(),
        g.system().num_outputs == g.num_outputs,
        g.system().num_inputs == g.num_outputs + g.num_free_inputs(),
{
}

/// The entries of each matrix stand in the order of the rows.
pub proof fn law_entries_by_row(g: Graph)
    ensures
        ({
            let sys = g.system();
            &&& forall|i: int, j: int|
                0 <= i < j < sys.a.len() ==> (#[trigger] sys.a[i]).0 <= (#[trigger] sys.a[j]).0
            &&& forall|i: int, j: int|
                0 <= i < j < sys.b.len() ==> (#[trigger] sys.b[i]).0 <= (#[trigger] sys.b[j]).0
            &&& forall|i: int, j: int|
                0 <= i < j < sys.c.len() ==> (#[trigger] sys.c[i]).0 <= (#[trigger] sys.c[j]).0
            &&& forall|i: int|
                0 <= i < sys.a.len() ==> 0 <= (#[trigger] sys.a[i]).0 < sys.num_cons
            &&& forall|i: int|
                0 <= i < sys.b.len() ==> 0 <= (#[trigger] sys.b[i]).0 < sys.num_cons
            &&& forall|i: int|
                0 <= i < sys.c.len() ==> 0 <= (#[trigger] sys.c[i]).0 < sys.num_cons
        }),
{
    let rows = g.rows_from(0);
    lemma_flatten_sorted(a_forms(rows));
    lemma_flatten_sorted(b_forms(rows));
    lemma_flatten_sorted(c_forms(rows));
}

/// What a row of the system says, where each side is one column.
proof fn lemma_product_row(g: Graph, z: Seq<int>, a: int, b: int, c: int)
    ensures
        (Row { a: g.single(a), b: g.single(b), c: g.single(c) }).holds(z) <==> (z[c] - z[a] * z[b])
            % ell() == 0,
{
    lemma_eval_single(g, a, z);
    lemma_eval_single(g, b, z);
    lemma_eval_single(g, c, z);
    lemma_difference(z[c], z[a] * z[b]);
}

proof fn lemma_eval_sum(a: Lin, l: int, r: int, z: Seq<int>)
    requires
        a == seq![(l, 1int), (r, 1int)],
    ensures
        eval(a, z) == z[l] + z[r],
{
    assert(a.drop_last() =~= seq![(l, 1int)]);
    assert(a.drop_last().drop_last() =~= Seq::empty());
    assert(eval(a.drop_last().drop_last(), z) == 0);
    assert(eval(a.drop_last(), z) == 0 + 1 * z[l]);
    assert(eval(a, z) == eval(a.drop_last(), z) + 1 * z[r]);
}

/// What the rows of a node say.
proof fn lemma_node_relation(g: Graph, z: Seq<int>, i: int)
    requires
        0 <= i < g.ops.len(),
        z[g.one()] == 1,
    ensures
        (forall|d: int| 0 <= d < g.node_rows(i).len() ==> (#[trigger] g.node_rows(i)[d]).holds(z))
            <==> node_relation(g, z, i),
{
    let rows = g.node_rows(i);
    let o = g.one();
    let v = g.col(i);
    lemma_eval_single(g, o, z);
    lemma_eval_single(g, v, z);
    match g.ops[i] {
        OpType::Alias(s) => {
            let x = g.col(s as int);
            lemma_product_row(g, z, v, o, x);
            lemma_difference(z[x], z[v]);
            lemma_difference(z[v], z[x]);
            assert(z[v] * 1 == z[v]);
            assert(rows[0].holds(z) <==> node_relation(g, z, i));
        },
        OpType::Add(l, r) => {
            let a = rows[0].a;
            lemma_eval_sum(a, g.col(l as int), g.col(r as int), z);
            assert(eval(a, z) * 1 == eval(a, z));
            lemma_difference(z[v], eval(a, z));
            assert(rows[0].holds(z) <==> node_relation(g, z, i));
        },
        OpType::Mul(l, r) => {
            lemma_product_row(g, z, g.col(l as int), g.col(r as int), v);
            assert(rows[0].holds(z) <==> node_relation(g, z, i));
        },
        OpType::Scale(s, k) => {
            let a = rows[0].a;
            let x = z[g.col(s as int)];
            if k == 0 {
                assert(eval(a, z) == 0);
                assert(k * x == 0) by (nonlinear_arith)
                    requires
                        k == 0,
                ;
            } else {
                assert(a.drop_last() =~= Seq::empty());
                assert(eval(a.drop_last(), z) == 0);
                assert(eval(a, z) == k * x);
            }
            assert(eval(a, z) * 1 == k * x);
            lemma_difference(z[v], k * x);
            assert(rows[0].holds(z) <==> node_relation(g, z, i));
        },
        OpType::Pow5(s) => {
            let x = g.col(s as int);
            lemma_product_row(g, z, x, x, g.square_col(i));
            lemma_product_row(g, z, g.square_col(i), g.square_col(i), g.fourth_col(i));
            lemma_product_row(g, z, g.fourth_col(i), x, v);
            assert(node_relation(g, z, i) <==> rows[0].holds(z) && rows[1].holds(z)
                && rows[2].holds(z));
            if node_relation(g, z, i) {
                assert forall|d: int| 0 <= d < rows.len() implies (#[trigger] rows[d]).holds(z) by {
                    assert(d == 0 || d == 1 || d == 2);
                }
            }
        },
        _ => {},
    }
}

/// The relation between the columns of a node and those of its operands.
spec fn node_relation(g: Graph, z: Seq<int>, i: int) -> bool {
    let v = |n: int| z[g.col(n)];
    match g.ops[i] {
        OpType::Alias(s) => (v(i) - v(s as int)) % ell() == 0,
        OpType::Add(l, r) => (v(i) - (v(l as int) + v(r as int))) % ell() == 0,
        OpType::Mul(l, r) => (v(i) - v(l as int) * v(r as int)) % ell() == 0,
        OpType::Scale(s, k) => (v(i) - k * v(s as int)) % ell() == 0,
        OpType::Pow5(s) => {
            let sq = z[g.square_col(i)];
            let qd = z[g.fourth_col(i)];
            &&& (sq - v(s as int) * v(s as int)) % ell() == 0
            &&& (qd - sq * sq) % ell() == 0
            &&& (v(i) - qd * v(s as int)) % ell() == 0
        },
        _ => true,
    }
}

/// The constraint system of a circuit says of an assignment what the circuit says of its
/// nodes, and no more: in the column of each node stands the value of its operand, or the
/// sum, the product, the multiple or the fifth power of those of its operands.
pub proof fn law_satisfying_assignments(g: Graph, z: Seq<int>)
    requires
        z.len() == g.num_private() + 1 + g.num_outputs + g.num_free_inputs(),
        z[g.num_private() as int] == 1,
    ensures
        g.system().satisfied(z) <==> forall|i: int|
            0 <= i < g.ops.len() ==> {
                let v = |n: int| z[g.col(n)];
                match #[trigger] g.ops[i] {
                    OpType::Alias(s) => (v(i) - v(s as int)) % ell() == 0,
                    OpType::Add(l, r) => (v(i) - (v(l as int) + v(r as int))) % ell() == 0,
                    OpType::Mul(l, r) => (v(i) - v(l as int) * v(r as int)) % ell() == 0,
                    OpType::Scale(s, k) => (v(i) - k * v(s as int)) % ell() == 0,
                    OpType::Pow5(s) => {
                        let sq = z[g.square_col(i)];
                        let qd = z[g.fourth_col(i)];
                        &&& (sq - v(s as int) * v(s as int)) % ell() == 0
                        &&& (qd - sq * sq) % ell() == 0
                        &&& (v(i) - qd * v(s as int)) % ell() == 0
                    },
                    _ => true,
                }
            },
{
    let sys = g.system();
    if sys.satisfied(z) {
        assert forall|i: int| 0 <= i < g.ops.len() implies #[trigger] node_relation(g, z, i) by {
            assert forall|d: int| 0 <= d < g.node_rows(i).len() implies (#[trigger] g.node_rows(
                i,
            )[d]).holds(z) by {
                lemma_row_at(g, i, d);
                assert(sys.row(g.rows_from(i + 1).len() + d).holds(z));
            }
            lemma_node_relation(g, z, i);
        }
        assert forall|i: int| 0 <= i < g.ops.len() implies {
            let v = |n: int| z[g.col(n)];
            match #[trigger] g.ops[i] {
                OpType::Alias(s) => (v(i) - v(s as int)) % ell() == 0,
                OpType::Add(l, r) => (v(i) - (v(l as int) + v(r as int))) % ell() == 0,
                OpType::Mul(l, r) => (v(i) - v(l as int) * v(r as int)) % ell() == 0,
                OpType::Scale(s, k) => (v(i) - k * v(s as int)) % ell() == 0,
                OpType::Pow5(s) => {
                    let sq = z[g.square_col(i)];
                    let qd = z[g.fourth_col(i)];
                    &&& (sq - v(s as int) * v(s as int)) % ell() == 0
                    &&& (qd - sq * sq) % ell() == 0
                    &&& (v(i) - qd * v(s as int)) % ell() == 0
                },
                _ => true,
            }
        } by {
            assert(node_relation(g, z, i));
        }
    }
    if forall|i: int|
        0 <= i < g.ops.len() ==> {
            let v = |n: int| z[g.col(n)];
            match #[trigger] g.ops[i] {
                OpType::Alias(s) => (v(i) - v(s as int)) % ell() == 0,
                OpType::Add(l, r) => (v(i) - (v(l as int) + v(r as int))) % ell() == 0,
                OpType::Mul(l, r) => (v(i) - v(l as int) * v(r as int)) % ell() == 0,
                OpType::Scale(s, k) => (v(i) - k * v(s as int)) % ell() == 0,
                OpType::Pow5(s) => {
                    let sq = z[g.square_col(i)];
                    let qd = z[g.fourth_col(i)];
                    &&& (sq - v(s as int) * v(s as int)) % ell() == 0
                    &&& (qd - sq * sq) % ell() == 0
                    &&& (v(i) - qd * v(s as int)) % ell() == 0
                },
                _ => true,
            }
        } {
        assert forall|i: int| 0 <= i < g.ops.len() implies #[trigger] node_relation(g, z, i) by {
            assert(g.ops[i] == g.ops[i]);
        }
        lemma_relations_rows(g, z, 0);
        assert forall|r: int| 0 <= r < sys.num_cons implies (#[trigger] sys.row(r)).holds(z) by {
            lemma_system_row(g, r);
        }
    }
}

proof fn lemma_relations_rows(g: Graph, z: Seq<int>, n: int)
    requires
        0 <= n <= g.ops.len(),
        z[g.one()] == 1,
        forall|i: int| 0 <= i < g.ops.len() ==> #[trigger] node_relation(g, z, i),
    ensures
        forall|r: int|
            0 <= r < g.rows_from(n).len() ==> (#[trigger] g.rows_from(n)[r]).holds(z),
    decreases g.ops.len() - n,
{
    if n < g.ops.len() {
        lemma_relations_rows(g, z, n + 1);
        assert(node_relation(g, z, n));
        lemma_node_relation(g, z, n);
        let k = g.rows_from(n + 1).len();
        assert forall|r: int| 0 <= r < g.rows_from(n).len() implies (#[trigger] g.rows_from(
            n,
        )[r]).holds(z) by {
            if r < k {
                assert(g.rows_from(n)[r] == g.rows_from(n + 1)[r]);
            } else {
                assert(g.rows_from(n)[r] == g.node_rows(n)[r - k]);
            }
        }
    }
}

/// In every assignment that satisfies the constraints of a circuit, the column of a fifth
/// power holds the fifth power of its operand.
pub proof fn law_fifth_power_column(g: Graph, z: Seq<int>, i: int, s: usize)
    requires
        g.system().satisfied(z),
        0 <= i < g.ops.len(),
        g.ops[i] == OpType::Pow5(s),
    ensures
        ({
            let x = z[g.col(s as int)];
            (z[g.col(i)] - x * x * x * x * x) % ell() == 0
        }),
{
    let x = z[g.col(s as int)];
    let sq = z[g.square_col(i)];
    let qd = z[g.fourth_col(i)];
    law_satisfying_assignments(g, z);
    assert(g.ops[i] is Pow5);
    lemma_difference(sq, x * x);
    lemma_cong_mul(sq, x * x, sq, x * x);
    assert((x * x) * (x * x) == x * x * x * x) by (nonlinear_arith);
    lemma_difference(qd, sq * sq);
    lemma_cong_mul(qd, x * x * x * x, x, x);
    lemma_difference(z[g.col(i)], qd * x);
    lemma_difference(z[g.col(i)], x * x * x * x * x);
}

} // verus!
