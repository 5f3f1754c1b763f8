//! What the pass over the rows does, row by row, and what the solver answers.
use crate::field::{
    cong, ell, inverse, is_unit, lemma_cong_add, lemma_cong_mul, lemma_ell, lemma_mod_range,
    lemma_reduced, lemma_unit_cong, lemma_unit_solves,
};
use crate::forward::{determined, solver_returns};
use crate::forward_laws::{lemma_determined, lemma_row_pins};
use crate::model_laws::{law_row_holds, lemma_except_update};
use crate::r1cs::{malformed_reason, WitnessError};
use crate::scalar::{values, Scalar};
use crate::system::{
    ambiguous, coeff, eval, eval_except, forward, lemma_eval_split, mentions, pivot, quadratic,
    solved_count, start, step, target, unknown, Lin, Outcome, Partial, Pass, Row, System,
};
use vstd::prelude::*;

verus! {

/// Before the first row the constant and the circuit inputs are known, and nothing else.
pub proof fn law_start(sys: System, num_outputs: nat, inputs: Seq<int>, c: int)
    requires
        num_outputs + inputs.len() == sys.num_inputs,
        0 <= c < sys.num_vars + 1 + sys.num_inputs,
    ensures
        ({
            let p = start(sys, num_outputs, inputs);
            let first = sys.num_vars + 1 + num_outputs;
            &&& p.z.len() == sys.num_vars + 1 + sys.num_inputs
            &&& p.known.len() == sys.num_vars + 1 + sys.num_inputs
            &&& p.known[c] <==> c == sys.num_vars || first <= c
            &&& c == sys.num_vars ==> p.z[c] == 1
            &&& first <= c ==> p.z[c] == inputs[c - first]
        }),
{
}

/// A row with two unknown columns stops the pass.
pub proof fn law_two_unknowns(row: Row, p: Partial, c: int, d: int)
    requires
        c != d,
        mentions(row.a, c) || mentions(row.b, c) || mentions(row.c, c),
        mentions(row.a, d) || mentions(row.b, d) || mentions(row.c, d),
        !p.known[c],
        !p.known[d],
    ensures
        step(row, p) is Ambiguous,
{
    assert(unknown(row, p.known, c) && unknown(row, p.known, d));
}

/// A row without unknown columns changes nothing.
pub proof fn law_no_unknown(row: Row, p: Partial)
    requires
        forall|c: int| #[trigger] mentions(row.a, c) ==> p.known[c],
        forall|c: int| #[trigger] mentions(row.b, c) ==> p.known[c],
        forall|c: int| #[trigger] mentions(row.c, c) ==> p.known[c],
    ensures
        step(row, p) == Outcome::Next(p),
{
}

/// A form with `x` in column `j`.
proof fn lemma_eval_at(l: Lin, j: int, z: Seq<int>, x: int)
    requires
        0 <= j < z.len(),
        forall|i: int| 0 <= i < l.len() ==> 0 <= (#[trigger] l[i]).0 < z.len(),
    ensures
        eval(l, z.update(j, x)) == eval_except(l, j, z) + coeff(l, j) * x,
{
    lemma_eval_split(l, j, z.update(j, x));
    lemma_except_update(l, j, z, x);
}

/// A row with one unknown column is solved for it, where it says one thing about it: where
/// the column is in both factors the pass stops, where the row does not depend on it nothing
/// changes, and otherwise the column gets the reduced value with which the row holds, and
/// no other column changes.
pub proof fn law_one_unknown(row: Row, p: Partial, j: int)
    requires
        p.z.len() == p.known.len(),
        0 <= j < p.z.len(),
        row.below(p.z.len() as int),
        mentions(row.a, j) || mentions(row.b, j) || mentions(row.c, j),
        !p.known[j],
        forall|c: int| #[trigger] mentions(row.a, c) && c != j ==> p.known[c],
        forall|c: int| #[trigger] mentions(row.b, c) && c != j ==> p.known[c],
        forall|c: int| #[trigger] mentions(row.c, c) && c != j ==> p.known[c],
    ensures
        ({
            let f = |x: int|
                eval(row.a, p.z.update(j, x)) * eval(row.b, p.z.update(j, x)) - eval(
                    row.c,
                    p.z.update(j, x),
                );
            let both = coeff(row.a, j) % ell() != 0 && coeff(row.b, j) % ell() != 0;
            &&& both <==> step(row, p) is NonLinear
            &&& !both && is_unit(f(1) - f(0)) ==> {
                &&& step(row, p) matches Outcome::Next(q)
                &&& q.known == p.known.update(j, true)
                &&& q.z == p.z.update(j, q.z[j])
                &&& 0 <= q.z[j] < ell()
                &&& f(q.z[j]) % ell() == 0
            }
            &&& !both && !is_unit(f(1) - f(0)) ==> step(row, p) == Outcome::Next(p)
        }),
{
    let (ak, aj) = (eval_except(row.a, j, p.z), coeff(row.a, j));
    let (bk, bj) = (eval_except(row.b, j, p.z), coeff(row.b, j));
    let (ck, cj) = (eval_except(row.c, j, p.z), coeff(row.c, j));
    let f = |x: int|
        eval(row.a, p.z.update(j, x)) * eval(row.b, p.z.update(j, x)) - eval(
            row.c,
            p.z.update(j, x),
        );
    lemma_ell();
    lemma_reduced(0);
    assert forall|c: int| unknown(row, p.known, c) implies c == j by {}
    assert(unknown(row, p.known, j));
    assert(!ambiguous(row, p.known));
    assert(j == choose|c: int| unknown(row, p.known, c));
    let both = aj % ell() != 0 && bj % ell() != 0;
    assert(both <==> quadratic(row, j));
    if !both {
        let d = pivot(row, j, p.z);
        lemma_eval_at(row.a, j, p.z, 0);
        lemma_eval_at(row.b, j, p.z, 0);
        lemma_eval_at(row.c, j, p.z, 0);
        lemma_eval_at(row.a, j, p.z, 1);
        lemma_eval_at(row.b, j, p.z, 1);
        lemma_eval_at(row.c, j, p.z, 1);
        assert(aj * 0 == 0 && bj * 0 == 0 && cj * 0 == 0);
        assert(f(0) == ak * bk - ck);
        assert(f(1) == (ak + aj) * (bk + bj) - (ck + cj));
        assert((ak + aj) * (bk + bj) == ak * bk + ak * bj + aj * bk + aj * bj) by (nonlinear_arith);
        assert(ak * bj == bj * ak) by (nonlinear_arith);
        assert(f(1) - f(0) == d + aj * bj);
        assert(cong(aj * bj, 0)) by {
            if aj % ell() == 0 {
                lemma_cong_mul(aj, 0, bj, bj);
            } else {
                lemma_cong_mul(aj, aj, bj, 0);
                assert(aj * 0 == 0);
            }
        }
        lemma_cong_add(d, d, aj * bj, 0);
        if is_unit(d) {
            lemma_unit_cong(d, d + aj * bj);
            let t = target(row, j, p.z);
            let x = (t * inverse(d)) % ell();
            let z = p.z.update(j, x);
            lemma_mod_range(t * inverse(d));
            lemma_unit_solves(d, t);
            lemma_cong_mul(d, d, x, t * inverse(d));
            lemma_except_update(row.a, j, p.z, x);
            lemma_except_update(row.b, j, p.z, x);
            lemma_except_update(row.c, j, p.z, x);
            lemma_row_pins(row, j, z);
            law_row_holds(row, z);
            assert(z.update(j, z[j]) =~= z);
            assert(p.z.update(j, z[j]) =~= z);
        } else if is_unit(d + aj * bj) {
            lemma_unit_cong(d + aj * bj, d);
        }
    }
}

/// The pass takes the rows in order and stops at the first that it cannot handle.
pub proof fn law_rows_in_order(sys: System, num_outputs: nat, inputs: Seq<int>, n: nat)
    ensures
        forward(sys, num_outputs, inputs, 0) == Pass::Running(start(sys, num_outputs, inputs)),
        match forward(sys, num_outputs, inputs, n) {
            Pass::Running(p) => {
                let next = forward(sys, num_outputs, inputs, n + 1);
                match step(sys.row(n as int), p) {
                    Outcome::Next(q) => next == Pass::Running(q),
                    Outcome::Ambiguous => next == Pass::Ambiguous(n),
                    Outcome::NonLinear => next == Pass::NonLinear(n),
                }
            },
            stopped => forward(sys, num_outputs, inputs, n + 1) == stopped,
        },
{
}

/// Whether a system has an assignment that the solver finds, and which: that of the pass over
/// all rows, where the system is well-formed and every variable and output is known then.
pub proof fn law_determined(sys: System, num_outputs: nat, inputs: Seq<int>, z: Seq<int>)
    ensures
        determined(sys, num_outputs, inputs) == Some(z) <==> {
            &&& sys.valid()
            &&& inputs.len() == sys.num_inputs - num_outputs
            &&& forward(sys, num_outputs, inputs, sys.num_cons) matches Pass::Running(p) && p.z == z
                && (forall|c: int|
                0 <= c <= sys.num_vars + num_outputs && c != sys.num_vars ==> #[trigger] p.known[c])
        },
{
    if let Pass::Running(p) = forward(sys, num_outputs, inputs, sys.num_cons) {
        if determined(sys, num_outputs, inputs) == Some(z) {
            assert forall|c: int|
                0 <= c <= sys.num_vars + num_outputs && c
                    != sys.num_vars implies #[trigger] p.known[c] by {}
        }
    }
}

/// What the solver answers. It gives the assignment that it finds, split round the constant.
/// Otherwise it tells of the first of these that holds: the system is malformed, the number
/// of inputs does not fit, a row stops the pass, or something stays unknown.
pub proof fn law_solver_answers(
    sys: System,
    num_outputs: nat,
    inputs: Seq<int>,
    r: Result<(Vec<Scalar>, Vec<Scalar>), WitnessError>,
)
    requires
        solver_returns(sys, num_outputs, inputs, r),
    ensures
        ({
            let well = sys.valid() && num_outputs <= sys.num_inputs;
            let asked = well && inputs.len() == sys.num_inputs - num_outputs;
            let pass = forward(sys, num_outputs, inputs, sys.num_cons);
            &&& r is Ok <==> num_outputs <= sys.num_inputs && determined(
                sys,
                num_outputs,
                inputs,
            ) is Some
            &&& r matches Ok((vars, io)) ==> {
                &&& vars@.len() == sys.num_vars
                &&& io@.len() == sys.num_inputs
                &&& determined(sys, num_outputs, inputs) == Some(
                    values(vars@) + seq![1int] + values(io@),
                )
            }
            &&& !well <==> (r matches Err(e) && e is MalformedInstance)
            &&& r matches Err(WitnessError::MalformedInstance { reason }) ==> {
                if sys.valid() {
                    reason@ == "num_inputs < num_outputs"@
                } else {
                    malformed_reason(sys) == Some(reason@)
                }
            }
            &&& well && !asked <==> (r matches Err(WitnessError::InvalidInputs { expected, got })
                && expected == sys.num_inputs - num_outputs && got == inputs.len())
            &&& asked && pass is Ambiguous <==> (r matches Err(
                WitnessError::NotInEvaluationOrder { row },
            ) && pass == Pass::Ambiguous(row as nat))
            &&& asked && pass is NonLinear <==> (r matches Err(
                WitnessError::NonLinearUnknown { row },
            ) && pass == Pass::NonLinear(row as nat))
            &&& asked && pass is Running && determined(sys, num_outputs, inputs) is None <==> (
            r matches Err(e) && e is SolverStuck)
            &&& r matches Err(WitnessError::SolverStuck { solved, total }) ==> {
                &&& pass matches Pass::Running(p) && solved == solved_count(
                    p.known,
                    sys.num_vars,
                    num_outputs,
                )
                &&& total == sys.num_vars + num_outputs
            }
        }),
{
    if sys.valid() && num_outputs <= sys.num_inputs && inputs.len() == sys.num_inputs
        - num_outputs {
        if let Ok((vars, io)) = r {
            if let Pass::Running(p) = forward(sys, num_outputs, inputs, sys.num_cons) {
                assert(determined(sys, num_outputs, inputs) == Some(p.z));
                lemma_determined(sys, num_outputs, inputs);
                assert(values(vars@).len() == sys.num_vars);
                assert(values(io@).len() == sys.num_inputs);
                assert(p.z =~= values(vars@) + seq![1int] + values(io@));
            }
        }
    }
}

} // verus!
