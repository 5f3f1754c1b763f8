//! What the forward pass guarantees.
use crate::field::{
    cong, ell, inverse, is_unit, lemma_cong_add, lemma_cong_mul, lemma_cong_sub, lemma_cong_zero,
    lemma_mod_range, lemma_unit_cancel, lemma_unit_solves,
};
use crate::forward::{determined, lemma_unknown_below, solver_returns};
use crate::scalar::{values, Scalar};
use crate::system::{
    ambiguous, assignment, coeff, complete, count_true, eval, eval_except, forward,
    lemma_complete_count, lemma_eval_cong, lemma_eval_except_cong, lemma_eval_split,
    lemma_row_below, mentions, pivot, quadratic, solved_count, start, target, unknown, Partial,
    Pass, Row, System,
};
use vstd::prelude::*;

verus! {

/// Whether the circuit inputs of an assignment are the given ones.
pub open spec fn has_inputs(sys: System, num_outputs: nat, inputs: Seq<int>, z: Seq<int>) -> bool {
    forall|i: int|
        0 <= i < inputs.len() ==> cong(
            #[trigger] z[sys.num_vars + 1 + num_outputs + i],
            inputs[i],
        )
}

/// Whether an assignment agrees with everything that is known.
pub open spec fn agrees(p: Partial, z: Seq<int>) -> bool {
    forall|c: int| 0 <= c < p.known.len() && #[trigger] p.known[c] ==> cong(z[c], p.z[c])
}

/// A row with one unknown says `pivot * z[j] == target`, given that the unknown is not
/// in both factors.
pub proof fn lemma_row_pins(row: Row, j: int, z: Seq<int>)
    requires
        !quadratic(row, j),
    ensures
        row.holds(z) <==> cong(pivot(row, j, z) * z[j], target(row, j, z)),
{
    let ak = eval_except(row.a, j, z);
    let bk = eval_except(row.b, j, z);
    let ck = eval_except(row.c, j, z);
    let aj = coeff(row.a, j);
    let bj = coeff(row.b, j);
    let cj = coeff(row.c, j);
    let x = z[j];
    lemma_eval_split(row.a, j, z);
    lemma_eval_split(row.b, j, z);
    lemma_eval_split(row.c, j, z);
    let d = aj * bk + bj * ak - cj;
    let t = ck - ak * bk;
    let lhs = (ak + aj * x) * (bk + bj * x);
    let rhs = ck + cj * x;
    assert((ak + aj * x) * (bk + bj * x) == ak * bk + ak * (bj * x) + (aj * x) * bk + (aj * x) * (bj
        * x)) by (nonlinear_arith);
    assert(ak * (bj * x) == (bj * ak) * x) by (nonlinear_arith);
    assert((aj * x) * bk == (aj * bk) * x) by (nonlinear_arith);
    assert((aj * x) * (bj * x) == (aj * bj) * (x * x)) by (nonlinear_arith);
    assert(d * x == (aj * bk) * x + (bj * ak) * x - cj * x) by (nonlinear_arith)
        requires
            d == aj * bk + bj * ak - cj,
    ;
    assert(lhs - rhs == (d * x - t) + (aj * bj) * (x * x));
    assert(cong(aj * bj, 0)) by {
        if cong(aj, 0) {
            lemma_cong_mul(aj, 0, bj, bj);
        } else {
            lemma_cong_mul(aj, aj, bj, 0);
        }
    }
    lemma_cong_mul(aj * bj, 0, x * x, x * x);
    lemma_cong_add(d * x - t, d * x - t, (aj * bj) * (x * x), 0);
    assert(cong(lhs - rhs, d * x - t));
    lemma_cong_zero(lhs, rhs);
    lemma_cong_zero(d * x, t);
}

/// The pivot and the target of a row depend on its other columns alone.
pub proof fn lemma_pivot_cong(row: Row, j: int, y: Seq<int>, z: Seq<int>)
    requires
        forall|c: int| #[trigger] row.mentions(c) && c != j ==> cong(y[c], z[c]),
    ensures
        cong(pivot(row, j, y), pivot(row, j, z)),
        cong(target(row, j, y), target(row, j, z)),
{
    assert forall|c: int| #[trigger] mentions(row.a, c) && c != j implies cong(y[c], z[c]) by {
        assert(row.mentions(c));
    }
    assert forall|c: int| #[trigger] mentions(row.b, c) && c != j implies cong(y[c], z[c]) by {
        assert(row.mentions(c));
    }
    assert forall|c: int| #[trigger] mentions(row.c, c) && c != j implies cong(y[c], z[c]) by {
        assert(row.mentions(c));
    }
    lemma_eval_except_cong(row.a, j, y, z);
    lemma_eval_except_cong(row.b, j, y, z);
    lemma_eval_except_cong(row.c, j, y, z);
    let (ay, az) = (eval_except(row.a, j, y), eval_except(row.a, j, z));
    let (by, bz) = (eval_except(row.b, j, y), eval_except(row.b, j, z));
    let (cy, cz) = (eval_except(row.c, j, y), eval_except(row.c, j, z));
    let aj = coeff(row.a, j);
    let bj = coeff(row.b, j);
    let cj = coeff(row.c, j);
    lemma_cong_mul(aj, aj, by, bz);
    lemma_cong_mul(bj, bj, ay, az);
    lemma_cong_add(aj * by, aj * bz, bj * ay, bj * az);
    lemma_cong_sub(aj * by + bj * ay, aj * bz + bj * az, cj, cj);
    lemma_cong_mul(ay, az, by, bz);
    lemma_cong_sub(cy, cz, ay * by, az * bz);
}

/// The lengths, the constant and the inputs survive the pass.
pub proof fn lemma_forward_shape(sys: System, num_outputs: nat, inputs: Seq<int>, n: nat, p: Partial)
    requires
        sys.entries_valid(),
        num_outputs + inputs.len() == sys.num_inputs,
        n <= sys.num_cons,
        forward(sys, num_outputs, inputs, n) == Pass::Running(p),
    ensures
        p.z.len() == sys.z_len(),
        p.known.len() == sys.z_len(),
        forall|c: int| start(sys, num_outputs, inputs).known[c] && 0 <= c < sys.z_len() ==> {
            &&& #[trigger] p.known[c]
            &&& p.z[c] == start(sys, num_outputs, inputs).z[c]
        },
    decreases n,
{
    if n > 0 {
        match forward(sys, num_outputs, inputs, (n - 1) as nat) {
            Pass::Running(q) => {
                lemma_forward_shape(sys, num_outputs, inputs, (n - 1) as nat, q);
                lemma_sys_row_below(sys, n - 1);
                let row = sys.row(n - 1);
                if !ambiguous(row, q.known) && exists|c: int| unknown(row, q.known, c) {
                    let j = choose|c: int| unknown(row, q.known, c);
                    lemma_unknown_below(row, q.known, sys.z_len() as int, j);
                }
                let s = start(sys, num_outputs, inputs);
                assert forall|c: int| s.known[c] && 0 <= c < sys.z_len() implies {
                    &&& #[trigger] p.known[c]
                    &&& p.z[c] == s.z[c]
                } by {
                    assert(q.known[c]);
                }
            },
            _ => {},
        }
    }
}

pub proof fn lemma_sys_row_below(sys: System, r: int)
    requires
        sys.entries_valid(),
    ensures
        sys.row(r).below(sys.z_len() as int),
{
    lemma_row_below(sys.a, r, sys.num_cons, sys.z_len());
    lemma_row_below(sys.b, r, sys.num_cons, sys.z_len());
    lemma_row_below(sys.c, r, sys.num_cons, sys.z_len());
}

/// Every satisfying assignment with the given inputs agrees with what the pass knows.
pub proof fn lemma_forward_agrees(
    sys: System,
    num_outputs: nat,
    inputs: Seq<int>,
    n: nat,
    p: Partial,
    z: Seq<int>,
)
    requires
        sys.entries_valid(),
        num_outputs + inputs.len() == sys.num_inputs,
        n <= sys.num_cons,
        forward(sys, num_outputs, inputs, n) == Pass::Running(p),
        sys.satisfied(z),
        has_inputs(sys, num_outputs, inputs, z),
    ensures
        agrees(p, z),
    decreases n,
{
    if n == 0 {
        let first = sys.num_vars + 1 + num_outputs;
        assert forall|c: int| 0 <= c < p.known.len() && #[trigger] p.known[c] implies cong(
            z[c],
            p.z[c],
        ) by {
            if c != sys.num_vars {
                assert(cong(z[first + (c - first)], inputs[c - first]));
            }
        }
    } else {
        match forward(sys, num_outputs, inputs, (n - 1) as nat) {
            Pass::Running(q) => {
                lemma_forward_agrees(sys, num_outputs, inputs, (n - 1) as nat, q, z);
                lemma_forward_shape(sys, num_outputs, inputs, (n - 1) as nat, q);
                lemma_sys_row_below(sys, n - 1);
                let row = sys.row(n - 1);
                if !ambiguous(row, q.known) && exists|c: int| unknown(row, q.known, c) {
                    let j = choose|c: int| unknown(row, q.known, c);
                    lemma_unknown_below(row, q.known, sys.z_len() as int, j);
                    assert forall|c: int| #[trigger] row.mentions(c) && c != j implies cong(
                        z[c],
                        q.z[c],
                    ) by {
                        lemma_unknown_below(row, q.known, sys.z_len() as int, c);
                        assert(!unknown(row, q.known, c));
                    }
                    let d = pivot(row, j, q.z);
                    if !quadratic(row, j) && is_unit(d) {
                        assert(row.holds(z));
                        lemma_row_pins(row, j, z);
                        lemma_pivot_cong(row, j, z, q.z);
                        let t = target(row, j, q.z);
                        let v = t * inverse(d);
                        lemma_cong_mul(pivot(row, j, z), d, z[j], z[j]);
                        lemma_unit_solves(d, t);
                        lemma_unit_cancel(d, z[j], v);
                        lemma_mod_range(v);
                    }
                }
            },
            _ => {},
        }
    }
}

/// A circuit on which the pass succeeds is a function of its inputs: an assignment that
/// satisfies every constraint is the one that the pass computes.
pub proof fn law_unique_witness(
    sys: System,
    num_outputs: nat,
    inputs: Seq<int>,
    p: Partial,
    z: Seq<int>,
)
    requires
        sys.valid(),
        num_outputs + inputs.len() == sys.num_inputs,
        forward(sys, num_outputs, inputs, sys.num_cons) == Pass::Running(p),
        complete(p.known, sys.num_vars, num_outputs),
        sys.satisfied(z),
        has_inputs(sys, num_outputs, inputs, z),
    ensures
        forall|c: int| 0 <= c < sys.z_len() ==> cong(#[trigger] z[c], p.z[c]),
        sys.satisfied(p.z),
{
    lemma_forward_agrees(sys, num_outputs, inputs, sys.num_cons, p, z);
    lemma_forward_shape(sys, num_outputs, inputs, sys.num_cons, p);
    let s = start(sys, num_outputs, inputs);
    assert forall|c: int| 0 <= c < sys.z_len() implies cong(#[trigger] z[c], p.z[c]) by {
        if c >= sys.num_vars + 1 + num_outputs || c == sys.num_vars {
            assert(s.known[c]);
        }
        assert(p.known[c]);
    }
    assert(s.known[sys.num_vars as int]);
    assert(p.known[sys.num_vars as int]);
    assert forall|r: int| 0 <= r < sys.num_cons implies (#[trigger] sys.row(r)).holds(p.z) by {
        lemma_sys_row_below(sys, r);
        lemma_holds_cong(sys.row(r), z, p.z, sys.z_len() as int);
    }
}

/// Whether a row holds depends on the field elements in its columns alone.
proof fn lemma_holds_on_columns(row: Row, y: Seq<int>, z: Seq<int>)
    requires
        forall|c: int| #[trigger] row.mentions(c) ==> cong(y[c], z[c]),
    ensures
        row.holds(y) <==> row.holds(z),
{
    assert forall|c: int| #[trigger] mentions(row.a, c) implies cong(y[c], z[c]) by {
        assert(row.mentions(c));
    }
    assert forall|c: int| #[trigger] mentions(row.b, c) implies cong(y[c], z[c]) by {
        assert(row.mentions(c));
    }
    assert forall|c: int| #[trigger] mentions(row.c, c) implies cong(y[c], z[c]) by {
        assert(row.mentions(c));
    }
    lemma_eval_cong(row.a, y, z);
    lemma_eval_cong(row.b, y, z);
    lemma_eval_cong(row.c, y, z);
    lemma_cong_mul(eval(row.a, y), eval(row.a, z), eval(row.b, y), eval(row.b, z));
}

pub proof fn lemma_holds_cong(row: Row, y: Seq<int>, z: Seq<int>, n: int)
    requires
        row.below(n),
        forall|c: int| 0 <= c < n ==> cong(#[trigger] y[c], z[c]),
    ensures
        row.holds(y) <==> row.holds(z),
{
    assert forall|c: int| #[trigger] row.mentions(c) implies cong(y[c], z[c]) by {
        lemma_unknown_below(row, Seq::empty(), n, c);
    }
    lemma_holds_on_columns(row, y, z);
}

/// Two satisfying assignments with the same inputs are the same assignment, so the
/// outputs of such a circuit are determined by its inputs.
pub proof fn law_outputs_determined(
    sys: System,
    num_outputs: nat,
    inputs: Seq<int>,
    p: Partial,
    y: Seq<int>,
    z: Seq<int>,
)
    requires
        sys.valid(),
        num_outputs + inputs.len() == sys.num_inputs,
        forward(sys, num_outputs, inputs, sys.num_cons) == Pass::Running(p),
        complete(p.known, sys.num_vars, num_outputs),
        sys.satisfied(y),
        sys.satisfied(z),
        has_inputs(sys, num_outputs, inputs, y),
        has_inputs(sys, num_outputs, inputs, z),
    ensures
        forall|c: int| 0 <= c < sys.z_len() ==> cong(#[trigger] y[c], z[c]),
{
    law_unique_witness(sys, num_outputs, inputs, p, y);
    law_unique_witness(sys, num_outputs, inputs, p, z);
}

/// The dimensions of an assignment that the solver finds, and its constant.
pub proof fn lemma_determined(sys: System, num_outputs: nat, inputs: Seq<int>)
    requires
        determined(sys, num_outputs, inputs) is Some,
    ensures
        determined(sys, num_outputs, inputs)->0.len() == sys.z_len(),
        determined(sys, num_outputs, inputs)->0[sys.num_vars as int] == 1,
{
    if let Pass::Running(p) = forward(sys, num_outputs, inputs, sys.num_cons) {
        lemma_forward_shape(sys, num_outputs, inputs, sys.num_cons, p);
        let s = start(sys, num_outputs, inputs);
        assert(s.known[sys.num_vars as int]);
        assert(p.known[sys.num_vars as int]);
    }
}

/// An assignment that the solver finds ends with the inputs.
pub proof fn lemma_determined_inputs(sys: System, num_outputs: nat, inputs: Seq<int>)
    requires
        determined(sys, num_outputs, inputs) is Some,
        num_outputs <= sys.num_inputs,
    ensures
        determined(sys, num_outputs, inputs)->0.skip(sys.num_vars as int + 1 + num_outputs)
            == inputs,
{
    if let Pass::Running(p) = forward(sys, num_outputs, inputs, sys.num_cons) {
        lemma_forward_shape(sys, num_outputs, inputs, sys.num_cons, p);
        let s = start(sys, num_outputs, inputs);
        let first = sys.num_vars as int + 1 + num_outputs;
        assert forall|i: int| 0 <= i < inputs.len() implies p.z[first + i] == inputs[i] by {
            assert(s.known[first + i]);
            assert(p.known[first + i]);
        }
        assert(p.z.skip(first) =~= inputs);
    }
}

// Each row determines at most one column.

proof fn lemma_count_none(s: Seq<bool>, n: int)
    requires
        0 <= n <= s.len(),
        forall|i: int| 0 <= i < n ==> !s[i],
    ensures
        count_true(s, n) == 0,
    decreases n,
{
    if n > 0 {
        lemma_count_none(s, n - 1);
    }
}

proof fn lemma_count_update(s: Seq<bool>, j: int, n: int)
    requires
        0 <= j < s.len(),
        n <= s.len(),
    ensures
        count_true(s.update(j, true), n) <= count_true(s, n) + (if j < n {
            1nat
        } else {
            0nat
        }),
    decreases n,
{
    if n > 0 {
        lemma_count_update(s, j, n - 1);
    }
}

/// One more known column raises the count by at most one.
proof fn lemma_solved_step(known: Seq<bool>, j: int, num_vars: nat, num_outputs: nat)
    requires
        0 <= j < known.len(),
        num_vars + 1 + num_outputs <= known.len(),
    ensures
        solved_count(known.update(j, true), num_vars, num_outputs) <= solved_count(
            known,
            num_vars,
            num_outputs,
        ) + 1,
{
    let nv = num_vars as int;
    let tail = known.skip(nv + 1);
    lemma_count_update(known, j, nv);
    if j > nv {
        assert(known.update(j, true).skip(nv + 1) =~= tail.update(j - nv - 1, true));
        lemma_count_update(tail, j - nv - 1, num_outputs as int);
    } else {
        assert(known.update(j, true).skip(nv + 1) =~= tail);
    }
}

proof fn lemma_solved_count(
    sys: System,
    num_outputs: nat,
    inputs: Seq<int>,
    n: nat,
    p: Partial,
)
    requires
        sys.entries_valid(),
        num_outputs + inputs.len() == sys.num_inputs,
        n <= sys.num_cons,
        forward(sys, num_outputs, inputs, n) == Pass::Running(p),
    ensures
        solved_count(p.known, sys.num_vars, num_outputs) <= n,
    decreases n,
{
    let nv = sys.num_vars as int;
    let no = num_outputs as int;
    if n == 0 {
        lemma_count_none(p.known, nv);
        lemma_count_none(p.known.skip(nv + 1), no);
    } else {
        match forward(sys, num_outputs, inputs, (n - 1) as nat) {
            Pass::Running(q) => {
                lemma_solved_count(sys, num_outputs, inputs, (n - 1) as nat, q);
                lemma_forward_shape(sys, num_outputs, inputs, (n - 1) as nat, q);
                let row = sys.row(n - 1);
                lemma_sys_row_below(sys, n - 1);
                if exists|c: int| unknown(row, q.known, c) {
                    let j = choose|c: int| unknown(row, q.known, c);
                    lemma_unknown_below(row, q.known, sys.z_len() as int, j);
                    lemma_solved_step(q.known, j, sys.num_vars, num_outputs);
                }
            },
            _ => {},
        }
    }
}

/// A circuit has to have a row for each variable and each output: with fewer rows, as when
/// rows were deleted, the pass does not determine everything.
pub proof fn law_rows_needed(sys: System, num_outputs: nat, inputs: Seq<int>, p: Partial)
    requires
        sys.entries_valid(),
        num_outputs + inputs.len() == sys.num_inputs,
        forward(sys, num_outputs, inputs, sys.num_cons) == Pass::Running(p),
        complete(p.known, sys.num_vars, num_outputs),
    ensures
        sys.num_vars + num_outputs <= sys.num_cons,
{
    lemma_solved_count(sys, num_outputs, inputs, sys.num_cons, p);
    lemma_forward_shape(sys, num_outputs, inputs, sys.num_cons, p);
    lemma_complete_count(p.known, sys.num_vars, num_outputs);
}

/// The solver refuses a circuit with fewer rows than variables and outputs.
pub proof fn law_deleted_rows_refused(sys: System, num_outputs: nat, inputs: Seq<int>)
    requires
        sys.num_cons < sys.num_vars + num_outputs,
    ensures
        determined(sys, num_outputs, inputs) is None,
{
    if determined(sys, num_outputs, inputs) is Some {
        if let Pass::Running(p) = forward(sys, num_outputs, inputs, sys.num_cons) {
            law_rows_needed(sys, num_outputs, inputs, p);
        }
    }
}

/// A row that pins its unknown holds from then on.
proof fn lemma_pinned_row(row: Row, q: Partial, p: Partial, j: int, n: int)
    requires
        row.below(n),
        q.z.len() == n,
        q.known.len() == n,
        !ambiguous(row, q.known),
        unknown(row, q.known, j),
        !quadratic(row, j),
        is_unit(pivot(row, j, q.z)),
        p.z == q.z.update(
            j,
            (target(row, j, q.z) * inverse(pivot(row, j, q.z))) % ell(),
        ),
        p.known == q.known.update(j, true),
    ensures
        row.holds(p.z),
        forall|c: int| #[trigger] row.mentions(c) ==> 0 <= c < n && p.known[c],
{
    lemma_unknown_below(row, q.known, n, j);
    assert forall|c: int| #[trigger] row.mentions(c) implies 0 <= c < n && p.known[c] && (c != j
        ==> p.z[c] == q.z[c]) by {
        lemma_unknown_below(row, q.known, n, c);
        if c != j {
            assert(!unknown(row, q.known, c));
        }
    }
    let d = pivot(row, j, q.z);
    let t = target(row, j, q.z);
    let v = t * inverse(d);
    lemma_row_pins(row, j, p.z);
    lemma_pivot_cong(row, j, p.z, q.z);
    lemma_mod_range(v);
    lemma_cong_mul(pivot(row, j, p.z), d, v % ell(), v);
    lemma_unit_solves(d, t);
}

/// Where every row has pinned a column so far, all of these rows hold.
proof fn lemma_rows_pinned(sys: System, num_outputs: nat, inputs: Seq<int>, n: nat, p: Partial)
    requires
        sys.entries_valid(),
        num_outputs + inputs.len() == sys.num_inputs,
        n <= sys.num_cons,
        forward(sys, num_outputs, inputs, n) == Pass::Running(p),
        solved_count(p.known, sys.num_vars, num_outputs) == n,
    ensures
        forall|r: int| 0 <= r < n ==> (#[trigger] sys.row(r)).holds(p.z),
        forall|r: int, c: int|
            0 <= r < n && #[trigger] sys.row(r).mentions(c) ==> 0 <= c < sys.z_len() && p.known[c],
    decreases n,
{
    if n > 0 {
        match forward(sys, num_outputs, inputs, (n - 1) as nat) {
            Pass::Running(q) => {
                lemma_solved_count(sys, num_outputs, inputs, (n - 1) as nat, q);
                lemma_forward_shape(sys, num_outputs, inputs, (n - 1) as nat, q);
                let row = sys.row(n - 1);
                lemma_sys_row_below(sys, n - 1);
                assert(exists|c: int| unknown(row, q.known, c));
                let j = choose|c: int| unknown(row, q.known, c);
                lemma_unknown_below(row, q.known, sys.z_len() as int, j);
                lemma_solved_step(q.known, j, sys.num_vars, num_outputs);
                assert(is_unit(pivot(row, j, q.z)));
                lemma_rows_pinned(sys, num_outputs, inputs, (n - 1) as nat, q);
                lemma_pinned_row(row, q, p, j, sys.z_len() as int);
                assert forall|r: int| 0 <= r < n implies (#[trigger] sys.row(r)).holds(p.z) by {
                    if r < n - 1 {
                        let other = sys.row(r);
                        assert forall|c: int| #[trigger] other.mentions(c) implies cong(
                            q.z[c],
                            p.z[c],
                        ) by {
                            assert(q.known[c]);
                        }
                        lemma_holds_on_columns(other, q.z, p.z);
                    }
                }
            },
            _ => {},
        }
    }
}

/// A circuit with just as many rows as variables and outputs is satisfied by what the solver
/// finds: every row pinned one unknown.
pub proof fn law_solved_satisfies(
    sys: System,
    num_outputs: nat,
    inputs: Seq<int>,
    vars: Vec<Scalar>,
    io: Vec<Scalar>,
)
    requires
        sys.num_cons == sys.num_vars + num_outputs,
        solver_returns(sys, num_outputs, inputs, Ok((vars, io))),
    ensures
        sys.valid(),
        vars@.len() == sys.num_vars,
        io@.len() == sys.num_inputs,
        sys.satisfied(assignment(values(vars@), values(io@))),
{
    if let Pass::Running(p) = forward(sys, num_outputs, inputs, sys.num_cons) {
        lemma_forward_shape(sys, num_outputs, inputs, sys.num_cons, p);
        lemma_complete_count(p.known, sys.num_vars, num_outputs);
        lemma_rows_pinned(sys, num_outputs, inputs, sys.num_cons, p);
        lemma_determined(sys, num_outputs, inputs);
        assert(values(vars@).len() == sys.num_vars);
        assert(values(io@).len() == sys.num_inputs);
        assert(assignment(values(vars@), values(io@)) =~= p.z);
    }
}

} // verus!
