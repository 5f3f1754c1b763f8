//! Witnesses by a single pass over the rows of a constraint system.
use crate::field::{
    cong, ell, is_unit, lemma_cong_add, lemma_cong_mul, lemma_cong_sub, lemma_ell, lemma_mod_range,
    lemma_reduced, lemma_unit_cong,
};
use crate::r1cs::{
    accumulate, build_row_views, lin, malformed_reason, validate_instance, SparseRow,
    SpartanInstance, WitnessError,
};
use crate::scalar::{lemma_scalar_range, values, Scalar};
use crate::system::{
    ambiguous, coeff, complete, count_true, eval_except, forward, lemma_complete_count,
    lemma_mentions_push, lemma_row_below, lin_below, mentions, pivot, quadratic, solved_count,
    start, target, unknown, Lin, Partial, Pass, Row, System,
};
use vstd::prelude::*;

verus! {

broadcast use lemma_scalar_range;

/// Column `c` was found before, or is an unknown column of the form.
spec fn candidate(found: Option<usize>, l: Lin, known: Seq<bool>, c: int) -> bool {
    (found matches Some(f) && f as int == c) || (mentions(l, c) && !known[c])
}

/// Extends a search for unknown columns by one linear form. The search gives up as
/// soon as two different unknown columns turn up.
fn scan_unknown(row: &SparseRow, solved: &Vec<bool>, found: Option<usize>) -> (r: (
    Option<usize>,
    bool,
))
    requires
        lin_below(lin(row@), solved@.len() as int),
    ensures
        !r.1 ==> forall|c: int|
            (r.0 matches Some(f) && f as int == c) <==> #[trigger] candidate(
                found,
                lin(row@),
                solved@,
                c,
            ),
        r.1 ==> exists|c: int, d: int|
            {
                &&& c != d
                &&& #[trigger] candidate(found, lin(row@), solved@, c)
                &&& #[trigger] candidate(found, lin(row@), solved@, d)
            },
{
    let mut seen: Option<usize> = found;
    let n: usize = row.len();
    let mut i: usize = 0;
    let ghost l = lin(row@);
    assert(l.take(0) =~= Seq::empty());
    while i < n
        invariant
            n == row@.len(),
            i <= n,
            l == lin(row@),
            lin_below(l, solved@.len() as int),
            forall|c: int|
                (seen matches Some(f) && f as int == c) <==> #[trigger] candidate(
                    found,
                    l.take(i as int),
                    solved@,
                    c,
                ),
        decreases n - i,
    {
        let col: usize = row[i].0;
        let ghost now = l.take(i as int);
        let ghost next = l.take(i + 1);
        proof {
            assert(l[i as int].0 == col);
            assert(next.drop_last() =~= now);
            assert(next.last() == l[i as int]);
            assert forall|c: int| #[trigger] candidate(found, next, solved@, c) <==> candidate(
                found,
                now,
                solved@,
                c,
            ) || (c == col && !solved@[c]) by {
                lemma_mentions_push(next, c);
            }
        }
        if !solved[col] {
            match seen {
                None => {
                    seen = Some(col);
                },
                Some(prev) => {
                    if prev != col {
                        proof {
                            assert(candidate(found, now, solved@, prev as int));
                            assert forall|c: int| candidate(found, next, solved@, c) implies candidate(
                                found,
                                l,
                                solved@,
                                c,
                            ) by {
                                if mentions(next, c) {
                                    let k = choose|k: int|
                                        0 <= k < next.len() && (#[trigger] next[k]).0 == c;
                                    assert(l[k].0 == c);
                                }
                            }
                            assert(candidate(found, next, solved@, prev as int));
                            assert(candidate(found, next, solved@, col as int));
                        }
                        return (seen, true);
                    }
                },
            }
        }
        i += 1;
    }
    assert(l.take(n as int) =~= l);
    (seen, false)
}

/// Looks for the unknown columns of a row: the only one, or whether there are several.
fn find_unknown(a: &SparseRow, b: &SparseRow, c: &SparseRow, solved: &Vec<bool>) -> (r: (
    Option<usize>,
    bool,
))
    requires
        lin_below(lin(a@), solved@.len() as int),
        lin_below(lin(b@), solved@.len() as int),
        lin_below(lin(c@), solved@.len() as int),
    ensures
        r.1 == ambiguous((Row { a: lin(a@), b: lin(b@), c: lin(c@) }), solved@),
        !r.1 ==> forall|j: int|
            (r.0 matches Some(f) && f as int == j) <==> #[trigger] unknown(
                (Row { a: lin(a@), b: lin(b@), c: lin(c@) }),
                solved@,
                j,
            ),
{
    let ghost row = Row { a: lin(a@), b: lin(b@), c: lin(c@) };
    let none: Option<usize> = None;
    let (in_a, several_a) = scan_unknown(a, solved, none);
    if several_a {
        proof {
            let (x, y) = choose|x: int, y: int|
                x != y && #[trigger] candidate(none, lin(a@), solved@, x) && #[trigger] candidate(
                    none,
                    lin(a@),
                    solved@,
                    y,
                );
            assert(unknown(row, solved@, x) && unknown(row, solved@, y));
        }
        return (None, true);
    }
    let (in_ab, several_b) = scan_unknown(b, solved, in_a);
    assert forall|j: int| candidate(in_a, lin(b@), solved@, j) implies unknown(row, solved@, j) by {
        assert(candidate(none, lin(a@), solved@, j) || mentions(lin(b@), j));
    }
    if several_b {
        proof {
            let (x, y) = choose|x: int, y: int|
                x != y && #[trigger] candidate(in_a, lin(b@), solved@, x) && #[trigger] candidate(
                    in_a,
                    lin(b@),
                    solved@,
                    y,
                );
            assert(unknown(row, solved@, x) && unknown(row, solved@, y));
        }
        return (None, true);
    }
    let (found, several) = scan_unknown(c, solved, in_ab);
    assert forall|j: int|
        unknown(row, solved@, j) <==> candidate(in_ab, lin(c@), solved@, j) by {
        let f = candidate(none, lin(a@), solved@, j);
        let g = candidate(in_a, lin(b@), solved@, j);
    }
    if several {
        proof {
            let (x, y) = choose|x: int, y: int|
                x != y && #[trigger] candidate(in_ab, lin(c@), solved@, x) && #[trigger] candidate(
                    in_ab,
                    lin(c@),
                    solved@,
                    y,
                );
            assert(unknown(row, solved@, x) && unknown(row, solved@, y));
        }
        return (None, true);
    }
    assert forall|j: int|
        (found matches Some(f) && f as int == j) <==> #[trigger] unknown(row, solved@, j) by {
        let f = candidate(in_ab, lin(c@), solved@, j);
    }
    assert(!ambiguous(row, solved@));
    (found, false)
}

/// Whether the variables and the outputs are all determined, and if not, how many are. The
/// outputs follow the column of the constant.
pub fn check_convergence(
    solved: &Vec<bool>,
    num_vars: usize,
    num_outputs: usize,
    const_col: usize,
) -> (r: Result<(), WitnessError>)
    requires
        num_vars <= solved@.len(),
        const_col + 1 + num_outputs <= solved@.len(),
        num_vars + num_outputs <= usize::MAX,
    ensures
        ({
            let known = count_true(solved@, num_vars as int) + count_true(
                solved@.skip(const_col + 1),
                num_outputs as int,
            );
            match r {
                Ok(_) => known == num_vars + num_outputs,
                Err(WitnessError::SolverStuck { solved: count, total }) => {
                    &&& count == known
                    &&& total == num_vars + num_outputs
                    &&& known < total
                },
                Err(_) => false,
            }
        }),
{
    let len: usize = solved.len();
    let total: usize = num_vars + num_outputs;
    let mut count: usize = 0;
    let mut i: usize = 0;
    while i < num_vars
        invariant
            num_vars <= solved@.len(),
            i <= num_vars,
            count == count_true(solved@, i as int),
            count <= i,
        decreases num_vars - i,
    {
        if solved[i] {
            count += 1;
        }
        i += 1;
    }
    let ghost tail = solved@.skip(const_col + 1);
    let mut k: usize = 0;
    while k < num_outputs
        invariant
            len == solved@.len(),
            const_col + 1 + num_outputs <= len,
            num_vars + num_outputs <= usize::MAX,
            tail == solved@.skip(const_col + 1),
            k <= num_outputs,
            count == count_true(solved@, num_vars as int) + count_true(tail, k as int),
            count <= num_vars + k,
        decreases num_outputs - k,
    {
        if solved[const_col + 1 + k] {
            count += 1;
        }
        k += 1;
    }
    if count < total {
        Err(WitnessError::SolverStuck { solved: count, total })
    } else {
        Ok(())
    }
}

/// Cuts a full assignment into its variables and its public values.
pub fn extract_result(z: &Vec<Scalar>, instance: &SpartanInstance) -> (r: (
    Vec<Scalar>,
    Vec<Scalar>,
))
    requires
        z@.len() == instance@.z_len(),
    ensures
        r.0@ == z@.take(instance.num_vars as int),
        r.1@ == z@.skip(instance.num_vars as int + 1),
{
    let mut vars: Vec<Scalar> = Vec::new();
    let mut i: usize = 0;
    while i < instance.num_vars
        invariant
            z@.len() == instance@.z_len(),
            i <= instance.num_vars,
            vars@ == z@.take(i as int),
        decreases instance.num_vars - i,
    {
        vars.push(z[i]);
        i += 1;
    }
    let mut public_io: Vec<Scalar> = Vec::new();
    let n: usize = z.len();
    let mut k: usize = instance.num_vars + 1;
    while k < n
        invariant
            n == z@.len(),
            z@.len() == instance@.z_len(),
            instance.num_vars + 1 <= k <= n,
            public_io@ == z@.subrange(instance.num_vars + 1, k as int),
        decreases n - k,
    {
        public_io.push(z[k]);
        k += 1;
    }
    (vars, public_io)
}

/// A pass that has failed stays failed.
pub proof fn lemma_forward_failed(
    sys: System,
    num_outputs: nat,
    inputs: Seq<int>,
    n: nat,
    m: nat,
)
    requires
        n <= m,
        !(forward(sys, num_outputs, inputs, n) is Running),
    ensures
        forward(sys, num_outputs, inputs, m) == forward(sys, num_outputs, inputs, n),
    decreases m,
{
    if n < m {
        lemma_forward_failed(sys, num_outputs, inputs, n, (m - 1) as nat);
    }
}

/// What the exact pass says that the solver returns on an instance that passes the
/// structural checks and fits the inputs.
pub open spec fn forward_result(
    sys: System,
    num_outputs: nat,
    inputs: Seq<int>,
    r: Result<(Vec<Scalar>, Vec<Scalar>), WitnessError>,
) -> bool {
    match forward(sys, num_outputs, inputs, sys.num_cons) {
        Pass::Running(p) => if complete(p.known, sys.num_vars, num_outputs) {
            r matches Ok((vars, io)) && values(vars@) == p.z.take(sys.num_vars as int) && values(
                io@,
            ) == p.z.skip(sys.num_vars as int + 1)
        } else {
            r matches Err(WitnessError::SolverStuck { solved, total }) && solved == solved_count(
                p.known,
                sys.num_vars,
                num_outputs,
            ) && total == sys.num_vars + num_outputs
        },
        Pass::Ambiguous(n) => r matches Err(WitnessError::NotInEvaluationOrder { row }) && row == n,
        Pass::NonLinear(n) => r matches Err(WitnessError::NonLinearUnknown { row }) && row == n,
    }
}

/// What the solver returns on an instance.
pub open spec fn solver_returns(
    sys: System,
    num_outputs: nat,
    inputs: Seq<int>,
    r: Result<(Vec<Scalar>, Vec<Scalar>), WitnessError>,
) -> bool {
    if !sys.valid() {
        r matches Err(WitnessError::MalformedInstance { reason }) && malformed_reason(sys) == Some(
            reason@,
        )
    } else if num_outputs > sys.num_inputs {
        r matches Err(WitnessError::MalformedInstance { reason }) && reason@
            == "num_inputs < num_outputs"@
    } else if inputs.len() != sys.num_inputs - num_outputs {
        r matches Err(WitnessError::InvalidInputs { expected, got }) && expected == sys.num_inputs
            - num_outputs && got == inputs.len()
    } else {
        forward_result(sys, num_outputs, inputs, r)
    }
}

/// The assignment that the solver finds, where it finds one.
pub open spec fn determined(sys: System, num_outputs: nat, inputs: Seq<int>) -> Option<Seq<int>> {
    if sys.valid() && inputs.len() == sys.num_inputs - num_outputs {
        match forward(sys, num_outputs, inputs, sys.num_cons) {
            Pass::Running(p) => if complete(p.known, sys.num_vars, num_outputs) {
                Some(p.z)
            } else {
                None
            },
            _ => None,
        }
    } else {
        None
    }
}

/// The assignment before the first row.
fn start_values(instance: &SpartanInstance, num_outputs: usize, circuit_inputs: &[Scalar]) -> (r: (
    Vec<Scalar>,
    Vec<bool>,
))
    requires
        instance@.z_len() <= usize::MAX,
        num_outputs + circuit_inputs@.len() == instance.num_inputs,
    ensures
        r.0@.len() == instance@.z_len(),
        values(r.0@) == start(instance@, num_outputs as nat, values(circuit_inputs@)).z,
        r.1@ == start(instance@, num_outputs as nat, values(circuit_inputs@)).known,
{
    let zero = Scalar::zero();
    let one = Scalar::one();
    let ghost p = start(instance@, num_outputs as nat, values(circuit_inputs@));
    let z_len: usize = instance.num_vars + 1 + instance.num_inputs;
    let first: usize = instance.num_vars + 1 + num_outputs;
    let mut z: Vec<Scalar> = Vec::new();
    let mut solved: Vec<bool> = Vec::new();
    let mut i: usize = 0;
    while i < z_len
        invariant
            z_len == instance@.z_len(),
            first == instance.num_vars + 1 + num_outputs,
            num_outputs + circuit_inputs@.len() == instance.num_inputs,
            p == start(instance@, num_outputs as nat, values(circuit_inputs@)),
            zero@ == 0,
            one@ == 1,
            i <= z_len,
            z@.len() == i,
            solved@.len() == i,
            forall|k: int| 0 <= k < i ==> (#[trigger] z@[k])@ == p.z[k],
            forall|k: int| 0 <= k < i ==> #[trigger] solved@[k] == p.known[k],
        decreases z_len - i,
    {
        if i == instance.num_vars {
            z.push(one);
            solved.push(true);
        } else if first <= i {
            z.push(circuit_inputs[i - first]);
            solved.push(true);
        } else {
            z.push(zero);
            solved.push(false);
        }
        i += 1;
    }
    assert(values(z@) =~= p.z);
    assert(solved@ =~= p.known);
    (z, solved)
}

/// Solves a row for its only unknown column `j`: the value, where the row pins one, or
/// an error where the column occurs in both factors.
fn solve_row(a: &SparseRow, b: &SparseRow, c: &SparseRow, j: usize, z: &Vec<Scalar>) -> (r: Result<
    Option<Scalar>,
    (),
>)
    requires
        lin_below(lin(a@), z@.len() as int),
        lin_below(lin(b@), z@.len() as int),
        lin_below(lin(c@), z@.len() as int),
    ensures
        ({
            let row = Row { a: lin(a@), b: lin(b@), c: lin(c@) };
            let zs = values(z@);
            match r {
                Err(_) => quadratic(row, j as int),
                Ok(None) => !quadratic(row, j as int) && !is_unit(pivot(row, j as int, zs)),
                Ok(Some(v)) => {
                    &&& !quadratic(row, j as int)
                    &&& is_unit(pivot(row, j as int, zs))
                    &&& v@ == (target(row, j as int, zs) * crate::field::inverse(
                        pivot(row, j as int, zs),
                    )) % ell()
                },
            }
        }),
{
    let ghost row = Row { a: lin(a@), b: lin(b@), c: lin(c@) };
    let ghost zs = values(z@);
    let ghost ji = j as int;
    let (a_known, a_j) = accumulate(a, j, z);
    let (b_known, b_j) = accumulate(b, j, z);
    let (c_known, c_j) = accumulate(c, j, z);
    proof {
        lemma_ell();
        lemma_reduced(0);
        lemma_mod_range(coeff(row.a, ji));
        lemma_mod_range(coeff(row.b, ji));
        lemma_mod_range(coeff(row.c, ji));
        lemma_mod_range(eval_except(row.a, ji, zs));
        lemma_mod_range(eval_except(row.b, ji, zs));
        lemma_mod_range(eval_except(row.c, ji, zs));
    }
    if !a_j.is_zero() && !b_j.is_zero() {
        return Err(());
    }
    let left = a_j.times(&b_known);
    let right = b_j.times(&a_known);
    let sum = left.plus(&right);
    let denom = sum.minus(&c_j);
    let ghost d = pivot(row, ji, zs);
    proof {
        let l = coeff(row.a, ji) * eval_except(row.b, ji, zs);
        let r = coeff(row.b, ji) * eval_except(row.a, ji, zs);
        lemma_cong_mul(a_j@, coeff(row.a, ji), b_known@, eval_except(row.b, ji, zs));
        lemma_cong_mul(b_j@, coeff(row.b, ji), a_known@, eval_except(row.a, ji, zs));
        lemma_mod_range(a_j@ * b_known@);
        lemma_mod_range(b_j@ * a_known@);
        lemma_mod_range(left@ + right@);
        lemma_mod_range(sum@ - c_j@);
        lemma_cong_add(left@, l, right@, r);
        lemma_cong_sub(sum@, l + r, c_j@, coeff(row.c, ji));
        assert(cong(denom@, d));
    }
    if denom.is_zero() {
        proof {
            if is_unit(d) {
                lemma_unit_cong(d, denom@);
            }
        }
        return Ok(None);
    }
    let product = a_known.times(&b_known);
    let num = c_known.minus(&product);
    let inv = denom.invert();
    let v = num.times(&inv);
    proof {
        lemma_unit_cong(denom@, d);
        let p = eval_except(row.a, ji, zs) * eval_except(row.b, ji, zs);
        lemma_cong_mul(a_known@, eval_except(row.a, ji, zs), b_known@, eval_except(row.b, ji, zs));
        lemma_mod_range(a_known@ * b_known@);
        lemma_cong_sub(c_known@, eval_except(row.c, ji, zs), product@, p);
        lemma_mod_range(c_known@ - product@);
        lemma_cong_mul(num@, target(row, ji, zs), inv@, inv@);
    }
    Ok(Some(v))
}

/// Computes the witness in one pass over the rows.
///
/// When a row is reached, all of its columns but at most one have to be known. A row
/// with several unknowns, or with its unknown in both factors, is refused. So is an instance
/// with fewer public values than outputs are asked for.
pub fn solve_witness_forward(
    instance: &SpartanInstance,
    num_outputs: usize,
    circuit_inputs: &[Scalar],
) -> (r: Result<(Vec<Scalar>, Vec<Scalar>), WitnessError>)
    ensures
        solver_returns(instance@, num_outputs as nat, values(circuit_inputs@), r),
{
    match validate_instance(instance) {
        Ok(_) => {},
        Err(e) => {
            return Err(e);
        },
    }
    if num_outputs > instance.num_inputs {
        return Err(WitnessError::MalformedInstance { reason: "num_inputs < num_outputs" });
    }
    let expected: usize = instance.num_inputs - num_outputs;
    if circuit_inputs.len() != expected {
        return Err(WitnessError::InvalidInputs { expected, got: circuit_inputs.len() });
    }
    let (a_rows, b_rows, c_rows) = build_row_views(instance);
    let (mut z, mut solved) = start_values(instance, num_outputs, circuit_inputs);
    let ghost sys = instance@;
    let ghost no = num_outputs as nat;
    let ghost inputs = values(circuit_inputs@);
    let ghost mut p = start(sys, no, inputs);
    let n: usize = instance.num_cons;
    let mut row: usize = 0;
    while row < n
        invariant
            n == instance.num_cons,
            sys == instance@,
            sys.valid(),
            no == num_outputs,
            inputs == values(circuit_inputs@),
            circuit_inputs@.len() == instance.num_inputs - num_outputs,
            num_outputs <= instance.num_inputs,
            row <= n,
            a_rows@.len() == n,
            b_rows@.len() == n,
            c_rows@.len() == n,
            forall|i: int| 0 <= i < n ==> lin((#[trigger] a_rows@[i])@) == sys.row(i).a,
            forall|i: int| 0 <= i < n ==> lin((#[trigger] b_rows@[i])@) == sys.row(i).b,
            forall|i: int| 0 <= i < n ==> lin((#[trigger] c_rows@[i])@) == sys.row(i).c,
            z@.len() == sys.z_len(),
            solved@.len() == sys.z_len(),
            values(z@) == p.z,
            solved@ == p.known,
            forward(sys, no, inputs, row as nat) == Pass::Running(p),
        decreases n - row,
    {
        let ghost r = sys.row(row as int);
        proof {
            lemma_row_below(sys.a, row as int, sys.num_cons, sys.z_len());
            lemma_row_below(sys.b, row as int, sys.num_cons, sys.z_len());
            lemma_row_below(sys.c, row as int, sys.num_cons, sys.z_len());
            assert(r == Row {
                a: lin(a_rows@[row as int]@),
                b: lin(b_rows@[row as int]@),
                c: lin(c_rows@[row as int]@),
            });
        }
        let (found, several) = find_unknown(&a_rows[row], &b_rows[row], &c_rows[row], &solved);
        if several {
            proof {
                lemma_forward_failed(sys, no, inputs, (row + 1) as nat, n as nat);
            }
            return Err(WitnessError::NotInEvaluationOrder { row });
        }
        if let Some(j) = found {
            proof {
                assert(unknown(r, p.known, j as int));
                assert(j as int == choose|c: int| unknown(r, p.known, c));
                lemma_unknown_below(r, p.known, sys.z_len() as int, j as int);
            }
            match solve_row(&a_rows[row], &b_rows[row], &c_rows[row], j, &z) {
                Err(_) => {
                    proof {
                        lemma_forward_failed(sys, no, inputs, (row + 1) as nat, n as nat);
                    }
                    return Err(WitnessError::NonLinearUnknown { row });
                },
                Ok(None) => {},
                Ok(Some(v)) => {
                    let ghost before = z@;
                    z.set(j, v);
                    solved.set(j, true);
                    proof {
                        p = Partial {
                            z: p.z.update(j as int, v@),
                            known: p.known.update(j as int, true),
                        };
                        assert(values(z@) =~= p.z);
                    }
                },
            }
        } else {
            assert(!exists|c: int| unknown(r, p.known, c));
        }
        row += 1;
    }
    proof {
        lemma_complete_count(solved@, sys.num_vars, no);
    }
    match check_convergence(&solved, instance.num_vars, num_outputs, instance.num_vars) {
        Ok(_) => {},
        Err(e) => {
            return Err(e);
        },
    }
    let result = extract_result(&z, instance);
    assert(values(result.0@) =~= p.z.take(sys.num_vars as int));
    assert(values(result.1@) =~= p.z.skip(sys.num_vars as int + 1));
    Ok(result)
}

/// An unknown column of a row lies in range.
pub proof fn lemma_unknown_below(row: Row, known: Seq<bool>, n: int, c: int)
    requires
        row.below(n),
        row.mentions(c),
    ensures
        0 <= c < n,
{
    if mentions(row.a, c) {
        let i = choose|i: int| 0 <= i < row.a.len() && (#[trigger] row.a[i]).0 == c;
    } else if mentions(row.b, c) {
        let i = choose|i: int| 0 <= i < row.b.len() && (#[trigger] row.b[i]).0 == c;
    } else {
        let i = choose|i: int| 0 <= i < row.c.len() && (#[trigger] row.c[i]).0 == c;
    }
}

} // verus!
