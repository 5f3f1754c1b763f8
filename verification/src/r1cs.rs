//! Sparse constraint systems and their witnesses.
use crate::field::{ell, lemma_cong_add, lemma_cong_mul, lemma_ell, lemma_mod_range, lemma_reduced};
use crate::scalar::{le_value, lemma_scalar_range, values, Scalar};
use crate::system::{
    assignment, coeff, entries_valid, eval, eval_except, lin_below, row_of, Lin, Row, System,
};
use crate::text::{append_field, decimal};
use vstd::prelude::*;

verus! {

broadcast use lemma_scalar_range;

/// A sparse matrix in coordinate form. Each entry is a row, a column and the
/// little-endian bytes of a coefficient.
pub type R1CSMatrix = Vec<(usize, usize, [u8; 32])>;

/// A row of a matrix, with its coefficients decoded.
pub type SparseRow = Vec<(usize, Scalar)>;

/// A sparse constraint system.
///
/// An assignment is laid out as `[variables | 1 | outputs | inputs]`. Row `i` asks for
/// `<A[i], z> * <B[i], z> == <C[i], z>`.
#[derive(Debug)]
#[allow(non_snake_case)]
pub struct SpartanInstance {
    pub num_cons: usize,
    pub num_vars: usize,
    pub num_inputs: usize,
    pub num_outputs: usize,
    pub A: R1CSMatrix,
    pub B: R1CSMatrix,
    pub C: R1CSMatrix,
}

/// The entries of a matrix as integers.
pub open spec fn entries(m: Seq<(usize, usize, [u8; 32])>) -> Seq<(int, int, int)> {
    Seq::new(m.len(), |i: int| (m[i].0 as int, m[i].1 as int, le_value(m[i].2@)))
}

/// A decoded row as a linear form.
pub open spec fn lin(row: Seq<(usize, Scalar)>) -> Lin {
    Seq::new(row.len(), |i: int| (row[i].0 as int, row[i].1@))
}

impl View for SpartanInstance {
    type V = System;

    open spec fn view(&self) -> System {
        System {
            num_cons: self.num_cons as nat,
            num_vars: self.num_vars as nat,
            num_inputs: self.num_inputs as nat,
            num_outputs: self.num_outputs as nat,
            a: entries(self.A@),
            b: entries(self.B@),
            c: entries(self.C@),
        }
    }
}

/// Copies a matrix.
pub fn copy_matrix(m: &R1CSMatrix) -> (r: R1CSMatrix)
    ensures
        r@ == m@,
{
    let mut r: R1CSMatrix = Vec::new();
    let n: usize = m.len();
    let mut i: usize = 0;
    while i < n
        invariant
            n == m@.len(),
            i <= n,
            r@ == m@.take(i as int),
        decreases n - i,
    {
        r.push(m[i]);
        i += 1;
    }
    assert(m@.take(n as int) =~= m@);
    r
}

impl Clone for SpartanInstance {
    fn clone(&self) -> (r: Self)
        ensures
            r@ == self@,
            r.A@ == self.A@,
            r.B@ == self.B@,
            r.C@ == self.C@,
    {
        SpartanInstance {
            num_cons: self.num_cons,
            num_vars: self.num_vars,
            num_inputs: self.num_inputs,
            num_outputs: self.num_outputs,
            A: copy_matrix(&self.A),
            B: copy_matrix(&self.B),
            C: copy_matrix(&self.C),
        }
    }
}

/// Why a witness could not be computed.
#[derive(Debug)]
pub enum WitnessError {
    /// The number of circuit inputs does not fit the instance.
    InvalidInputs { expected: usize, got: usize },
    /// The pass left variables or outputs undetermined.
    SolverStuck { solved: usize, total: usize },
    /// A row has more than one unknown column: the rows are not in evaluation order.
    NotInEvaluationOrder { row: usize },
    /// A row has its unknown in both factors, and so does not pin one value.
    NonLinearUnknown { row: usize },
    /// The instance has inconsistent dimensions, an index out of range or a
    /// coefficient that is not canonical.
    MalformedInstance { reason: &'static str },
}

impl WitnessError {
    /// The error as its name and its fields. The reason stands in quotes as it is.
    pub open spec fn words(self) -> Seq<char> {
        match self {
            WitnessError::InvalidInputs { expected, got } => "InvalidInputs { expected: "@
                + decimal(expected as nat) + ", got: "@ + decimal(got as nat) + " }"@,
            WitnessError::SolverStuck { solved, total } => "SolverStuck { solved: "@ + decimal(
                solved as nat,
            ) + ", total: "@ + decimal(total as nat) + " }"@,
            WitnessError::NotInEvaluationOrder { row } => "NotInEvaluationOrder { row: "@
                + decimal(row as nat) + " }"@,
            WitnessError::NonLinearUnknown { row } => "NonLinearUnknown { row: "@ + decimal(
                row as nat,
            ) + " }"@,
            WitnessError::MalformedInstance { reason } => "MalformedInstance { reason: \""@
                + reason@ + "\" }"@,
        }
    }

    /// Appends the error to a text.
    pub fn append_to(&self, text: &mut String)
        ensures
            final(text)@ == old(text)@ + self.words(),
    {
        match self {
            WitnessError::InvalidInputs { expected, got } => {
                append_field(text, "InvalidInputs { expected: ", *expected);
                append_field(text, ", got: ", *got);
                text.append(" }");
            },
            WitnessError::SolverStuck { solved, total } => {
                append_field(text, "SolverStuck { solved: ", *solved);
                append_field(text, ", total: ", *total);
                text.append(" }");
            },
            WitnessError::NotInEvaluationOrder { row } => {
                append_field(text, "NotInEvaluationOrder { row: ", *row);
                text.append(" }");
            },
            WitnessError::NonLinearUnknown { row } => {
                append_field(text, "NonLinearUnknown { row: ", *row);
                text.append(" }");
            },
            WitnessError::MalformedInstance { reason } => {
                text.append("MalformedInstance { reason: \"");
                text.append(reason);
                text.append("\" }");
            },
        }
        assert(text@ =~= old(text)@ + self.words());
    }
}

/// Whether the entries of a matrix lie in range and are canonical.
pub fn entries_in_range(m: &R1CSMatrix, num_cons: usize, z_len: usize) -> (r: bool)
    ensures
        r == entries_valid(entries(m@), num_cons as nat, z_len as nat),
{
    let n: usize = m.len();
    let mut i: usize = 0;
    while i < n
        invariant
            n == m@.len(),
            i <= n,
            forall|j: int|
                0 <= j < i ==> {
                    &&& 0 <= (#[trigger] entries(m@)[j]).0 < num_cons
                    &&& 0 <= entries(m@)[j].1 < z_len
                    &&& 0 <= entries(m@)[j].2 < ell()
                },
        decreases n - i,
    {
        let entry = m[i];
        let canonical = Scalar::from_canonical_bytes(entry.2);
        if entry.0 >= num_cons || entry.1 >= z_len || canonical.is_none() {
            assert(entries(m@)[i as int].0 == entry.0);
            return false;
        }
        proof {
            crate::scalar::lemma_le_value_nonnegative(entry.2@);
        }
        i += 1;
    }
    true
}

/// The first structural check that a system fails, in words.
pub open spec fn malformed_reason(sys: System) -> Option<Seq<char>> {
    if sys.num_inputs < sys.num_outputs {
        Some("num_inputs < num_outputs"@)
    } else if sys.num_vars > sys.num_cons {
        Some("num_vars > num_cons"@)
    } else if sys.z_len() > usize::MAX {
        Some("dimension overflow"@)
    } else if !sys.entries_valid() {
        Some("row/col out of range or non-canonical scalar"@)
    } else {
        None
    }
}

/// Checks an untrusted instance before anything is indexed or allocated by its fields.
///
/// `num_cons` itself is not bounded here.
pub fn validate_instance(instance: &SpartanInstance) -> (r: Result<(), WitnessError>)
    ensures
        r is Ok <==> instance@.valid(),
        match r {
            Ok(_) => malformed_reason(instance@) is None,
            Err(WitnessError::MalformedInstance { reason }) => malformed_reason(instance@) == Some(
                reason@,
            ),
            Err(_) => false,
        },
{
    if instance.num_inputs < instance.num_outputs {
        return Err(WitnessError::MalformedInstance { reason: "num_inputs < num_outputs" });
    }
    if instance.num_vars > instance.num_cons {
        return Err(WitnessError::MalformedInstance { reason: "num_vars > num_cons" });
    }
    let z_len: usize = match instance.num_vars.checked_add(1) {
        None => return Err(WitnessError::MalformedInstance { reason: "dimension overflow" }),
        Some(x) => match x.checked_add(instance.num_inputs) {
            None => return Err(WitnessError::MalformedInstance { reason: "dimension overflow" }),
            Some(y) => y,
        },
    };
    if !entries_in_range(&instance.A, instance.num_cons, z_len) || !entries_in_range(
        &instance.B,
        instance.num_cons,
        z_len,
    ) || !entries_in_range(&instance.C, instance.num_cons, z_len) {
        return Err(
            WitnessError::MalformedInstance {
                reason: "row/col out of range or non-canonical scalar",
            },
        );
    }
    Ok(())
}

/// Decodes a matrix into its rows.
fn rows_of(m: &R1CSMatrix, num_cons: usize) -> (rows: Vec<SparseRow>)
    requires
        forall|i: int|
            0 <= i < m@.len() ==> (#[trigger] entries(m@)[i]).0 < num_cons && entries(m@)[i].2
                < ell(),
    ensures
        rows@.len() == num_cons,
        forall|r: int| 0 <= r < num_cons ==> lin((#[trigger] rows@[r])@) == row_of(entries(m@), r),
{
    let mut rows: Vec<SparseRow> = Vec::new();
    let mut k: usize = 0;
    while k < num_cons
        invariant
            k <= num_cons,
            rows@.len() == k,
            forall|r: int| 0 <= r < k ==> (#[trigger] rows@[r])@.len() == 0,
        decreases num_cons - k,
    {
        rows.push(Vec::new());
        k += 1;
    }
    let n: usize = m.len();
    let mut i: usize = 0;
    assert(entries(m@).take(0) =~= Seq::empty());
    assert forall|r: int| 0 <= r < num_cons implies lin((#[trigger] rows@[r])@) == row_of(
        entries(m@).take(0),
        r,
    ) by {
        assert(lin(rows@[r]@) =~= Seq::empty());
    }
    while i < n
        invariant
            n == m@.len(),
            i <= n,
            rows@.len() == num_cons,
            forall|j: int|
                0 <= j < m@.len() ==> (#[trigger] entries(m@)[j]).0 < num_cons && entries(m@)[j].2
                    < ell(),
            forall|r: int|
                0 <= r < num_cons ==> lin((#[trigger] rows@[r])@) == row_of(
                    entries(m@).take(i as int),
                    r,
                ),
        decreases n - i,
    {
        let entry = m[i];
        let ghost before = rows@;
        assert(entries(m@)[i as int].0 < num_cons);
        if let Some(val) = Scalar::from_canonical_bytes(entry.2) {
            rows[entry.0].push((entry.1, val));
        }
        proof {
            let next = entries(m@).take(i + 1);
            assert(next.drop_last() =~= entries(m@).take(i as int));
            assert forall|r: int| 0 <= r < num_cons implies lin((#[trigger] rows@[r])@) == row_of(
                next,
                r,
            ) by {
                if r == entry.0 {
                    assert(lin(rows@[r]@) =~= lin(before[r]@).push(
                        (entry.1 as int, le_value(entry.2@)),
                    ));
                } else {
                    assert(rows@[r] == before[r]);
                }
            }
        }
        i += 1;
    }
    assert(entries(m@).take(n as int) =~= entries(m@));
    rows
}

/// Decodes the three matrices of an instance into rows.
pub fn build_row_views(instance: &SpartanInstance) -> (r: (
    Vec<SparseRow>,
    Vec<SparseRow>,
    Vec<SparseRow>,
))
    requires
        instance@.entries_valid(),
    ensures
        r.0@.len() == instance.num_cons,
        r.1@.len() == instance.num_cons,
        r.2@.len() == instance.num_cons,
        forall|i: int|
            0 <= i < instance.num_cons ==> lin((#[trigger] r.0@[i])@) == instance@.row(i).a,
        forall|i: int|
            0 <= i < instance.num_cons ==> lin((#[trigger] r.1@[i])@) == instance@.row(i).b,
        forall|i: int|
            0 <= i < instance.num_cons ==> lin((#[trigger] r.2@[i])@) == instance@.row(i).c,
{
    let a_rows = rows_of(&instance.A, instance.num_cons);
    let b_rows = rows_of(&instance.B, instance.num_cons);
    let c_rows = rows_of(&instance.C, instance.num_cons);
    (a_rows, b_rows, c_rows)
}

/// Splits a row into the value of its other terms and its coefficient in column `j`.
pub fn accumulate(row: &SparseRow, j: usize, z: &Vec<Scalar>) -> (r: (Scalar, Scalar))
    requires
        lin_below(lin(row@), z@.len() as int),
    ensures
        r.0@ == eval_except(lin(row@), j as int, values(z@)) % ell(),
        r.1@ == coeff(lin(row@), j as int) % ell(),
{
    let mut known = Scalar::zero();
    let mut coeff_j = Scalar::zero();
    let n: usize = row.len();
    let mut i: usize = 0;
    let ghost l = lin(row@);
    let ghost zs = values(z@);
    proof {
        lemma_ell();
        lemma_reduced(0);
        assert(l.take(0) =~= Seq::empty());
    }
    while i < n
        invariant
            n == row@.len(),
            i <= n,
            l == lin(row@),
            zs == values(z@),
            lin_below(l, z@.len() as int),
            known@ == eval_except(l.take(i as int), j as int, zs) % ell(),
            coeff_j@ == coeff(l.take(i as int), j as int) % ell(),
        decreases n - i,
    {
        let term = row[i];
        let ghost next = l.take(i + 1);
        proof {
            assert(next.drop_last() =~= l.take(i as int));
            assert(next.last() == l[i as int]);
            assert(l[i as int] == (term.0 as int, term.1@));
        }
        if term.0 == j {
            proof {
                lemma_mod_range(coeff(l.take(i as int), j as int));
                lemma_cong_add(coeff_j@, coeff(l.take(i as int), j as int), term.1@, term.1@);
            }
            coeff_j = coeff_j.plus(&term.1);
        } else {
            let product = term.1.times(&z[term.0]);
            proof {
                lemma_mod_range(eval_except(l.take(i as int), j as int, zs));
                lemma_mod_range(term.1@ * zs[term.0 as int]);
                lemma_cong_add(
                    known@,
                    eval_except(l.take(i as int), j as int, zs),
                    product@,
                    term.1@ * zs[term.0 as int],
                );
            }
            known = known.plus(&product);
        }
        i += 1;
    }
    assert(l.take(n as int) =~= l);
    (known, coeff_j)
}

/// The inner product of a sparse row with an assignment.
pub fn dot(row: &SparseRow, z: &Vec<Scalar>) -> (r: Scalar)
    requires
        lin_below(lin(row@), z@.len() as int),
    ensures
        r@ == eval(lin(row@), values(z@)) % ell(),
{
    let mut acc = Scalar::zero();
    let n: usize = row.len();
    let mut i: usize = 0;
    let ghost l = lin(row@);
    let ghost zs = values(z@);
    proof {
        lemma_ell();
        lemma_reduced(0);
        assert(l.take(0) =~= Seq::empty());
    }
    while i < n
        invariant
            n == row@.len(),
            i <= n,
            l == lin(row@),
            zs == values(z@),
            lin_below(l, z@.len() as int),
            acc@ == eval(l.take(i as int), zs) % ell(),
        decreases n - i,
    {
        let term = row[i];
        let ghost next = l.take(i + 1);
        proof {
            assert(next.drop_last() =~= l.take(i as int));
            assert(next.last() == l[i as int]);
            assert(l[i as int] == (term.0 as int, term.1@));
        }
        let product = term.1.times(&z[term.0]);
        proof {
            lemma_mod_range(eval(l.take(i as int), zs));
            lemma_mod_range(term.1@ * zs[term.0 as int]);
            lemma_cong_add(
                acc@,
                eval(l.take(i as int), zs),
                product@,
                term.1@ * zs[term.0 as int],
            );
        }
        acc = acc.plus(&product);
        i += 1;
    }
    assert(l.take(n as int) =~= l);
    acc
}

/// Lays out a full assignment.
fn full_assignment(vars: &[Scalar], public_io: &[Scalar]) -> (z: Vec<Scalar>)
    requires
        vars@.len() + 1 + public_io@.len() <= usize::MAX,
    ensures
        values(z@) == assignment(values(vars@), values(public_io@)),
{
    let mut z: Vec<Scalar> = Vec::new();
    let nv: usize = vars.len();
    let mut i: usize = 0;
    while i < nv
        invariant
            nv == vars@.len(),
            i <= nv,
            z@ == vars@.take(i as int),
        decreases nv - i,
    {
        z.push(vars[i]);
        i += 1;
    }
    let one = Scalar::one();
    z.push(one);
    let ni: usize = public_io.len();
    let mut k: usize = 0;
    while k < ni
        invariant
            ni == public_io@.len(),
            k <= ni,
            z@ == vars@ + seq![one] + public_io@.take(k as int),
        decreases ni - k,
    {
        z.push(public_io[k]);
        k += 1;
    }
    assert(public_io@.take(ni as int) =~= public_io@);
    assert(values(z@) =~= assignment(values(vars@), values(public_io@)));
    z
}

/// Checks that an assignment satisfies every constraint of a well-formed instance.
pub fn satisfies(instance: &SpartanInstance, vars: &[Scalar], public_io: &[Scalar]) -> (r: bool)
    ensures
        r <==> {
            &&& instance@.valid()
            &&& vars@.len() == instance.num_vars
            &&& public_io@.len() == instance.num_inputs
            &&& instance@.satisfied(assignment(values(vars@), values(public_io@)))
        },
{
    if validate_instance(instance).is_err() {
        return false;
    }
    if vars.len() != instance.num_vars || public_io.len() != instance.num_inputs {
        return false;
    }
    let (a_rows, b_rows, c_rows) = build_row_views(instance);
    let z = full_assignment(vars, public_io);
    let ghost sys = instance@;
    let ghost zs = values(z@);
    let n: usize = instance.num_cons;
    let mut row: usize = 0;
    while row < n
        invariant
            n == instance.num_cons,
            sys == instance@,
            sys.valid(),
            zs == values(z@),
            zs == assignment(values(vars@), values(public_io@)),
            zs.len() == sys.z_len(),
            row <= n,
            a_rows@.len() == n,
            b_rows@.len() == n,
            c_rows@.len() == n,
            forall|i: int| 0 <= i < n ==> lin((#[trigger] a_rows@[i])@) == sys.row(i).a,
            forall|i: int| 0 <= i < n ==> lin((#[trigger] b_rows@[i])@) == sys.row(i).b,
            forall|i: int| 0 <= i < n ==> lin((#[trigger] c_rows@[i])@) == sys.row(i).c,
            forall|i: int| 0 <= i < row ==> (#[trigger] sys.row(i)).holds(zs),
        decreases n - row,
    {
        let ghost r = sys.row(row as int);
        proof {
            crate::system::lemma_row_below(sys.a, row as int, sys.num_cons, sys.z_len());
            crate::system::lemma_row_below(sys.b, row as int, sys.num_cons, sys.z_len());
            crate::system::lemma_row_below(sys.c, row as int, sys.num_cons, sys.z_len());
        }
        let a = dot(&a_rows[row], &z);
        let b = dot(&b_rows[row], &z);
        let c = dot(&c_rows[row], &z);
        let product = a.times(&b);
        proof {
            lemma_mod_range(eval(r.a, zs));
            lemma_mod_range(eval(r.b, zs));
            lemma_cong_mul(a@, eval(r.a, zs), b@, eval(r.b, zs));
        }
        if !product.same(&c) {
            assert(!r.holds(zs));
            return false;
        }
        row += 1;
    }
    assert(zs[sys.num_vars as int] == 1);
    true
}

} // verus!
