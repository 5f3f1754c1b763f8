//! The mathematical model of a rank-one constraint system.
use crate::field::{cong, ell, inverse, is_unit, lemma_cong_add, lemma_cong_mul};
use vstd::prelude::*;

verus! {

/// A linear form: pairs of a column and its coefficient, summed.
pub type Lin = Seq<(int, int)>;

/// One constraint, `a * b == c`.
pub struct Row {
    pub a: Lin,
    pub b: Lin,
    pub c: Lin,
}

/// A constraint system over an assignment `[variables | 1 | outputs | inputs]`. The
/// matrices are lists of (row, column, coefficient).
pub struct System {
    pub num_cons: nat,
    pub num_vars: nat,
    pub num_inputs: nat,
    pub num_outputs: nat,
    pub a: Seq<(int, int, int)>,
    pub b: Seq<(int, int, int)>,
    pub c: Seq<(int, int, int)>,
}

/// The entries of one row of a matrix, in order.
pub open spec fn row_of(m: Seq<(int, int, int)>, r: int) -> Lin
    decreases m.len(),
{
    if m.len() == 0 {
        Seq::empty()
    } else {
        let rest = row_of(m.drop_last(), r);
        if m.last().0 == r {
            rest.push((m.last().1, m.last().2))
        } else {
            rest
        }
    }
}

/// The value of a linear form.
pub open spec fn eval(l: Lin, z: Seq<int>) -> int
    decreases l.len(),
{
    if l.len() == 0 {
        0
    } else {
        eval(l.drop_last(), z) + l.last().1 * z[l.last().0]
    }
}

/// The coefficient of column `j` in a linear form.
pub open spec fn coeff(l: Lin, j: int) -> int
    decreases l.len(),
{
    if l.len() == 0 {
        0
    } else {
        coeff(l.drop_last(), j) + (if l.last().0 == j {
            l.last().1
        } else {
            0
        })
    }
}

/// The value of a linear form without its terms in column `j`.
pub open spec fn eval_except(l: Lin, j: int, z: Seq<int>) -> int
    decreases l.len(),
{
    if l.len() == 0 {
        0
    } else {
        eval_except(l.drop_last(), j, z) + (if l.last().0 == j {
            0
        } else {
            l.last().1 * z[l.last().0]
        })
    }
}

/// Whether column `c` occurs in a linear form.
pub open spec fn mentions(l: Lin, c: int) -> bool {
    exists|i: int| 0 <= i < l.len() && (#[trigger] l[i]).0 == c
}

/// Whether every column of a linear form lies below `n`.
pub open spec fn lin_below(l: Lin, n: int) -> bool {
    forall|i: int| 0 <= i < l.len() ==> 0 <= (#[trigger] l[i]).0 < n
}

impl Row {
    pub open spec fn mentions(self, c: int) -> bool {
        mentions(self.a, c) || mentions(self.b, c) || mentions(self.c, c)
    }

    pub open spec fn below(self, n: int) -> bool {
        lin_below(self.a, n) && lin_below(self.b, n) && lin_below(self.c, n)
    }

    /// Whether an assignment satisfies the constraint.
    pub open spec fn holds(self, z: Seq<int>) -> bool {
        cong(eval(self.a, z) * eval(self.b, z), eval(self.c, z))
    }
}

/// Whether the entries of a matrix lie in range and have canonical coefficients.
pub open spec fn entries_valid(m: Seq<(int, int, int)>, rows: nat, cols: nat) -> bool {
    forall|i: int|
        0 <= i < m.len() ==> {
            &&& 0 <= (#[trigger] m[i]).0 < rows
            &&& 0 <= m[i].1 < cols
            &&& 0 <= m[i].2 < ell()
        }
}

impl System {
    /// The length of a full assignment.
    pub open spec fn z_len(self) -> nat {
        self.num_vars + 1 + self.num_inputs
    }

    pub open spec fn row(self, r: int) -> Row {
        Row { a: row_of(self.a, r), b: row_of(self.b, r), c: row_of(self.c, r) }
    }

    /// Whether all matrix entries lie in range and are canonical.
    pub open spec fn entries_valid(self) -> bool {
        &&& entries_valid(self.a, self.num_cons, self.z_len())
        &&& entries_valid(self.b, self.num_cons, self.z_len())
        &&& entries_valid(self.c, self.num_cons, self.z_len())
    }

    /// The structural checks that an untrusted system has to pass.
    pub open spec fn valid(self) -> bool {
        &&& self.num_outputs <= self.num_inputs
        &&& self.num_vars <= self.num_cons
        &&& self.z_len() <= usize::MAX
        &&& self.entries_valid()
    }

    /// Whether a full assignment satisfies every constraint.
    pub open spec fn satisfied(self, z: Seq<int>) -> bool {
        &&& z.len() == self.z_len()
        &&& z[self.num_vars as int] == 1
        &&& forall|r: int| 0 <= r < self.num_cons ==> (#[trigger] self.row(r)).holds(z)
    }
}

/// The full assignment with the given variables and public values.
pub open spec fn assignment(vars: Seq<int>, io: Seq<int>) -> Seq<int> {
    vars + seq![1int] + io
}

// The forward pass.

/// What the forward pass has found out so far.
pub struct Partial {
    pub z: Seq<int>,
    pub known: Seq<bool>,
}

/// What one row does to the pass.
pub enum Outcome {
    Next(Partial),
    /// The row holds two unknown columns.
    Ambiguous,
    /// The unknown column occurs in both factors.
    NonLinear,
}

/// Column `c` occurs in the row and is not known yet.
pub open spec fn unknown(row: Row, known: Seq<bool>, c: int) -> bool {
    row.mentions(c) && !known[c]
}

pub open spec fn ambiguous(row: Row, known: Seq<bool>) -> bool {
    exists|c: int, d: int| c != d && unknown(row, known, c) && unknown(row, known, d)
}

/// The coefficient with which the row pins its unknown column `j`.
pub open spec fn pivot(row: Row, j: int, z: Seq<int>) -> int {
    coeff(row.a, j) * eval_except(row.b, j, z) + coeff(row.b, j) * eval_except(row.a, j, z)
        - coeff(row.c, j)
}

/// The right-hand side against which the row pins its unknown column `j`.
pub open spec fn target(row: Row, j: int, z: Seq<int>) -> int {
    eval_except(row.c, j, z) - eval_except(row.a, j, z) * eval_except(row.b, j, z)
}

/// Whether column `j` has a nonzero coefficient in both factors of the row.
pub open spec fn quadratic(row: Row, j: int) -> bool {
    !cong(coeff(row.a, j), 0) && !cong(coeff(row.b, j), 0)
}

/// Solves a row for its only unknown column, where it has one.
pub open spec fn step(row: Row, p: Partial) -> Outcome {
    if ambiguous(row, p.known) {
        Outcome::Ambiguous
    } else if exists|c: int| unknown(row, p.known, c) {
        let j = choose|c: int| unknown(row, p.known, c);
        if quadratic(row, j) {
            Outcome::NonLinear
        } else if is_unit(pivot(row, j, p.z)) {
            Outcome::Next(
                Partial {
                    z: p.z.update(
                        j,
                        (target(row, j, p.z) * inverse(pivot(row, j, p.z))) % ell(),
                    ),
                    known: p.known.update(j, true),
                },
            )
        } else {
            Outcome::Next(p)
        }
    } else {
        Outcome::Next(p)
    }
}

/// How far the pass came.
pub enum Pass {
    Running(Partial),
    /// The row of the first failure.
    Ambiguous(nat),
    NonLinear(nat),
}

/// The state before the first row: the constant and the circuit inputs are known.
pub open spec fn start(sys: System, num_outputs: nat, inputs: Seq<int>) -> Partial {
    let first = sys.num_vars + 1 + num_outputs;
    Partial {
        z: Seq::new(
            sys.z_len(),
            |i: int|
                if i == sys.num_vars {
                    1
                } else if first <= i < first + inputs.len() {
                    inputs[i - first]
                } else {
                    0
                },
        ),
        known: Seq::new(
            sys.z_len(),
            |i: int| i == sys.num_vars || first <= i < first + inputs.len(),
        ),
    }
}

/// The pass over the first `n` rows, in order.
pub open spec fn forward(sys: System, num_outputs: nat, inputs: Seq<int>, n: nat) -> Pass
    decreases n,
{
    if n == 0 {
        Pass::Running(start(sys, num_outputs, inputs))
    } else {
        match forward(sys, num_outputs, inputs, (n - 1) as nat) {
            Pass::Running(p) => match step(sys.row(n - 1), p) {
                Outcome::Next(q) => Pass::Running(q),
                Outcome::Ambiguous => Pass::Ambiguous((n - 1) as nat),
                Outcome::NonLinear => Pass::NonLinear((n - 1) as nat),
            },
            failed => failed,
        }
    }
}

/// How many of the first `n` flags are set.
pub open spec fn count_true(s: Seq<bool>, n: int) -> nat
    decreases n,
{
    if n <= 0 {
        0
    } else {
        count_true(s, n - 1) + (if s[n - 1] {
            1nat
        } else {
            0nat
        })
    }
}

/// How many variables and outputs are known.
pub open spec fn solved_count(known: Seq<bool>, num_vars: nat, num_outputs: nat) -> nat {
    count_true(known, num_vars as int) + count_true(
        known.skip(num_vars as int + 1),
        num_outputs as int,
    )
}

/// Whether all variables and outputs are known.
pub open spec fn complete(known: Seq<bool>, num_vars: nat, num_outputs: nat) -> bool {
    &&& forall|i: int| 0 <= i < num_vars ==> known[i]
    &&& forall|i: int| num_vars < i <= num_vars + num_outputs ==> known[i]
}

// Facts about linear forms.

pub proof fn lemma_mentions_push(l: Lin, c: int)
    requires
        l.len() > 0,
    ensures
        mentions(l, c) <==> mentions(l.drop_last(), c) || l.last().0 == c,
{
    if mentions(l.drop_last(), c) {
        let i = choose|i: int| 0 <= i < l.drop_last().len() && (#[trigger] l.drop_last()[i]).0 == c;
        assert(l[i].0 == c);
    }
    if l.last().0 == c {
        assert(l[l.len() - 1].0 == c);
    }
    if mentions(l, c) && l.last().0 != c {
        let i = choose|i: int| 0 <= i < l.len() && (#[trigger] l[i]).0 == c;
        assert(l.drop_last()[i].0 == c);
    }
}

pub proof fn lemma_coeff_absent(l: Lin, j: int)
    requires
        !mentions(l, j),
    ensures
        coeff(l, j) == 0,
    decreases l.len(),
{
    if l.len() > 0 {
        lemma_mentions_push(l, j);
        lemma_mentions_push(l, l.last().0);
        lemma_coeff_absent(l.drop_last(), j);
    }
}

/// A linear form splits into its terms in column `j` and the others.
pub proof fn lemma_eval_split(l: Lin, j: int, z: Seq<int>)
    ensures
        eval(l, z) == eval_except(l, j, z) + coeff(l, j) * z[j],
    decreases l.len(),
{
    if l.len() > 0 {
        lemma_eval_split(l.drop_last(), j, z);
        let k = coeff(l.drop_last(), j);
        let v = l.last().1;
        if l.last().0 == j {
            assert((k + v) * z[j] == k * z[j] + v * z[j]) by (nonlinear_arith);
        }
    }
}

/// The value of a form depends on its columns alone.
pub proof fn lemma_eval_cong(l: Lin, y: Seq<int>, z: Seq<int>)
    requires
        forall|c: int| #[trigger] mentions(l, c) ==> cong(y[c], z[c]),
    ensures
        cong(eval(l, y), eval(l, z)),
    decreases l.len(),
{
    if l.len() > 0 {
        let c = l.last().0;
        assert forall|c: int| #[trigger] mentions(l.drop_last(), c) implies cong(y[c], z[c]) by {
            lemma_mentions_push(l, c);
        }
        lemma_eval_cong(l.drop_last(), y, z);
        lemma_mentions_push(l, c);
        assert(mentions(l, c));
        lemma_cong_mul(l.last().1, l.last().1, y[c], z[c]);
        lemma_cong_add(
            eval(l.drop_last(), y),
            eval(l.drop_last(), z),
            l.last().1 * y[c],
            l.last().1 * z[c],
        );
    }
}

pub proof fn lemma_eval_except_cong(l: Lin, j: int, y: Seq<int>, z: Seq<int>)
    requires
        forall|c: int| #[trigger] mentions(l, c) && c != j ==> cong(y[c], z[c]),
    ensures
        cong(eval_except(l, j, y), eval_except(l, j, z)),
    decreases l.len(),
{
    if l.len() > 0 {
        let c = l.last().0;
        assert forall|c: int| #[trigger] mentions(l.drop_last(), c) && c != j implies cong(
            y[c],
            z[c],
        ) by {
            lemma_mentions_push(l, c);
        }
        lemma_eval_except_cong(l.drop_last(), j, y, z);
        lemma_mentions_push(l, c);
        if c != j {
            assert(mentions(l, c));
            lemma_cong_mul(l.last().1, l.last().1, y[c], z[c]);
            lemma_cong_add(
                eval_except(l.drop_last(), j, y),
                eval_except(l.drop_last(), j, z),
                l.last().1 * y[c],
                l.last().1 * z[c],
            );
        }
    }
}

/// A row of a valid matrix stays in range.
pub proof fn lemma_row_below(m: Seq<(int, int, int)>, r: int, rows: nat, cols: nat)
    requires
        entries_valid(m, rows, cols),
    ensures
        lin_below(row_of(m, r), cols as int),
        forall|i: int| 0 <= i < row_of(m, r).len() ==> 0 <= (#[trigger] row_of(m, r)[i]).1 < ell(),
    decreases m.len(),
{
    if m.len() > 0 {
        assert forall|i: int| 0 <= i < m.drop_last().len() implies {
            &&& 0 <= (#[trigger] m.drop_last()[i]).0 < rows
            &&& 0 <= m.drop_last()[i].1 < cols
            &&& 0 <= m.drop_last()[i].2 < ell()
        } by {
            assert(m[i] == m.drop_last()[i]);
        }
        lemma_row_below(m.drop_last(), r, rows, cols);
        assert(m[m.len() - 1] == m.last());
    }
}

pub proof fn lemma_count_true_bound(s: Seq<bool>, n: int)
    requires
        0 <= n,
    ensures
        count_true(s, n) <= n,
        count_true(s, n) == n <==> forall|i: int| 0 <= i < n ==> s[i],
    decreases n,
{
    if n > 0 {
        lemma_count_true_bound(s, n - 1);
        if count_true(s, n) == n {
            assert forall|i: int| 0 <= i < n implies s[i] by {}
        }
        if forall|i: int| 0 <= i < n ==> s[i] {
            assert(s[n - 1]);
            assert forall|i: int| 0 <= i < n - 1 implies s[i] by {}
        }
    }
}

/// All variables and outputs are known exactly when as many are known as there are.
pub proof fn lemma_complete_count(known: Seq<bool>, num_vars: nat, num_outputs: nat)
    requires
        num_vars + 1 + num_outputs <= known.len(),
    ensures
        solved_count(known, num_vars, num_outputs) <= num_vars + num_outputs,
        complete(known, num_vars, num_outputs) <==> solved_count(known, num_vars, num_outputs)
            == num_vars + num_outputs,
{
    let tail = known.skip(num_vars as int + 1);
    lemma_count_true_bound(known, num_vars as int);
    lemma_count_true_bound(tail, num_outputs as int);
    assert forall|j: int| num_vars < j <= num_vars + num_outputs implies known[j] == tail[j
        - num_vars - 1] by {}
    if complete(known, num_vars, num_outputs) {
        assert forall|j: int| 0 <= j < num_outputs implies tail[j] by {
            assert(known[num_vars + 1 + j]);
        }
    }
}

} // verus!
