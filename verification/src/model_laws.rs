//! What the words of the model mean: field elements, linear forms, systems and assignments.
use crate::circuit::Circuit;
use crate::convert::lemma_row_of_add;
use crate::field::{
    cong, ell, inverse, is_inverse, is_unit, lemma_cong_mul, lemma_difference, lemma_ell,
    lemma_inverse_unique, lemma_mod_range, lemma_reduced,
};
use crate::r1cs::{malformed_reason, SpartanInstance};
use crate::scalar::{le_value, values, Scalar};
use crate::system::{
    assignment, coeff, count_true, eval, eval_except, lemma_eval_split, mentions, row_of,
    solved_count, Lin, Row, System,
};
use vstd::prelude::*;

verus! {

// The field.

/// The field has the order of the curve's scalar group.
pub proof fn law_modulus()
    ensures
        ell() == 0x1000000000000000000000000000000000000000000000000000000000000000int
            + 27742317777372353535851937790883648493int,
{
    reveal(ell);
}

/// Two integers stand for one element when the order divides their difference.
pub proof fn law_congruence(a: int, b: int, q: int)
    ensures
        cong(a, b) <==> (a - b) % ell() == 0,
        cong(a + q * ell(), a),
        0 <= a % ell() < ell(),
        cong(a % ell(), a),
{
    lemma_ell();
    lemma_difference(a, b);
    lemma_mod_range(a);
    vstd::arithmetic::div_mod::lemma_mod_multiples_vanish(q, a, ell());
    assert(ell() * q + a == a + q * ell()) by (nonlinear_arith);
}

/// A unit is what has an inverse; an inverse is reduced, and its product with the unit is one.
pub proof fn law_inverse(d: int, w: int)
    ensures
        is_unit(d) ==> 0 <= inverse(d) < ell() && (d * inverse(d) - 1) % ell() == 0,
        (d * w - 1) % ell() == 0 ==> is_unit(d) && cong(w, inverse(d)),
{
    lemma_ell();
    lemma_reduced(1);
    if is_unit(d) {
        lemma_difference(d * inverse(d), 1);
    }
    if (d * w - 1) % ell() == 0 {
        lemma_difference(d * w, 1);
        let v = w % ell();
        lemma_mod_range(w);
        lemma_cong_mul(d, d, v, w);
        assert(is_inverse(d, v));
        lemma_inverse_unique(d, v, inverse(d));
    }
}

// Linear forms.

/// The value of a form is the sum of the values of its terms.
pub proof fn law_eval(l: Lin, m: Lin, c: int, k: int, z: Seq<int>)
    ensures
        eval(Seq::empty(), z) == 0,
        eval(seq![(c, k)], z) == k * z[c],
        eval(l + m, z) == eval(l, z) + eval(m, z),
{
    let one = seq![(c, k)];
    assert(one.drop_last() =~= Seq::empty());
    assert(eval(one.drop_last(), z) == 0);
    assert(eval(one, z) == 0 + k * z[c]);
    lemma_eval_add(l, m, z);
}

proof fn lemma_eval_add(l: Lin, m: Lin, z: Seq<int>)
    ensures
        eval(l + m, z) == eval(l, z) + eval(m, z),
    decreases m.len(),
{
    if m.len() == 0 {
        assert(l + m =~= l);
    } else {
        assert((l + m).drop_last() =~= l + m.drop_last());
        lemma_eval_add(l, m.drop_last(), z);
    }
}

/// The coefficient of a column is the sum of its coefficients in the terms.
pub proof fn law_coeff(l: Lin, m: Lin, c: int, k: int, j: int)
    ensures
        coeff(Seq::empty(), j) == 0,
        coeff(seq![(c, k)], j) == if c == j {
            k
        } else {
            0
        },
        coeff(l + m, j) == coeff(l, j) + coeff(m, j),
{
    let one = seq![(c, k)];
    assert(one.drop_last() =~= Seq::empty());
    assert(coeff(one.drop_last(), j) == 0);
    lemma_coeff_add(l, m, j);
}

proof fn lemma_coeff_add(l: Lin, m: Lin, j: int)
    ensures
        coeff(l + m, j) == coeff(l, j) + coeff(m, j),
    decreases m.len(),
{
    if m.len() == 0 {
        assert(l + m =~= l);
    } else {
        assert((l + m).drop_last() =~= l + m.drop_last());
        lemma_coeff_add(l, m.drop_last(), j);
    }
}

/// What is left of a form without a column is the rest of its value, whatever stands in the
/// column.
pub proof fn law_eval_except(l: Lin, j: int, z: Seq<int>, x: int)
    requires
        0 <= j < z.len(),
        forall|i: int| 0 <= i < l.len() ==> 0 <= (#[trigger] l[i]).0 < z.len(),
    ensures
        eval(l, z) == eval_except(l, j, z) + coeff(l, j) * z[j],
        eval_except(l, j, z.update(j, x)) == eval_except(l, j, z),
{
    lemma_eval_split(l, j, z);
    lemma_except_update(l, j, z, x);
}

pub proof fn lemma_except_update(l: Lin, j: int, z: Seq<int>, x: int)
    requires
        0 <= j < z.len(),
        forall|i: int| 0 <= i < l.len() ==> 0 <= (#[trigger] l[i]).0 < z.len(),
    ensures
        eval_except(l, j, z.update(j, x)) == eval_except(l, j, z),
    decreases l.len(),
{
    if l.len() > 0 {
        assert forall|i: int| 0 <= i < l.drop_last().len() implies 0 <= (
        #[trigger] l.drop_last()[i]).0 < z.len() by {
            assert(l.drop_last()[i] == l[i]);
        }
        lemma_except_update(l.drop_last(), j, z, x);
        assert(0 <= l[l.len() - 1].0 < z.len());
    }
}

/// A form holds the columns of its terms.
pub proof fn law_mentions(l: Lin, m: Lin, c: int, k: int, j: int)
    ensures
        !mentions(Seq::empty(), j),
        mentions(seq![(c, k)], j) <==> c == j,
        mentions(l + m, j) <==> mentions(l, j) || mentions(m, j),
{
    if c == j {
        assert(seq![(c, k)][0].0 == j);
    }
    if mentions(l, j) {
        let i = choose|i: int| 0 <= i < l.len() && (#[trigger] l[i]).0 == j;
        assert((l + m)[i].0 == j);
    }
    if mentions(m, j) {
        let i = choose|i: int| 0 <= i < m.len() && (#[trigger] m[i]).0 == j;
        assert((l + m)[l.len() + i].0 == j);
    }
    if mentions(l + m, j) {
        let i = choose|i: int| 0 <= i < (l + m).len() && (#[trigger] (l + m)[i]).0 == j;
        if i < l.len() {
            assert(l[i].0 == j);
        } else {
            assert(m[i - l.len()].0 == j);
        }
    }
}

/// A row of a matrix holds the entries with its index, in their order.
pub proof fn law_row_of(
    m: Seq<(int, int, int)>,
    n: Seq<(int, int, int)>,
    e: (int, int, int),
    r: int,
)
    ensures
        row_of(Seq::empty(), r).len() == 0,
        row_of(seq![e], r) == if e.0 == r {
            seq![(e.1, e.2)]
        } else {
            Seq::empty()
        },
        row_of(m + n, r) == row_of(m, r) + row_of(n, r),
{
    let one = seq![e];
    assert(one.drop_last() =~= Seq::empty());
    assert(row_of(one.drop_last(), r) =~= Seq::empty());
    if e.0 == r {
        assert(row_of(one, r) =~= seq![(e.1, e.2)]);
    }
    lemma_row_of_add(m, n, r);
}

// Systems.

/// A row asks that the product of its first two sides be the third.
pub proof fn law_row_holds(row: Row, z: Seq<int>)
    ensures
        row.holds(z) <==> (eval(row.a, z) * eval(row.b, z) - eval(row.c, z)) % ell() == 0,
{
    lemma_difference(eval(row.a, z) * eval(row.b, z), eval(row.c, z));
}

/// An assignment satisfies a system when it has the right length, holds the constant one,
/// and meets every row.
pub proof fn law_satisfied(sys: System, z: Seq<int>)
    ensures
        sys.satisfied(z) <==> {
            &&& z.len() == sys.num_vars + 1 + sys.num_inputs
            &&& z[sys.num_vars as int] == 1
            &&& forall|r: int|
                #![trigger row_of(sys.a, r)]
                0 <= r < sys.num_cons ==> (eval(row_of(sys.a, r), z) * eval(row_of(sys.b, r), z)
                    - eval(row_of(sys.c, r), z)) % ell() == 0
        },
{
    assert forall|r: int| (#[trigger] sys.row(r)).holds(z) <==> (eval(row_of(sys.a, r), z) * eval(
        row_of(sys.b, r),
        z,
    ) - eval(row_of(sys.c, r), z)) % ell() == 0 by {
        law_row_holds(sys.row(r), z);
    }
    if sys.satisfied(z) {
        assert forall|r: int| #![trigger row_of(sys.a, r)] 0 <= r < sys.num_cons implies (eval(
            row_of(sys.a, r),
            z,
        ) * eval(row_of(sys.b, r), z) - eval(row_of(sys.c, r), z)) % ell() == 0 by {
            assert(sys.row(r).holds(z));
        }
    }
}

/// What an untrusted system is checked for, in this order: the outputs are public, the
/// constraints are no fewer than the variables, an assignment has a length, and every entry
/// lies in range and is reduced.
pub proof fn law_valid(sys: System)
    ensures
        ({
            let cols = sys.num_vars + 1 + sys.num_inputs;
            let in_range = |m: Seq<(int, int, int)>|
                forall|k: int|
                    0 <= k < m.len() ==> 0 <= (#[trigger] m[k]).0 < sys.num_cons && 0 <= m[k].1
                        < cols && 0 <= m[k].2 < ell();
            let entries = in_range(sys.a) && in_range(sys.b) && in_range(sys.c);
            &&& sys.entries_valid() <==> entries
            &&& sys.valid() <==> sys.num_outputs <= sys.num_inputs && sys.num_vars <= sys.num_cons
                && cols <= usize::MAX && entries
            &&& malformed_reason(sys) == if sys.num_inputs < sys.num_outputs {
                Some("num_inputs < num_outputs"@)
            } else if sys.num_vars > sys.num_cons {
                Some("num_vars > num_cons"@)
            } else if cols > usize::MAX {
                Some("dimension overflow"@)
            } else if !entries {
                Some("row/col out of range or non-canonical scalar"@)
            } else {
                None
            }
        }),
{
}

/// An assignment consists of the variables, the constant one, and the public values.
pub proof fn law_assignment(vars: Seq<int>, io: Seq<int>)
    ensures
        assignment(vars, io).len() == vars.len() + 1 + io.len(),
        forall|i: int| 0 <= i < vars.len() ==> #[trigger] assignment(vars, io)[i] == vars[i],
        assignment(vars, io)[vars.len() as int] == 1,
        forall|k: int|
            0 <= k < io.len() ==> #[trigger] assignment(vars, io)[vars.len() + 1 + k] == io[k],
{
}

/// An instance stands for the system with its dimensions and its entries, whose bytes are
/// integers with the least significant byte first.
pub proof fn law_instance_view(i: &SpartanInstance, k: int)
    ensures
        i@.num_cons == i.num_cons,
        i@.num_vars == i.num_vars,
        i@.num_inputs == i.num_inputs,
        i@.num_outputs == i.num_outputs,
        i@.a.len() == i.A@.len(),
        i@.b.len() == i.B@.len(),
        i@.c.len() == i.C@.len(),
        0 <= k < i.A@.len() ==> i@.a[k] == (
            i.A@[k].0 as int,
            i.A@[k].1 as int,
            le_value(i.A@[k].2@),
        ),
        0 <= k < i.B@.len() ==> i@.b[k] == (
            i.B@[k].0 as int,
            i.B@[k].1 as int,
            le_value(i.B@[k].2@),
        ),
        0 <= k < i.C@.len() ==> i@.c[k] == (
            i.C@[k].0 as int,
            i.C@[k].1 as int,
            le_value(i.C@[k].2@),
        ),
{
}

/// A circuit stands for the system with its dimensions, its entries and the given number of
/// outputs.
pub proof fn law_circuit_view(c: &Circuit, num_outputs: nat, k: int)
    ensures
        ({
            let sys = c.system(num_outputs);
            &&& sys.num_cons == c.num_cons
            &&& sys.num_vars == c.num_vars
            &&& sys.num_inputs == c.num_inputs
            &&& sys.num_outputs == num_outputs
            &&& sys.a.len() == c.A@.len()
            &&& sys.b.len() == c.B@.len()
            &&& sys.c.len() == c.C@.len()
            &&& 0 <= k < c.A@.len() ==> sys.a[k] == (
                c.A@[k].0 as int,
                c.A@[k].1 as int,
                le_value(c.A@[k].2@),
            )
            &&& 0 <= k < c.B@.len() ==> sys.b[k] == (
                c.B@[k].0 as int,
                c.B@[k].1 as int,
                le_value(c.B@[k].2@),
            )
            &&& 0 <= k < c.C@.len() ==> sys.c[k] == (
                c.C@[k].0 as int,
                c.C@[k].1 as int,
                le_value(c.C@[k].2@),
            )
        }),
{
}

/// The integers of a list of elements are those of the elements.
pub proof fn law_values(s: Seq<Scalar>)
    ensures
        values(s).len() == s.len(),
        forall|i: int| 0 <= i < s.len() ==> #[trigger] values(s)[i] == s[i]@,
{
}

// Counts.

proof fn lemma_count_set(s: Seq<bool>, n: int)
    requires
        0 <= n,
    ensures
        Set::new(|i: int| 0 <= i < n && s[i]).finite(),
        count_true(s, n) == Set::new(|i: int| 0 <= i < n && s[i]).len(),
    decreases n,
{
    let now = Set::new(|i: int| 0 <= i < n && s[i]);
    if n == 0 {
        assert(now =~= Set::empty());
    } else {
        let before = Set::new(|i: int| 0 <= i < n - 1 && s[i]);
        lemma_count_set(s, n - 1);
        if s[n - 1] {
            assert(now =~= before.insert(n - 1));
        } else {
            assert(now =~= before);
        }
    }
}

/// The number of known values counts the variables and the outputs that are known.
pub proof fn law_solved_count(known: Seq<bool>, num_vars: nat, num_outputs: nat)
    requires
        num_vars + 1 + num_outputs <= known.len(),
    ensures
        solved_count(known, num_vars, num_outputs) == Set::new(
            |c: int| 0 <= c < num_vars && known[c],
        ).len() + Set::new(|k: int| 0 <= k < num_outputs && known[num_vars + 1 + k]).len(),
{
    let tail = known.skip(num_vars as int + 1);
    lemma_count_set(known, num_vars as int);
    lemma_count_set(tail, num_outputs as int);
    assert(Set::new(|i: int| 0 <= i < num_outputs && tail[i]) =~= Set::new(
        |k: int| 0 <= k < num_outputs && known[num_vars + 1 + k],
    ));
}

} // verus!
