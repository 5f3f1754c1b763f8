//! From circuits to constraint systems.
use crate::columns::assign_columns;
use crate::dag::{flatten, tag, DAG, Graph, OpType};
use crate::field::ell;
use crate::r1cs::{entries, R1CSMatrix, SpartanInstance};
use crate::scalar::Scalar;
use crate::system::{entries_valid, row_of, Lin, Row};
use vstd::prelude::*;

verus! {

/// Appends an entry to a matrix, unless it is zero.
pub fn push_entry(matrix: &mut R1CSMatrix, row: usize, col: usize, val: &Scalar)
    ensures
        entries(final(matrix)@) == if val@ != 0 {
            entries(old(matrix)@).push((row as int, col as int, val@))
        } else {
            entries(old(matrix)@)
        },
{
    if !val.is_zero() {
        let bytes = val.to_bytes();
        matrix.push((row, col, bytes));
        assert(entries(matrix@) =~= entries(old(matrix)@).push((row as int, col as int, val@)));
    }
}

pub open spec fn a_forms(rows: Seq<Row>) -> Seq<Lin> {
    Seq::new(rows.len(), |i: int| rows[i].a)
}

pub open spec fn b_forms(rows: Seq<Row>) -> Seq<Lin> {
    Seq::new(rows.len(), |i: int| rows[i].b)
}

pub open spec fn c_forms(rows: Seq<Row>) -> Seq<Lin> {
    Seq::new(rows.len(), |i: int| rows[i].c)
}

pub proof fn lemma_flatten_push(ls: Seq<Lin>, l: Lin)
    ensures
        flatten(ls.push(l)) == flatten(ls) + tag(l, ls.len() as int),
{
    assert(ls.push(l).drop_last() =~= ls);
}

/// Appending a constraint appends its entries to the three matrices.
pub proof fn lemma_forms_push(rows: Seq<Row>, r: Row)
    ensures
        flatten(a_forms(rows.push(r))) == flatten(a_forms(rows)) + tag(r.a, rows.len() as int),
        flatten(b_forms(rows.push(r))) == flatten(b_forms(rows)) + tag(r.b, rows.len() as int),
        flatten(c_forms(rows.push(r))) == flatten(c_forms(rows)) + tag(r.c, rows.len() as int),
{
    assert(a_forms(rows.push(r)) =~= a_forms(rows).push(r.a));
    assert(b_forms(rows.push(r)) =~= b_forms(rows).push(r.b));
    assert(c_forms(rows.push(r)) =~= c_forms(rows).push(r.c));
    lemma_flatten_push(a_forms(rows), r.a);
    lemma_flatten_push(b_forms(rows), r.b);
    lemma_flatten_push(c_forms(rows), r.c);
}

pub proof fn lemma_row_of_add(m: Seq<(int, int, int)>, n: Seq<(int, int, int)>, r: int)
    ensures
        row_of(m + n, r) == row_of(m, r) + row_of(n, r),
    decreases n.len(),
{
    if n.len() == 0 {
        assert(m + n =~= m);
        assert(row_of(m, r) + row_of(n, r) =~= row_of(m, r));
    } else {
        assert((m + n).drop_last() =~= m + n.drop_last());
        lemma_row_of_add(m, n.drop_last(), r);
        assert(row_of(m + n, r) =~= row_of(m, r) + row_of(n, r));
    }
}

pub proof fn lemma_row_of_tag(l: Lin, q: int, r: int)
    ensures
        row_of(tag(l, q), r) == if q == r {
            l
        } else {
            Seq::empty()
        },
    decreases l.len(),
{
    if l.len() > 0 {
        assert(tag(l, q).drop_last() =~= tag(l.drop_last(), q));
        lemma_row_of_tag(l.drop_last(), q, r);
        if q == r {
            assert(l.drop_last().push(l.last()) =~= l);
        }
    } else {
        assert(l =~= Seq::empty());
    }
}

/// The rows of a flattened matrix are the ones that it was made of.
pub proof fn lemma_flatten_row(ls: Seq<Lin>, r: int)
    requires
        0 <= r,
    ensures
        row_of(flatten(ls), r) == if r < ls.len() {
            ls[r]
        } else {
            Seq::empty()
        },
    decreases ls.len(),
{
    if ls.len() > 0 {
        let n = ls.len() - 1;
        lemma_flatten_row(ls.drop_last(), r);
        lemma_row_of_add(flatten(ls.drop_last()), tag(ls.last(), n), r);
        lemma_row_of_tag(ls.last(), n, r);
        assert(row_of(flatten(ls), r) =~= if r < ls.len() {
            ls[r]
        } else {
            Seq::empty()
        });
    }
}

/// The entries of a flattened matrix stand in the order of its rows.
pub proof fn lemma_flatten_sorted(ls: Seq<Lin>)
    ensures
        forall|i: int|
            0 <= i < flatten(ls).len() ==> 0 <= (#[trigger] flatten(ls)[i]).0 < ls.len(),
        forall|i: int, j: int|
            0 <= i < j < flatten(ls).len() ==> (#[trigger] flatten(ls)[i]).0 <= (
            #[trigger] flatten(ls)[j]).0,
    decreases ls.len(),
{
    if ls.len() > 0 {
        let m = flatten(ls.drop_last());
        let t = tag(ls.last(), ls.len() - 1);
        lemma_flatten_sorted(ls.drop_last());
        assert(flatten(ls) == m + t);
        assert forall|i: int| 0 <= i < (m + t).len() implies (#[trigger] (m + t)[i]) == if i
            < m.len() {
            m[i]
        } else {
            t[i - m.len()]
        } by {}
    }
}

/// A form whose columns and coefficients are in range.
pub open spec fn form_ok(l: Lin, cols: nat) -> bool {
    forall|i: int|
        0 <= i < l.len() ==> 0 <= (#[trigger] l[i]).0 < cols && 0 <= l[i].1 < ell()
}

/// The matrix of forms in range has its entries in range.
pub proof fn lemma_flatten_valid(ls: Seq<Lin>, rows: nat, cols: nat)
    requires
        ls.len() <= rows,
        forall|i: int| 0 <= i < ls.len() ==> form_ok(#[trigger] ls[i], cols),
    ensures
        entries_valid(flatten(ls), rows, cols),
    decreases ls.len(),
{
    if ls.len() > 0 {
        let front = ls.drop_last();
        assert forall|i: int| 0 <= i < front.len() implies form_ok(#[trigger] front[i], cols) by {
            assert(front[i] == ls[i]);
        }
        lemma_flatten_valid(front, rows, cols);
        let last = ls[ls.len() - 1];
        assert(form_ok(last, cols));
        let m = flatten(ls);
        let k = flatten(front).len();
        assert forall|i: int| 0 <= i < m.len() implies {
            &&& 0 <= (#[trigger] m[i]).0 < rows
            &&& 0 <= m[i].1 < cols
            &&& 0 <= m[i].2 < ell()
        } by {
            if i < k {
                assert(m[i] == flatten(front)[i]);
            } else {
                assert(m[i] == tag(last, ls.len() - 1)[i - k]);
                assert(last[i - k].0 < cols);
            }
        }
    }
}

/// The constraints of a circuit's system are those of its nodes.
pub proof fn lemma_system_row(g: Graph, r: int)
    requires
        0 <= r < g.rows_from(0).len(),
    ensures
        g.system().row(r) == g.rows_from(0)[r],
{
    let rows = g.rows_from(0);
    lemma_flatten_row(a_forms(rows), r);
    lemma_flatten_row(b_forms(rows), r);
    lemma_flatten_row(c_forms(rows), r);
}

/// A circuit has at most one constraint per column.
pub proof fn lemma_rows_bound(g: Graph, n: int)
    requires
        0 <= n <= g.len(),
        g.num_outputs <= g.len(),
    ensures
        g.rows_from(n).len() + g.offset(n) <= g.num_private() + (if n < g.num_outputs {
            g.num_outputs - n
        } else {
            0
        }),
    decreases g.len() - n,
{
    if n < g.len() {
        lemma_rows_bound(g, n + 1);
    }
}

/// The three matrices of a system under construction.
struct Matrices {
    a: R1CSMatrix,
    b: R1CSMatrix,
    c: R1CSMatrix,
    num_rows: usize,
}

impl Matrices {
    spec fn holds(&self, rows: Seq<Row>) -> bool {
        &&& self.num_rows == rows.len()
        &&& entries(self.a@) == flatten(a_forms(rows))
        &&& entries(self.b@) == flatten(b_forms(rows))
        &&& entries(self.c@) == flatten(c_forms(rows))
    }

    /// Appends the constraint `(sum of a) * b == c`, with a coefficient on the first
    /// column of `a`.
    fn push_row(&mut self, a: usize, k: &Scalar, more: Option<usize>, b: usize, c: usize, Ghost(
        rows,
    ): Ghost<Seq<Row>>)
        requires
            old(self).holds(rows),
            rows.len() < usize::MAX,
        ensures
            final(self).holds(
                rows.push(
                    Row {
                        a: (if k@ == 0 {
                            Seq::<(int, int)>::empty()
                        } else {
                            seq![(a as int, k@)]
                        }) + (match more {
                            Some(d) => seq![(d as int, 1int)],
                            None => Seq::<(int, int)>::empty(),
                        }),
                        b: seq![(b as int, 1int)],
                        c: seq![(c as int, 1int)],
                    },
                ),
            ),
    {
        let one = Scalar::one();
        let row: usize = self.num_rows;
        let ghost before = entries(self.a@);
        push_entry(&mut self.a, row, a, k);
        if let Some(d) = more {
            push_entry(&mut self.a, row, d, &one);
        }
        push_entry(&mut self.b, row, b, &one);
        push_entry(&mut self.c, row, c, &one);
        self.num_rows = row + 1;
        proof {
            let la = (if k@ == 0 {
                Seq::<(int, int)>::empty()
            } else {
                seq![(a as int, k@)]
            }) + (match more {
                Some(d) => seq![(d as int, 1int)],
                None => Seq::<(int, int)>::empty(),
            });
            let lb: Lin = seq![(b as int, 1int)];
            let lc: Lin = seq![(c as int, 1int)];
            let r = Row { a: la, b: lb, c: lc };
            lemma_forms_push(rows, r);
            assert(entries(self.a@) =~= before + tag(la, row as int));
            assert(entries(self.b@) =~= flatten(b_forms(rows)) + tag(lb, row as int));
            assert(entries(self.c@) =~= flatten(c_forms(rows)) + tag(lc, row as int));
        }
    }
}

/// Converts a circuit to a constraint system. The constraints stand in evaluation order:
/// deep nodes first, outputs last.
#[verifier::rlimit(40)]
#[verifier::spinoff_prover]
pub fn dag_to_spartan(dag: &DAG) -> (r: SpartanInstance)
    requires
        dag.wf(),
        dag@.closed_under_operands(),
        dag@.z_len() <= usize::MAX,
    ensures
        r@ == dag@.system(),
{
    let cols = assign_columns(dag);
    let ghost g = dag@;
    let one = Scalar::one();
    let mut m = Matrices { a: Vec::new(), b: Vec::new(), c: Vec::new(), num_rows: 0 };
    let n: usize = dag.nodes.len();
    let mut i: usize = n;
    assert(m.holds(g.rows_from(n as int))) by {
        assert(entries(m.a@) =~= Seq::empty());
        assert(entries(m.b@) =~= Seq::empty());
        assert(entries(m.c@) =~= Seq::empty());
    }
    while i > 0
        invariant
            n == dag.nodes@.len(),
            i <= n,
            g == dag@,
            dag.wf(),
            g.closed_under_operands(),
            g.z_len() <= usize::MAX,
            cols.of_graph(g),
            one@ == 1,
            m.holds(g.rows_from(i as int)),
        decreases i,
    {
        i -= 1;
        let node = dag.nodes[i];
        let ghost rows = g.rows_from(i + 1);
        let ghost ii = i as int;
        proof {
            assert(g.ops[ii] == node.op);
            assert(g.operands_exist(ii));
            lemma_rows_bound(g, ii);
            assert(cols.node_to_col@[ii] == g.col(ii));
        }
        let out_col: usize = cols.node_to_col[i];
        match node.op {
            OpType::Alias(src) => {
                let src_col: usize = cols.node_to_col[src];
                m.push_row(out_col, &one, None, cols.col_const_one, src_col, Ghost(rows));
                assert(rows + g.node_rows(ii) =~= rows.push(g.node_rows(ii)[0]));
                assert(g.node_rows(ii)[0].a =~= seq![(out_col as int, 1int)] + Seq::empty());
            },
            OpType::Add(l, r) => {
                let l_col: usize = cols.node_to_col[l];
                let r_col: usize = cols.node_to_col[r];
                m.push_row(l_col, &one, Some(r_col), cols.col_const_one, out_col, Ghost(rows));
                assert(rows + g.node_rows(ii) =~= rows.push(g.node_rows(ii)[0]));
                assert(g.node_rows(ii)[0].a =~= seq![(l_col as int, 1int)] + seq![
                    (r_col as int, 1int),
                ]);
            },
            OpType::Mul(l, r) => {
                let l_col: usize = cols.node_to_col[l];
                let r_col: usize = cols.node_to_col[r];
                m.push_row(l_col, &one, None, r_col, out_col, Ghost(rows));
                assert(rows + g.node_rows(ii) =~= rows.push(g.node_rows(ii)[0]));
                assert(g.node_rows(ii)[0].a =~= seq![(l_col as int, 1int)] + Seq::empty());
            },
            OpType::Scale(src, k) => {
                let src_col: usize = cols.node_to_col[src];
                let factor = Scalar::from_u64(k);
                m.push_row(src_col, &factor, None, cols.col_const_one, out_col, Ghost(rows));
                assert(rows + g.node_rows(ii) =~= rows.push(g.node_rows(ii)[0]));
                assert(g.node_rows(ii)[0].a =~= (if k == 0 {
                    Seq::<(int, int)>::empty()
                } else {
                    seq![(src_col as int, k as int)]
                }) + Seq::empty());
            },
            OpType::Pow5(_) => {
                let ghost parts = g.node_rows(ii);
                assert(cols.pow5_intermediates@[ii] is Some);
                if let Some((sq_col, qd_col, src)) = cols.pow5_intermediates[i] {
                    let src_col: usize = cols.node_to_col[src];
                    m.push_row(src_col, &one, None, src_col, sq_col, Ghost(rows));
                    assert(parts[0].a =~= seq![(src_col as int, 1int)] + Seq::empty());
                    m.push_row(sq_col, &one, None, sq_col, qd_col, Ghost(rows.push(parts[0])));
                    assert(parts[1].a =~= seq![(sq_col as int, 1int)] + Seq::empty());
                    m.push_row(
                        qd_col,
                        &one,
                        None,
                        src_col,
                        out_col,
                        Ghost(rows.push(parts[0]).push(parts[1])),
                    );
                    assert(parts[2].a =~= seq![(qd_col as int, 1int)] + Seq::empty());
                    assert(rows + parts =~= rows.push(parts[0]).push(parts[1]).push(parts[2]));
                }
            },
            OpType::Input | OpType::Output | OpType::Undefined => {
                assert(rows + g.node_rows(ii) =~= rows);
            },
        }
    }
    let Matrices { a, b, c, num_rows } = m;
    SpartanInstance {
        num_cons: num_rows,
        num_vars: cols.num_private_vars,
        num_inputs: cols.num_public_inputs,
        num_outputs: cols.output_node_order.len(),
        A: a,
        B: b,
        C: c,
    }
}

} // verus!
