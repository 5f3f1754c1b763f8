//! Eliminating variables keeps the rows in evaluation order.
use crate::convert::{form_ok, lemma_flatten_valid};
use crate::elimination::{
    compact, compact_lin, compact_row, definition, eliminable, eliminated, full_substitution,
    has_definitions, is_key, lemma_resolve_base, lemma_substitution_len, lin_canonical, live,
    live_rank, removed, resolve, rewrite, rewrite_row, rewritten, row_canonical, rows_in_range,
    survivors, Kind,
};
use crate::elimination_laws::{
    law_elimination_keeps_witnesses, law_elimination_shrinks, lemma_compact_eval,
    lemma_definition_range, lemma_eliminated_row, lemma_live_not_key, lemma_resolve_range,
    lemma_restrict, lemma_rewrite_canonical, lemma_rewrite_eval, lemma_rewrite_mentions,
    lemma_rewritten_column, lemma_satisfied_respects, lemma_survivors, project, respects,
};
use crate::field::{
    cong, ell, is_unit, lemma_cong_add, lemma_cong_mul, lemma_cong_sub, lemma_unit_cong,
    lemma_unit_product,
};
use crate::forward::lemma_unknown_below;
use crate::forward_laws::{
    agrees, has_inputs, law_rows_needed, law_unique_witness, lemma_forward_agrees,
    lemma_forward_shape, lemma_pivot_cong, lemma_sys_row_below,
};
use crate::system::{
    ambiguous, coeff, complete, entries_valid, eval, eval_except, forward, lemma_coeff_absent,
    lemma_eval_cong, lemma_row_below, lin_below, mentions, pivot, quadratic, start, step, unknown,
    Lin, Outcome, Partial, Pass, Row, System,
};
use vstd::prelude::*;

verus! {

// Coefficients and remainders as values of the form.

/// Zero everywhere but for the value `v` in column `j`.
spec fn spike(n: nat, j: int, v: int) -> Seq<int> {
    Seq::new(
        n,
        |i: int|
            if i == j {
                v
            } else {
                0
            },
    )
}

proof fn lemma_coeff_eval(l: Lin, n: nat, j: int, v: int)
    requires
        lin_below(l, n as int),
    ensures
        eval(l, spike(n, j, v)) == v * coeff(l, j),
    decreases l.len(),
{
    if l.len() > 0 {
        assert forall|i: int| 0 <= i < l.drop_last().len() implies 0 <= (
        #[trigger] l.drop_last()[i]).0 < n by {
            assert(l[i] == l.drop_last()[i]);
        }
        lemma_coeff_eval(l.drop_last(), n, j, v);
        assert(0 <= l[l.len() - 1].0 < n);
        let w = l.last().1;
        let k = coeff(l.drop_last(), j);
        assert(w * 0 == 0);
        assert(v * (k + w) == v * k + w * v) by (nonlinear_arith);
    } else {
        assert(v * 0 == 0);
    }
}

proof fn lemma_except_eval(l: Lin, j: int, z: Seq<int>)
    requires
        lin_below(l, z.len() as int),
        0 <= j < z.len(),
    ensures
        eval(l, z.update(j, 0)) == eval_except(l, j, z),
    decreases l.len(),
{
    if l.len() > 0 {
        assert forall|i: int| 0 <= i < l.drop_last().len() implies 0 <= (
        #[trigger] l.drop_last()[i]).0 < z.len() by {
            assert(l[i] == l.drop_last()[i]);
        }
        lemma_except_eval(l.drop_last(), j, z);
        assert(0 <= l[l.len() - 1].0 < z.len());
        let v = l.last().1;
        assert(v * 0 == 0);
    }
}

// Compaction.

/// No two live or public columns end up in one place.
pub proof fn lemma_compact_injective(rows: Seq<Row>, num_vars: int, c: int, d: int)
    requires
        0 <= num_vars,
        0 <= c,
        0 <= d,
        c >= num_vars || live(rows, c),
        d >= num_vars || live(rows, d),
        compact(rows, num_vars, c) == compact(rows, num_vars, d),
    ensures
        c == d,
{
    if c < d {
        lemma_compact_monotone(rows, num_vars, c, d);
    } else if d < c {
        lemma_compact_monotone(rows, num_vars, d, c);
    }
}

pub proof fn lemma_compact_monotone(rows: Seq<Row>, num_vars: int, c: int, d: int)
    requires
        0 <= num_vars,
        0 <= c < d,
        c >= num_vars || live(rows, c),
    ensures
        compact(rows, num_vars, c) < compact(rows, num_vars, d),
{
    if c < num_vars {
        let top = if d < num_vars {
            d
        } else {
            num_vars
        };
        crate::baselines::lemma_live_rank_monotone(rows, c + 1, top);
    }
}

/// Every place among the variables is taken.
pub proof fn lemma_compact_onto(rows: Seq<Row>, n: int, k: int) -> (c: int)
    requires
        0 <= n,
        0 <= k < live_rank(rows, n),
    ensures
        0 <= c < n,
        live(rows, c),
        live_rank(rows, c) == k,
    decreases n,
{
    if n == 0 {
        0
    } else if k < live_rank(rows, n - 1) {
        lemma_compact_onto(rows, n - 1, k)
    } else {
        n - 1
    }
}

// The smaller system is well formed.

proof fn lemma_compact_below(kind: Kind, sys: System, l: Lin)
    requires
        lin_below(l, sys.z_len() as int),
        lin_canonical(l),
        forall|c: int| #[trigger] mentions(l, c) && c < sys.num_vars ==> live(
            rewritten(kind, sys),
            c,
        ),
        has_definitions(kind, sys),
    ensures
        lin_below(
            compact_lin(rewritten(kind, sys), sys.num_vars as int, l),
            eliminated(kind, sys).z_len() as int,
        ),
        lin_canonical(compact_lin(rewritten(kind, sys), sys.num_vars as int, l)),
{
    let rows = rewritten(kind, sys);
    let nv = sys.num_vars as int;
    let cl = compact_lin(rows, nv, l);
    lemma_restrict(rows, nv, Seq::new(sys.z_len(), |i: int| 0));
    assert forall|i: int| 0 <= i < cl.len() implies {
        &&& 0 <= (#[trigger] cl[i]).0 < eliminated(kind, sys).z_len()
        &&& 0 <= cl[i].1 < ell()
    } by {
        assert(0 <= l[i].0 < sys.z_len());
        assert(mentions(l, l[i].0));
        assert(0 <= compact(rows, nv, l[i].0));
    }
}

/// The entries of the smaller system lie in range and are canonical.
pub proof fn lemma_eliminated_entries(kind: Kind, sys: System)
    requires
        sys.entries_valid(),
        eliminable(kind, sys),
    ensures
        eliminated(kind, sys).entries_valid(),
{
    if has_definitions(kind, sys) {
        let rows = rewritten(kind, sys);
        let nv = sys.num_vars as int;
        let out = eliminated(kind, sys);
        let sub = full_substitution(kind, sys);
        assert forall|i: int| 0 <= i < rows.len() implies {
            &&& lin_below(
                #[trigger] compact_lin(rows, nv, rows[i].a),
                out.z_len() as int,
            )
            &&& lin_below(compact_lin(rows, nv, rows[i].b), out.z_len() as int)
            &&& lin_below(compact_lin(rows, nv, rows[i].c), out.z_len() as int)
            &&& lin_canonical(compact_lin(rows, nv, rows[i].a))
            &&& lin_canonical(compact_lin(rows, nv, rows[i].b))
            &&& lin_canonical(compact_lin(rows, nv, rows[i].c))
        } by {
            let row = sys.row(survivors(kind, sys, sys.num_cons)[i]);
            lemma_rewrite_canonical(sub, row.a);
            lemma_rewrite_canonical(sub, row.b);
            lemma_rewrite_canonical(sub, row.c);
            assert(rows[i].below(sys.z_len() as int));
            assert forall|c: int| #[trigger] rows[i].mentions(c) implies live(rows, c) by {}
            assert forall|c: int| #[trigger] mentions(rows[i].a, c) implies live(rows, c) by {
                assert(rows[i].mentions(c));
            }
            assert forall|c: int| #[trigger] mentions(rows[i].b, c) implies live(rows, c) by {
                assert(rows[i].mentions(c));
            }
            assert forall|c: int| #[trigger] mentions(rows[i].c, c) implies live(rows, c) by {
                assert(rows[i].mentions(c));
            }
            lemma_compact_below(kind, sys, rows[i].a);
            lemma_compact_below(kind, sys, rows[i].b);
            lemma_compact_below(kind, sys, rows[i].c);
        }
        let la = Seq::new(rows.len(), |i: int| compact_lin(rows, nv, rows[i].a));
        let lb = Seq::new(rows.len(), |i: int| compact_lin(rows, nv, rows[i].b));
        let lc = Seq::new(rows.len(), |i: int| compact_lin(rows, nv, rows[i].c));
        assert forall|i: int| 0 <= i < la.len() implies form_ok(#[trigger] la[i], out.z_len()) by {
            assert(lin_below(compact_lin(rows, nv, rows[i].a), out.z_len() as int));
        }
        assert forall|i: int| 0 <= i < lb.len() implies form_ok(#[trigger] lb[i], out.z_len()) by {
            assert(lin_below(compact_lin(rows, nv, rows[i].a), out.z_len() as int));
        }
        assert forall|i: int| 0 <= i < lc.len() implies form_ok(#[trigger] lc[i], out.z_len()) by {
            assert(lin_below(compact_lin(rows, nv, rows[i].a), out.z_len() as int));
        }
        lemma_flatten_valid(la, rows.len(), out.z_len());
        lemma_flatten_valid(lb, rows.len(), out.z_len());
        lemma_flatten_valid(lc, rows.len(), out.z_len());
    }
}

/// A well-formed system can be eliminated from, and what is left is well formed again.
pub proof fn law_eliminable(kind: Kind, sys: System)
    requires
        sys.entries_valid(),
        sys.z_len() <= usize::MAX,
    ensures
        eliminable(kind, sys),
        eliminated(kind, sys).entries_valid(),
        eliminated(kind, sys).z_len() <= usize::MAX,
{
    let sub = full_substitution(kind, sys);
    assert forall|r: int| 0 <= r < sys.num_cons implies row_canonical(#[trigger] sys.row(r)) by {
        lemma_row_below(sys.a, r, sys.num_cons, sys.z_len());
        lemma_row_below(sys.b, r, sys.num_cons, sys.z_len());
        lemma_row_below(sys.c, r, sys.num_cons, sys.z_len());
    }
    assert(rows_in_range(sys.a, sys.num_cons));
    assert(rows_in_range(sys.b, sys.num_cons));
    assert(rows_in_range(sys.c, sys.num_cons));
    let rows = rewritten(kind, sys);
    lemma_survivors(kind, sys, sys.num_cons);
    assert forall|i: int| 0 <= i < rows.len() implies (#[trigger] rows[i]).below(
        sys.z_len() as int,
    ) by {
        let r = survivors(kind, sys, sys.num_cons)[i];
        lemma_sys_row_below(sys, r);
        lemma_rewrite_below(kind, sys, sys.row(r).a);
        lemma_rewrite_below(kind, sys, sys.row(r).b);
        lemma_rewrite_below(kind, sys, sys.row(r).c);
    }
    lemma_eliminated_entries(kind, sys);
    law_elimination_shrinks(kind, sys);
}

proof fn lemma_rewrite_below(kind: Kind, sys: System, l: Lin)
    requires
        sys.entries_valid(),
        lin_below(l, sys.z_len() as int),
    ensures
        lin_below(rewrite(full_substitution(kind, sys), l), sys.z_len() as int),
{
    let sub = full_substitution(kind, sys);
    let rl = rewrite(sub, l);
    assert forall|i: int| 0 <= i < rl.len() implies 0 <= (#[trigger] rl[i]).0 < sys.z_len() by {
        assert(mentions(rl, rl[i].0));
        let c = lemma_rewrite_mentions(sub, l, rl[i].0);
        let k = choose|k: int| 0 <= k < l.len() && (#[trigger] l[k]).0 == c;
        lemma_resolve_range(kind, sys, c);
    }
}

/// A system that has definitions to eliminate.
pub open spec fn ready(kind: Kind, sys: System) -> bool {
    &&& sys.entries_valid()
    &&& eliminable(kind, sys)
    &&& has_definitions(kind, sys)
}

/// A column that elimination keeps.
pub open spec fn kept_column(kind: Kind, sys: System, e: int) -> bool {
    &&& 0 <= e < sys.z_len()
    &&& e >= sys.num_vars || live(rewritten(kind, sys), e)
}

/// The column that stands for `c` after elimination.
pub open spec fn new_column(kind: Kind, sys: System, c: int) -> int {
    compact(
        rewritten(kind, sys),
        sys.num_vars as int,
        resolve(full_substitution(kind, sys), c).0,
    )
}

/// A form of a row and its rewriting.
spec fn form_ready(kind: Kind, sys: System, l: Lin) -> bool {
    &&& lin_below(l, sys.z_len() as int)
    &&& forall|e: int|
        #[trigger] mentions(rewrite(full_substitution(kind, sys), l), e) ==> kept_column(
            kind,
            sys,
            e,
        )
}

spec fn new_form(kind: Kind, sys: System, l: Lin) -> Lin {
    compact_lin(
        rewritten(kind, sys),
        sys.num_vars as int,
        rewrite(full_substitution(kind, sys), l),
    )
}

/// Nothing else in the form stands for what column `j` stands for.
spec fn sole(kind: Kind, sys: System, l: Lin, j: int) -> bool {
    forall|c: int|
        #[trigger] mentions(l, c) && resolve(full_substitution(kind, sys), c).0 == resolve(
            full_substitution(kind, sys),
            j,
        ).0 ==> c == j
}

proof fn lemma_mentions_below(l: Lin, n: int, c: int)
    requires
        lin_below(l, n),
        mentions(l, c),
    ensures
        0 <= c < n,
{
    let i = choose|i: int| 0 <= i < l.len() && (#[trigger] l[i]).0 == c;
}

/// A column of a rewritten form stands for itself.
proof fn lemma_rewritten_base(kind: Kind, sys: System, l: Lin, e: int)
    requires
        ready(kind, sys),
        form_ready(kind, sys, l),
        mentions(rewrite(full_substitution(kind, sys), l), e),
    ensures
        resolve(full_substitution(kind, sys), e) == (e, 1int),
        0 <= e < sys.z_len(),
{
    let sub = full_substitution(kind, sys);
    let c = lemma_rewrite_mentions(sub, l, e);
    lemma_mentions_below(l, sys.z_len() as int, c);
    lemma_resolve_range(kind, sys, c);
    lemma_resolve_base(sub, e);
}

proof fn lemma_new_form_below(kind: Kind, sys: System, l: Lin)
    requires
        ready(kind, sys),
        form_ready(kind, sys, l),
    ensures
        lin_below(new_form(kind, sys, l), eliminated(kind, sys).z_len() as int),
        lin_below(rewrite(full_substitution(kind, sys), l), sys.z_len() as int),
{
    let rl = rewrite(full_substitution(kind, sys), l);
    assert forall|i: int| 0 <= i < rl.len() implies 0 <= (#[trigger] rl[i]).0 < sys.z_len() by {
        assert(mentions(rl, rl[i].0));
    }
    lemma_rewrite_canonical(full_substitution(kind, sys), l);
    lemma_compact_below(kind, sys, rl);
}

/// The coefficient of a column is the one that it had, times the factor of its chain.
proof fn lemma_form_coeff(kind: Kind, sys: System, l: Lin, j: int)
    requires
        ready(kind, sys),
        form_ready(kind, sys, l),
        0 <= j < sys.z_len(),
        kept_column(kind, sys, resolve(full_substitution(kind, sys), j).0),
        sole(kind, sys, l, j),
    ensures
        cong(
            coeff(new_form(kind, sys, l), new_column(kind, sys, j)),
            resolve(full_substitution(kind, sys), j).1 * coeff(l, j),
        ),
{
    let sub = full_substitution(kind, sys);
    let rows = rewritten(kind, sys);
    let nv = sys.num_vars as int;
    let n = sys.z_len();
    let out = eliminated(kind, sys);
    let (e, f) = resolve(sub, j);
    let d = compact(rows, nv, e);
    let rl = rewrite(sub, l);
    let y = Seq::new(
        n,
        |c: int|
            if resolve(sub, c).0 == e {
                resolve(sub, c).1
            } else {
                0
            },
    );
    assert forall|c: int| #[trigger] mentions(l, c) implies respects(sub, y, c) by {
        lemma_mentions_below(l, n as int, c);
        lemma_resolve_range(kind, sys, c);
        let (ec, fc) = resolve(sub, c);
        lemma_resolve_base(sub, ec);
        assert(fc * 1 == fc && fc * 0 == 0);
    }
    lemma_rewrite_eval(sub, l, y);
    assert forall|c: int| #[trigger] mentions(l, c) implies cong(y[c], spike(n, j, f)[c]) by {
        lemma_mentions_below(l, n as int, c);
    }
    lemma_eval_cong(l, y, spike(n, j, f));
    lemma_coeff_eval(l, n, j, f);
    assert forall|c: int| #[trigger] mentions(rl, c) implies cong(y[c], spike(n, e, 1)[c]) by {
        lemma_rewritten_base(kind, sys, l, c);
    }
    lemma_eval_cong(rl, y, spike(n, e, 1));
    lemma_restrict(rows, nv, spike(n, e, 1));
    assert forall|c: int| #[trigger] mentions(rl, c) implies cong(
        spike(out.z_len(), d, 1)[compact(rows, nv, c)],
        spike(n, e, 1)[c],
    ) by {
        assert(kept_column(kind, sys, c));
        if compact(rows, nv, c) == d {
            lemma_compact_injective(rows, nv, c, e);
        }
    }
    lemma_compact_eval(rows, nv, rl, spike(n, e, 1), spike(out.z_len(), d, 1));
    lemma_new_form_below(kind, sys, l);
    lemma_coeff_eval(new_form(kind, sys, l), out.z_len(), d, 1);
}

/// The other terms of a form keep their value.
proof fn lemma_form_rest(kind: Kind, sys: System, l: Lin, j: int, z: Seq<int>)
    requires
        ready(kind, sys),
        form_ready(kind, sys, l),
        0 <= j < sys.z_len(),
        kept_column(kind, sys, resolve(full_substitution(kind, sys), j).0),
        sole(kind, sys, l, j),
        sys.satisfied(z),
    ensures
        cong(
            eval_except(
                new_form(kind, sys, l),
                new_column(kind, sys, j),
                project(kind, sys, z),
            ),
            eval_except(l, j, z),
        ),
{
    let sub = full_substitution(kind, sys);
    let rows = rewritten(kind, sys);
    let nv = sys.num_vars as int;
    let n = sys.z_len();
    let out = eliminated(kind, sys);
    let (e, f) = resolve(sub, j);
    let d = compact(rows, nv, e);
    let rl = rewrite(sub, l);
    let zp = project(kind, sys, z);
    let w = Seq::new(
        n,
        |c: int|
            if resolve(sub, c).0 == e {
                0
            } else {
                z[c]
            },
    );
    assert forall|c: int| #[trigger] mentions(l, c) implies respects(sub, w, c) by {
        lemma_mentions_below(l, n as int, c);
        lemma_resolve_range(kind, sys, c);
        lemma_satisfied_respects(kind, sys, z, c);
        let (ec, fc) = resolve(sub, c);
        lemma_resolve_base(sub, ec);
        assert(fc * 0 == 0);
    }
    lemma_rewrite_eval(sub, l, w);
    assert forall|c: int| #[trigger] mentions(l, c) implies cong(w[c], z.update(j, 0)[c]) by {
        lemma_mentions_below(l, n as int, c);
    }
    lemma_eval_cong(l, w, z.update(j, 0));
    lemma_except_eval(l, j, z);
    assert forall|c: int| #[trigger] mentions(rl, c) implies cong(w[c], z.update(e, 0)[c]) by {
        lemma_rewritten_base(kind, sys, l, c);
    }
    lemma_eval_cong(rl, w, z.update(e, 0));
    lemma_restrict(rows, nv, z);
    assert(0 <= compact(rows, nv, e) < out.z_len());
    assert forall|c: int| #[trigger] mentions(rl, c) implies cong(
        zp.update(d, 0)[compact(rows, nv, c)],
        z.update(e, 0)[c],
    ) by {
        assert(kept_column(kind, sys, c));
        if compact(rows, nv, c) == d {
            lemma_compact_injective(rows, nv, c, e);
        }
    }
    lemma_compact_eval(rows, nv, rl, z.update(e, 0), zp.update(d, 0));
    lemma_new_form_below(kind, sys, l);
    lemma_except_eval(new_form(kind, sys, l), d, zp);
}

/// The pivot of a rewritten row is the one that the row had, times the factor of the
/// chain, and the row stays linear in its unknown.
proof fn lemma_new_pivot(kind: Kind, sys: System, row: Row, j: int, z: Seq<int>)
    requires
        ready(kind, sys),
        form_ready(kind, sys, row.a),
        form_ready(kind, sys, row.b),
        form_ready(kind, sys, row.c),
        0 <= j < sys.z_len(),
        kept_column(kind, sys, resolve(full_substitution(kind, sys), j).0),
        sole(kind, sys, row.a, j),
        sole(kind, sys, row.b, j),
        sole(kind, sys, row.c, j),
        sys.satisfied(z),
    ensures
        ({
            let rows = rewritten(kind, sys);
            let sub = full_substitution(kind, sys);
            let rowp = compact_row(rows, sys.num_vars as int, rewrite_row(sub, row));
            let d = new_column(kind, sys, j);
            &&& cong(
                pivot(rowp, d, project(kind, sys, z)),
                resolve(sub, j).1 * pivot(row, j, z),
            )
            &&& !quadratic(row, j) ==> !quadratic(rowp, d)
        }),
{
    let sub = full_substitution(kind, sys);
    let rows = rewritten(kind, sys);
    let rowp = compact_row(rows, sys.num_vars as int, rewrite_row(sub, row));
    let d = new_column(kind, sys, j);
    let f = resolve(sub, j).1;
    let zp = project(kind, sys, z);
    lemma_form_coeff(kind, sys, row.a, j);
    lemma_form_coeff(kind, sys, row.b, j);
    lemma_form_coeff(kind, sys, row.c, j);
    lemma_form_rest(kind, sys, row.a, j, z);
    lemma_form_rest(kind, sys, row.b, j, z);
    let (aj, bj, cj) = (coeff(row.a, j), coeff(row.b, j), coeff(row.c, j));
    let (ak, bk) = (eval_except(row.a, j, z), eval_except(row.b, j, z));
    let (ajp, bjp, cjp) = (coeff(rowp.a, d), coeff(rowp.b, d), coeff(rowp.c, d));
    let (akp, bkp) = (eval_except(rowp.a, d, zp), eval_except(rowp.b, d, zp));
    lemma_cong_mul(ajp, f * aj, bkp, bk);
    lemma_cong_mul(bjp, f * bj, akp, ak);
    lemma_cong_add(ajp * bkp, (f * aj) * bk, bjp * akp, (f * bj) * ak);
    lemma_cong_sub(
        ajp * bkp + bjp * akp,
        (f * aj) * bk + (f * bj) * ak,
        cjp,
        f * cj,
    );
    assert((f * aj) * bk == f * (aj * bk)) by (nonlinear_arith);
    assert((f * bj) * ak == f * (bj * ak)) by (nonlinear_arith);
    let (x, y) = (aj * bk, bj * ak);
    assert(f * x + f * y - f * cj == f * (x + y - cj)) by (nonlinear_arith);
    if cong(aj, 0) {
        lemma_cong_mul(f, f, aj, 0);
        assert(f * 0 == 0);
    }
    if cong(bj, 0) {
        lemma_cong_mul(f, f, bj, 0);
        assert(f * 0 == 0);
    }
}

// Both passes side by side.

/// What is known of the whole system is known of the smaller one.
spec fn covers(kind: Kind, sys: System, p: Partial, q: Partial) -> bool {
    forall|c: int|
        0 <= c < sys.z_len() && #[trigger] p.known[c] && kept_column(
            kind,
            sys,
            resolve(full_substitution(kind, sys), c).0,
        ) ==> q.known[new_column(kind, sys, c)]
}

proof fn lemma_compact_mentions(rows: Seq<Row>, num_vars: int, l: Lin, d: int) -> (e: int)
    requires
        mentions(compact_lin(rows, num_vars, l), d),
    ensures
        mentions(l, e),
        compact(rows, num_vars, e) == d,
{
    let cl = compact_lin(rows, num_vars, l);
    let i = choose|i: int| 0 <= i < cl.len() && (#[trigger] cl[i]).0 == d;
    assert(mentions(l, l[i].0));
    l[i].0
}

/// The forms of a kept row are in order.
proof fn lemma_row_ready(kind: Kind, sys: System, r: int, i: int)
    requires
        ready(kind, sys),
        0 <= i < survivors(kind, sys, sys.num_cons).len(),
        survivors(kind, sys, sys.num_cons)[i] == r,
    ensures
        form_ready(kind, sys, sys.row(r).a),
        form_ready(kind, sys, sys.row(r).b),
        form_ready(kind, sys, sys.row(r).c),
        eliminated(kind, sys).row(i) == compact_row(
            rewritten(kind, sys),
            sys.num_vars as int,
            rewrite_row(full_substitution(kind, sys), sys.row(r)),
        ),
{
    lemma_sys_row_below(sys, r);
    lemma_eliminated_row(kind, sys, i);
    let row = rewritten(kind, sys)[i];
    assert(row == rewrite_row(full_substitution(kind, sys), sys.row(r)));
    assert forall|e: int| #[trigger] row.mentions(e) implies kept_column(kind, sys, e) by {
        lemma_rewritten_column(kind, sys, i, e);
    }
    assert forall|e: int| #[trigger] mentions(row.a, e) implies kept_column(kind, sys, e) by {
        assert(row.mentions(e));
    }
    assert forall|e: int| #[trigger] mentions(row.b, e) implies kept_column(kind, sys, e) by {
        assert(row.mentions(e));
    }
    assert forall|e: int| #[trigger] mentions(row.c, e) implies kept_column(kind, sys, e) by {
        assert(row.mentions(e));
    }
}

/// A column of the new row stands for a column of the row.
proof fn lemma_column_source(kind: Kind, sys: System, r: int, i: int, d: int) -> (c: int)
    requires
        ready(kind, sys),
        0 <= i < survivors(kind, sys, sys.num_cons).len(),
        survivors(kind, sys, sys.num_cons)[i] == r,
        eliminated(kind, sys).row(i).mentions(d),
    ensures
        sys.row(r).mentions(c),
        0 <= c < sys.z_len(),
        new_column(kind, sys, c) == d,
        kept_column(kind, sys, resolve(full_substitution(kind, sys), c).0),
{
    lemma_row_ready(kind, sys, r, i);
    let sub = full_substitution(kind, sys);
    let rows = rewritten(kind, sys);
    let nv = sys.num_vars as int;
    let row = sys.row(r);
    let rowp = eliminated(kind, sys).row(i);
    let c = if mentions(rowp.a, d) {
        let e = lemma_compact_mentions(rows, nv, rewrite(sub, row.a), d);
        lemma_rewrite_mentions(sub, row.a, e)
    } else if mentions(rowp.b, d) {
        let e = lemma_compact_mentions(rows, nv, rewrite(sub, row.b), d);
        lemma_rewrite_mentions(sub, row.b, e)
    } else {
        let e = lemma_compact_mentions(rows, nv, rewrite(sub, row.c), d);
        lemma_rewrite_mentions(sub, row.c, e)
    };
    lemma_sys_row_below(sys, r);
    lemma_unknown_below(row, Seq::empty(), sys.z_len() as int, c);
    c
}

/// Both passes at one point: the lengths, and one assignment that both agree with.
spec fn in_step(kind: Kind, sys: System, p: Partial, q: Partial, z: Seq<int>) -> bool {
    &&& p.z.len() == sys.z_len()
    &&& p.known.len() == sys.z_len()
    &&& q.z.len() == eliminated(kind, sys).z_len()
    &&& q.known.len() == eliminated(kind, sys).z_len()
    &&& sys.satisfied(z)
    &&& agrees(p, z)
    &&& agrees(q, project(kind, sys, z))
    &&& covers(kind, sys, p, q)
}

/// Where column `j` is the only unknown of a row and what stands for it is not known
/// either, the two pivots go together.
proof fn lemma_pivot_carries(
    kind: Kind,
    sys: System,
    r: int,
    i: int,
    p: Partial,
    q: Partial,
    z: Seq<int>,
    j: int,
)
    requires
        ready(kind, sys),
        0 <= i < survivors(kind, sys, sys.num_cons).len(),
        survivors(kind, sys, sys.num_cons)[i] == r,
        in_step(kind, sys, p, q, z),
        !ambiguous(sys.row(r), p.known),
        unknown(sys.row(r), p.known, j),
        kept_column(kind, sys, resolve(full_substitution(kind, sys), j).0),
        !q.known[new_column(kind, sys, j)],
    ensures
        ({
            let rowp = eliminated(kind, sys).row(i);
            let d = new_column(kind, sys, j);
            &&& 0 <= j < sys.z_len()
            &&& is_unit(pivot(sys.row(r), j, p.z)) ==> is_unit(pivot(rowp, d, q.z)) && unknown(
                rowp,
                q.known,
                d,
            )
            &&& !quadratic(sys.row(r), j) ==> !quadratic(rowp, d)
        }),
{
    let sub = full_substitution(kind, sys);
    let row = sys.row(r);
    let rowp = eliminated(kind, sys).row(i);
    let d = new_column(kind, sys, j);
    let out = eliminated(kind, sys);
    let zp = project(kind, sys, z);
    lemma_row_ready(kind, sys, r, i);
    lemma_sys_row_below(sys, r);
    lemma_unknown_below(row, p.known, sys.z_len() as int, j);
    assert forall|c: int| #[trigger] row.mentions(c) && resolve(sub, c).0 == resolve(
        sub,
        j,
    ).0 implies c == j by {
        lemma_unknown_below(row, p.known, sys.z_len() as int, c);
        if c != j {
            assert(!unknown(row, p.known, c));
            assert(p.known[c]);
        }
    }
    assert(sole(kind, sys, row.a, j)) by {
        assert forall|c: int| #[trigger] mentions(row.a, c) && resolve(sub, c).0 == resolve(
            sub,
            j,
        ).0 implies c == j by {
            assert(row.mentions(c));
        }
    }
    assert(sole(kind, sys, row.b, j)) by {
        assert forall|c: int| #[trigger] mentions(row.b, c) && resolve(sub, c).0 == resolve(
            sub,
            j,
        ).0 implies c == j by {
            assert(row.mentions(c));
        }
    }
    assert(sole(kind, sys, row.c, j)) by {
        assert forall|c: int| #[trigger] mentions(row.c, c) && resolve(sub, c).0 == resolve(
            sub,
            j,
        ).0 implies c == j by {
            assert(row.mentions(c));
        }
    }
    lemma_new_pivot(kind, sys, row, j, z);
    if is_unit(pivot(row, j, p.z)) {
        let f = resolve(sub, j).1;
        assert forall|c: int| #[trigger] row.mentions(c) && c != j implies cong(z[c], p.z[c]) by {
            lemma_unknown_below(row, p.known, sys.z_len() as int, c);
            assert(!unknown(row, p.known, c));
        }
        lemma_pivot_cong(row, j, z, p.z);
        lemma_unit_cong(pivot(row, j, p.z), pivot(row, j, z));
        lemma_resolve_range(kind, sys, j);
        lemma_unit_product(f, pivot(row, j, z));
        lemma_unit_cong(f * pivot(row, j, z), pivot(rowp, d, zp));
        lemma_eliminated_entries(kind, sys);
        lemma_sys_row_below(out, i);
        assert forall|c: int| #[trigger] rowp.mentions(c) && c != d implies cong(
            q.z[c],
            zp[c],
        ) by {
            lemma_unknown_below(rowp, q.known, out.z_len() as int, c);
            if !q.known[c] {
                let b = lemma_column_source(kind, sys, r, i, c);
                assert(!p.known[b]);
                assert(unknown(row, p.known, b));
                assert(b == j);
            }
        }
        lemma_pivot_cong(rowp, d, zp, q.z);
        lemma_unit_cong(pivot(rowp, d, zp), pivot(rowp, d, q.z));
        if !rowp.mentions(d) {
            lemma_coeff_absent(rowp.a, d);
            lemma_coeff_absent(rowp.b, d);
            lemma_coeff_absent(rowp.c, d);
            assert(pivot(rowp, d, q.z) == 0) by {
                assert(0 * eval_except(rowp.b, d, q.z) == 0);
                assert(0 * eval_except(rowp.a, d, q.z) == 0);
            }
            crate::field::lemma_zero_not_unit(0);
        }
    }
}

/// A kept row takes both passes on.
proof fn lemma_step_kept(
    kind: Kind,
    sys: System,
    r: int,
    i: int,
    p: Partial,
    q: Partial,
    z: Seq<int>,
    p2: Partial,
) -> (q2: Partial)
    requires
        ready(kind, sys),
        0 <= i < survivors(kind, sys, sys.num_cons).len(),
        survivors(kind, sys, sys.num_cons)[i] == r,
        in_step(kind, sys, p, q, z),
        step(sys.row(r), p) == Outcome::Next(p2),
    ensures
        step(eliminated(kind, sys).row(i), q) == Outcome::Next(q2),
        covers(kind, sys, p2, q2),
{
    let sub = full_substitution(kind, sys);
    let out = eliminated(kind, sys);
    let row = sys.row(r);
    let rowp = out.row(i);
    lemma_sys_row_below(sys, r);
    lemma_eliminated_entries(kind, sys);
    lemma_sys_row_below(out, i);
    // What the new row leaves open, the row leaves open.
    assert forall|d: int| #[trigger] unknown(rowp, q.known, d) implies exists|c: int| #[trigger]
        unknown(row, p.known, c) && new_column(kind, sys, c) == d && kept_column(
            kind,
            sys,
            resolve(sub, c).0,
        ) by {
        let c = lemma_column_source(kind, sys, r, i, d);
        assert(!p.known[c]);
        assert(unknown(row, p.known, c));
    }
    assert(!ambiguous(rowp, q.known));
    let q2 = if exists|d: int| unknown(rowp, q.known, d) {
        let d = choose|d: int| unknown(rowp, q.known, d);
        let j = choose|c: int| #[trigger]
            unknown(row, p.known, c) && new_column(kind, sys, c) == d && kept_column(
                kind,
                sys,
                resolve(sub, c).0,
            );
        assert(j == choose|c: int| unknown(row, p.known, c));
        lemma_unknown_below(rowp, q.known, out.z_len() as int, d);
        lemma_pivot_carries(kind, sys, r, i, p, q, z, j);
        if is_unit(pivot(rowp, d, q.z)) {
            Partial {
                z: q.z.update(
                    d,
                    (crate::system::target(rowp, d, q.z) * crate::field::inverse(
                        pivot(rowp, d, q.z),
                    )) % ell(),
                ),
                known: q.known.update(d, true),
            }
        } else {
            q
        }
    } else {
        q
    };
    assert(step(rowp, q) == Outcome::Next(q2));
    assert forall|c: int| 0 <= c < sys.z_len() && #[trigger] p2.known[c] && kept_column(
        kind,
        sys,
        resolve(sub, c).0,
    ) implies q2.known[new_column(kind, sys, c)] by {
        lemma_restrict(rewritten(kind, sys), sys.num_vars as int, z);
        assert(0 <= new_column(kind, sys, c) < out.z_len());
        if p.known[c] {
            assert(q.known[new_column(kind, sys, c)]);
        } else {
            let j = choose|c: int| unknown(row, p.known, c);
            lemma_unknown_below(row, p.known, sys.z_len() as int, j);
            assert(c == j);
            if !q.known[new_column(kind, sys, j)] {
                lemma_pivot_carries(kind, sys, r, i, p, q, z, j);
                assert(unknown(rowp, q.known, new_column(kind, sys, j)));
            }
        }
    }
    q2
}

/// A definition tells nothing new of the smaller system.
proof fn lemma_step_removed(
    kind: Kind,
    sys: System,
    r: int,
    p: Partial,
    q: Partial,
    z: Seq<int>,
    p2: Partial,
)
    requires
        ready(kind, sys),
        0 <= r < sys.num_cons,
        removed(kind, sys, r),
        in_step(kind, sys, p, q, z),
        p.known[sys.num_vars as int],
        step(sys.row(r), p) == Outcome::Next(p2),
    ensures
        covers(kind, sys, p2, q),
{
    let sub = full_substitution(kind, sys);
    let row = sys.row(r);
    let (key, by) = definition(kind, row, sys.num_vars as int)->0;
    lemma_definition_range(kind, sys, r);
    lemma_substitution_len(kind, sys, sys.num_cons);
    lemma_sys_row_below(sys, r);
    assert(mentions(row.a, row.a[0].0));
    assert(mentions(row.c, row.c[0].0));
    assert(row.mentions(key));
    assert(row.mentions(by.0));
    assert forall|c: int| 0 <= c < sys.z_len() && #[trigger] p2.known[c] && kept_column(
        kind,
        sys,
        resolve(sub, c).0,
    ) implies q.known[new_column(kind, sys, c)] by {
        if !p.known[c] {
            let j = choose|c: int| unknown(row, p.known, c);
            lemma_unknown_below(row, p.known, sys.z_len() as int, j);
            assert(c == j);
            assert(j == key || j == by.0);
            if key == by.0 {
                lemma_tautology_pins_nothing(row, sys.num_vars as int, key, p, z);
            } else {
                let other = if j == key {
                    by.0
                } else {
                    key
                };
                assert(!unknown(row, p.known, other));
                assert(p.known[other]);
            }
        }
    }
}

/// A row that equates a column with itself does not determine it.
proof fn lemma_tautology_pins_nothing(row: Row, num_vars: int, j: int, p: Partial, z: Seq<int>)
    requires
        definition(Kind::Alias, row, num_vars) == Some((j, (j, 1int))),
        j < num_vars < p.known.len(),
        p.known[num_vars],
        agrees(p, z),
        z[num_vars] == 1,
    ensures
        !is_unit(pivot(row, j, p.z)),
{
    let one = p.z[num_vars];
    assert(row.a.drop_last() =~= Seq::empty());
    assert(row.b.drop_last() =~= Seq::empty());
    assert(row.c.drop_last() =~= Seq::empty());
    assert(coeff(row.a, j) == 1) by {
        assert(coeff(row.a.drop_last(), j) == 0);
    }
    assert(coeff(row.b, j) == 0) by {
        assert(coeff(row.b.drop_last(), j) == 0);
    }
    assert(coeff(row.c, j) == 1) by {
        assert(coeff(row.c.drop_last(), j) == 0);
    }
    assert(eval_except(row.b, j, p.z) == one) by {
        assert(eval_except(row.b.drop_last(), j, p.z) == 0);
    }
    assert(0 * eval_except(row.a, j, p.z) == 0);
    assert(pivot(row, j, p.z) == one - 1);
    assert(cong(z[num_vars], one));
    lemma_cong_sub(one, 1, 1, 1);
    crate::field::lemma_zero_not_unit(one - 1);
}

proof fn lemma_survivors_prefix(kind: Kind, sys: System, n: nat, m: nat)
    requires
        n <= m,
    ensures
        survivors(kind, sys, n).len() <= survivors(kind, sys, m).len(),
        forall|i: int|
            0 <= i < survivors(kind, sys, n).len() ==> survivors(kind, sys, m)[i]
                == #[trigger] survivors(kind, sys, n)[i],
    decreases m - n,
{
    if n < m {
        lemma_survivors_prefix(kind, sys, n, (m - 1) as nat);
    }
}

/// An assignment keeps its circuit inputs.
proof fn lemma_project_inputs(
    kind: Kind,
    sys: System,
    num_outputs: nat,
    inputs: Seq<int>,
    z: Seq<int>,
)
    requires
        ready(kind, sys),
        num_outputs + inputs.len() == sys.num_inputs,
        sys.satisfied(z),
        has_inputs(sys, num_outputs, inputs, z),
    ensures
        has_inputs(eliminated(kind, sys), num_outputs, inputs, project(kind, sys, z)),
{
    let out = eliminated(kind, sys);
    let rows = rewritten(kind, sys);
    let nv = sys.num_vars as int;
    lemma_restrict(rows, nv, z);
    assert forall|i: int| 0 <= i < inputs.len() implies cong(
        #[trigger] project(kind, sys, z)[out.num_vars + 1 + num_outputs + i],
        inputs[i],
    ) by {
        let c = nv + 1 + num_outputs + i;
        assert(cong(z[sys.num_vars + 1 + num_outputs + i], inputs[i]));
        assert(compact(rows, nv, c) == out.num_vars + 1 + num_outputs + i);
    }
}

/// The pass over the smaller system keeps up with the one over the whole system.
proof fn lemma_forward_follows(
    kind: Kind,
    sys: System,
    num_outputs: nat,
    inputs: Seq<int>,
    n: nat,
    p: Partial,
    z: Seq<int>,
) -> (q: Partial)
    requires
        ready(kind, sys),
        num_outputs + inputs.len() == sys.num_inputs,
        n <= sys.num_cons,
        forward(sys, num_outputs, inputs, n) == Pass::Running(p),
        sys.satisfied(z),
        has_inputs(sys, num_outputs, inputs, z),
    ensures
        forward(
            eliminated(kind, sys),
            num_outputs,
            inputs,
            survivors(kind, sys, n).len(),
        ) == Pass::Running(q),
        covers(kind, sys, p, q),
    decreases n,
{
    let out = eliminated(kind, sys);
    let sub = full_substitution(kind, sys);
    let nv = sys.num_vars as int;
    lemma_survivors_prefix(kind, sys, n, sys.num_cons);
    lemma_substitution_len(kind, sys, sys.num_cons);
    if n == 0 {
        let q = start(out, num_outputs, inputs);
        assert forall|c: int| 0 <= c < sys.z_len() && #[trigger] p.known[c] && kept_column(
            kind,
            sys,
            resolve(sub, c).0,
        ) implies q.known[new_column(kind, sys, c)] by {
            assert(!is_key(sub, c));
            lemma_resolve_base(sub, c);
        }
        q
    } else {
        match forward(sys, num_outputs, inputs, (n - 1) as nat) {
            Pass::Running(p0) => {
                let q0 = lemma_forward_follows(
                    kind,
                    sys,
                    num_outputs,
                    inputs,
                    (n - 1) as nat,
                    p0,
                    z,
                );
                let i = survivors(kind, sys, (n - 1) as nat).len();
                lemma_survivors_prefix(kind, sys, (n - 1) as nat, n);
                let zp = project(kind, sys, z);
                law_elimination_keeps_witnesses(kind, sys, z);
                lemma_project_inputs(kind, sys, num_outputs, inputs, z);
                lemma_eliminated_entries(kind, sys);
                lemma_forward_agrees(sys, num_outputs, inputs, (n - 1) as nat, p0, z);
                lemma_forward_shape(sys, num_outputs, inputs, (n - 1) as nat, p0);
                lemma_forward_agrees(out, num_outputs, inputs, i, q0, zp);
                lemma_forward_shape(out, num_outputs, inputs, i, q0);
                assert(start(sys, num_outputs, inputs).known[nv]);
                assert(p0.known[nv]);
                if removed(kind, sys, n - 1) {
                    lemma_step_removed(kind, sys, n - 1, p0, q0, z, p);
                    q0
                } else {
                    assert(survivors(kind, sys, n)[i as int] == n - 1);
                    let q = lemma_step_kept(kind, sys, n - 1, i as int, p0, q0, z, p);
                    assert(forward(out, num_outputs, inputs, (i + 1) as nat) == Pass::Running(q));
                    q
                }
            },
            _ => {
                assert(false);
                p
            },
        }
    }
}

/// Eliminating variables keeps the rows in evaluation order: where the forward pass
/// determines a satisfying assignment of the whole system, it determines what is left
/// of that assignment on the smaller system, which is valid too.
pub proof fn law_elimination_keeps_order(
    kind: Kind,
    sys: System,
    num_outputs: nat,
    inputs: Seq<int>,
    p: Partial,
    z: Seq<int>,
) -> (q: Partial)
    requires
        sys.valid(),
        eliminable(kind, sys),
        num_outputs + inputs.len() == sys.num_inputs,
        forward(sys, num_outputs, inputs, sys.num_cons) == Pass::Running(p),
        complete(p.known, sys.num_vars, num_outputs),
        sys.satisfied(z),
        has_inputs(sys, num_outputs, inputs, z),
    ensures
        eliminated(kind, sys).valid(),
        forward(
            eliminated(kind, sys),
            num_outputs,
            inputs,
            eliminated(kind, sys).num_cons,
        ) == Pass::Running(q),
        complete(q.known, eliminated(kind, sys).num_vars, num_outputs),
        eliminated(kind, sys).satisfied(project(kind, sys, z)),
        has_inputs(eliminated(kind, sys), num_outputs, inputs, project(kind, sys, z)),
        forall|c: int|
            0 <= c < eliminated(kind, sys).z_len() ==> cong(
                #[trigger] q.z[c],
                project(kind, sys, z)[c],
            ),
{
    let out = eliminated(kind, sys);
    law_elimination_keeps_witnesses(kind, sys, z);
    let q = if has_definitions(kind, sys) {
        let rows = rewritten(kind, sys);
        let sub = full_substitution(kind, sys);
        let nv = sys.num_vars as int;
        let q = lemma_forward_follows(kind, sys, num_outputs, inputs, sys.num_cons, p, z);
        lemma_eliminated_entries(kind, sys);
        lemma_project_inputs(kind, sys, num_outputs, inputs, z);
        law_elimination_shrinks(kind, sys);
        lemma_substitution_len(kind, sys, sys.num_cons);
        assert forall|k: int| 0 <= k < out.num_vars implies q.known[k] by {
            let c = lemma_compact_onto(rows, nv, k);
            lemma_live_not_key(kind, sys, c);
            lemma_resolve_base(sub, c);
            assert(p.known[c]);
            assert(new_column(kind, sys, c) == k);
        }
        assert forall|k: int| out.num_vars < k <= out.num_vars + num_outputs implies q.known[k] by {
            let c = k - out.num_vars + nv;
            assert(!is_key(sub, c));
            lemma_resolve_base(sub, c);
            assert(p.known[c]);
            assert(new_column(kind, sys, c) == k);
        }
        law_rows_needed(out, num_outputs, inputs, q);
        q
    } else {
        p
    };
    law_unique_witness(out, num_outputs, inputs, q, project(kind, sys, z));
    q
}

/// Whether a column occurs in some row of a system.
pub open spec fn occurs(sys: System, c: int) -> bool {
    exists|i: int| 0 <= i < sys.num_cons && (#[trigger] sys.row(i)).mentions(c)
}

/// Elimination leaves no dangling columns: every column of the smaller system exists, and
/// where something was eliminated, every variable of it occurs in some row.
pub proof fn law_elimination_leaves_no_gaps(kind: Kind, sys: System)
    requires
        sys.entries_valid(),
        eliminable(kind, sys),
    ensures
        eliminated(kind, sys).entries_valid(),
        has_definitions(kind, sys) ==> forall|k: int|
            0 <= k < eliminated(kind, sys).num_vars ==> #[trigger] occurs(
                eliminated(kind, sys),
                k,
            ),
{
    lemma_eliminated_entries(kind, sys);
    if has_definitions(kind, sys) {
        let out = eliminated(kind, sys);
        let rows = rewritten(kind, sys);
        let nv = sys.num_vars as int;
        assert forall|k: int| 0 <= k < out.num_vars implies #[trigger] occurs(out, k) by {
            let c = lemma_compact_onto(rows, nv, k);
            let i = choose|i: int| 0 <= i < rows.len() && (#[trigger] rows[i]).mentions(c);
            lemma_eliminated_row(kind, sys, i);
            assert(compact(rows, nv, c) == k);
            if mentions(rows[i].a, c) {
                lemma_mentions_compact(rows, nv, rows[i].a, c);
            } else if mentions(rows[i].b, c) {
                lemma_mentions_compact(rows, nv, rows[i].b, c);
            } else {
                lemma_mentions_compact(rows, nv, rows[i].c, c);
            }
            assert(out.row(i).mentions(k));
        }
    }
}

proof fn lemma_mentions_compact(rows: Seq<Row>, num_vars: int, l: Lin, c: int)
    requires
        mentions(l, c),
    ensures
        mentions(compact_lin(rows, num_vars, l), compact(rows, num_vars, c)),
{
    let i = choose|i: int| 0 <= i < l.len() && (#[trigger] l[i]).0 == c;
    assert(compact_lin(rows, num_vars, l)[i].0 == compact(rows, num_vars, c));
}

} // verus!
