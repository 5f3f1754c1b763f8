//! Eliminating variables keeps the relation between the public values.
use crate::convert::lemma_flatten_row;
use crate::elimination::{
    add_term, addition, adds, chain, compact, compact_lin, compact_row, definition, drop_zeros,
    eliminable, eliminated, ends, full_substitution, has_definitions, is_key, lemma_added_row,
    lemma_resolve_base, lemma_resolved, lemma_substitution_acyclic, lemma_substitution_len,
    lin_canonical, live, live_rank, merge, position, removed, replace, resolve, rewrite,
    rewrite_row, rewritten, substitution, survivors, Kind, Substitution,
};
use crate::field::{cong, ell, is_unit, lemma_cong_add, lemma_cong_mul, lemma_ell, lemma_mod_range};
use crate::forward_laws::lemma_sys_row_below;
use crate::system::{entries_valid, eval, lemma_mentions_push, mentions, Lin, Row, System};
use vstd::prelude::*;

verus! {

// Rewriting keeps the value of a form.

/// An assignment gives a column the value of the one that stands for it.
pub open spec fn respects(sub: Substitution, z: Seq<int>, c: int) -> bool {
    cong(z[c], resolve(sub, c).1 * z[resolve(sub, c).0])
}

proof fn lemma_replace_eval(sub: Substitution, l: Lin, z: Seq<int>)
    requires
        forall|c: int| #[trigger] mentions(l, c) ==> respects(sub, z, c),
    ensures
        cong(eval(replace(sub, l), z), eval(l, z)),
    decreases l.len(),
{
    if l.len() > 0 {
        let d = l.drop_last();
        assert forall|c: int| #[trigger] mentions(d, c) implies respects(sub, z, c) by {
            lemma_mentions_push(l, c);
        }
        lemma_replace_eval(sub, d, z);
        let r = replace(sub, l);
        assert(r.drop_last() =~= replace(sub, d));
        let (c, v) = l.last();
        let (e, f) = resolve(sub, c);
        lemma_mentions_push(l, c);
        assert(mentions(l, c));
        assert(respects(sub, z, c));
        lemma_mod_range(v * f);
        lemma_cong_mul((v * f) % ell(), v * f, z[e], z[e]);
        assert((v * f) * z[e] == v * (f * z[e])) by (nonlinear_arith);
        lemma_cong_mul(v, v, f * z[e], z[c]);
        lemma_cong_add(eval(replace(sub, d), z), eval(d, z), r.last().1 * z[e], v * z[c]);
    }
}

proof fn lemma_eval_update(m: Lin, i: int, w: int, z: Seq<int>)
    requires
        0 <= i < m.len(),
    ensures
        eval(m.update(i, (m[i].0, w)), z) == eval(m, z) + (w - m[i].1) * z[m[i].0],
    decreases m.len(),
{
    let u = m.update(i, (m[i].0, w));
    let x = z[m[i].0];
    if i == m.len() - 1 {
        assert(u.drop_last() =~= m.drop_last());
        assert(w * x == m[i].1 * x + (w - m[i].1) * x) by (nonlinear_arith);
    } else {
        lemma_eval_update(m.drop_last(), i, w, z);
        assert(u.drop_last() =~= m.drop_last().update(i, (m[i].0, w)));
        assert(u.last() == m.last());
    }
}

proof fn lemma_add_term_eval(m: Lin, term: (int, int), z: Seq<int>)
    ensures
        cong(eval(add_term(m, term), z), eval(m, z) + term.1 * z[term.0]),
{
    match position(m, term.0) {
        Some(i) => {
            let w = (m[i].1 + term.1) % ell();
            let x = z[term.0];
            lemma_eval_update(m, i, w, z);
            lemma_mod_range(m[i].1 + term.1);
            crate::field::lemma_cong_sub(w, m[i].1 + term.1, m[i].1, m[i].1);
            lemma_cong_mul(w - m[i].1, term.1, x, x);
            lemma_cong_add(eval(m, z), eval(m, z), (w - m[i].1) * x, term.1 * x);
        },
        None => {
            assert(m.push(term).drop_last() =~= m);
        },
    }
}

proof fn lemma_merge_eval(l: Lin, z: Seq<int>)
    ensures
        cong(eval(merge(l), z), eval(l, z)),
    decreases l.len(),
{
    if l.len() > 0 {
        lemma_merge_eval(l.drop_last(), z);
        lemma_add_term_eval(merge(l.drop_last()), l.last(), z);
        let t = l.last().1 * z[l.last().0];
        lemma_cong_add(eval(merge(l.drop_last()), z), eval(l.drop_last(), z), t, t);
    }
}

proof fn lemma_drop_zeros_eval(l: Lin, z: Seq<int>)
    ensures
        eval(drop_zeros(l), z) == eval(l, z),
    decreases l.len(),
{
    if l.len() > 0 {
        lemma_drop_zeros_eval(l.drop_last(), z);
        let d = drop_zeros(l.drop_last());
        if l.last().1 != 0 {
            assert(d.push(l.last()).drop_last() =~= d);
        }
    }
}

/// Rewriting a form keeps its value.
pub proof fn lemma_rewrite_eval(sub: Substitution, l: Lin, z: Seq<int>)
    requires
        forall|c: int| #[trigger] mentions(l, c) ==> respects(sub, z, c),
    ensures
        cong(eval(rewrite(sub, l), z), eval(l, z)),
{
    lemma_replace_eval(sub, l, z);
    lemma_merge_eval(replace(sub, l), z);
    lemma_drop_zeros_eval(merge(replace(sub, l)), z);
}

// Which columns a rewritten form holds.

proof fn lemma_merge_mentions(l: Lin, c: int)
    requires
        mentions(merge(l), c),
    ensures
        mentions(l, c),
    decreases l.len(),
{
    if l.len() > 0 {
        let m = merge(l.drop_last());
        let t = l.last();
        let i = choose|i: int| 0 <= i < merge(l).len() && (#[trigger] merge(l)[i]).0 == c;
        lemma_mentions_push(l, c);
        match position(m, t.0) {
            Some(k) => {
                if i == k {
                    assert(t.0 == c);
                } else {
                    assert(m[i].0 == c);
                    lemma_merge_mentions(l.drop_last(), c);
                }
            },
            None => {
                if i < m.len() {
                    assert(m[i].0 == c);
                    lemma_merge_mentions(l.drop_last(), c);
                }
            },
        }
    }
}

proof fn lemma_drop_zeros_mentions(l: Lin, c: int)
    requires
        mentions(drop_zeros(l), c),
    ensures
        mentions(l, c),
    decreases l.len(),
{
    if l.len() > 0 {
        let d = drop_zeros(l.drop_last());
        let i = choose|i: int| 0 <= i < drop_zeros(l).len() && (#[trigger] drop_zeros(l)[i]).0 == c;
        lemma_mentions_push(l, c);
        if i < d.len() {
            assert(d[i].0 == c);
            lemma_drop_zeros_mentions(l.drop_last(), c);
        }
    }
}

/// A column of a rewritten form stands for some column of the form.
pub proof fn lemma_rewrite_mentions(sub: Substitution, l: Lin, e: int) -> (c: int)
    requires
        mentions(rewrite(sub, l), e),
    ensures
        mentions(l, c),
        resolve(sub, c).0 == e,
{
    let r = replace(sub, l);
    lemma_drop_zeros_mentions(merge(r), e);
    lemma_merge_mentions(r, e);
    let i = choose|i: int| 0 <= i < r.len() && (#[trigger] r[i]).0 == e;
    assert(l[i].0 == l[i].0);
    l[i].0
}

proof fn lemma_merge_canonical(l: Lin)
    requires
        lin_canonical(l),
    ensures
        lin_canonical(merge(l)),
    decreases l.len(),
{
    if l.len() > 0 {
        assert forall|i: int| 0 <= i < l.drop_last().len() implies 0 <= (
        #[trigger] l.drop_last()[i]).1 < ell() by {
            assert(l[i] == l.drop_last()[i]);
        }
        lemma_merge_canonical(l.drop_last());
        let m = merge(l.drop_last());
        assert(l[l.len() - 1] == l.last());
        if position(m, l.last().0) is Some {
            lemma_mod_range(m[position(m, l.last().0)->0].1 + l.last().1);
        }
    }
}

proof fn lemma_drop_zeros_canonical(l: Lin)
    requires
        lin_canonical(l),
    ensures
        lin_canonical(drop_zeros(l)),
    decreases l.len(),
{
    if l.len() > 0 {
        assert forall|i: int| 0 <= i < l.drop_last().len() implies 0 <= (
        #[trigger] l.drop_last()[i]).1 < ell() by {
            assert(l[i] == l.drop_last()[i]);
        }
        lemma_drop_zeros_canonical(l.drop_last());
        assert(l[l.len() - 1] == l.last());
    }
}

pub proof fn lemma_rewrite_canonical(sub: Substitution, l: Lin)
    ensures
        lin_canonical(rewrite(sub, l)),
{
    let r = replace(sub, l);
    assert forall|i: int| 0 <= i < r.len() implies 0 <= (#[trigger] r[i]).1 < ell() by {
        lemma_mod_range(l[i].1 * resolve(sub, l[i].0).1);
    }
    lemma_merge_canonical(r);
    lemma_drop_zeros_canonical(merge(r));
}

// Compaction.

/// The values of the live columns below `n`, in order.
pub open spec fn live_values(rows: Seq<Row>, z: Seq<int>, n: int) -> Seq<int>
    decreases n,
{
    if n <= 0 {
        Seq::empty()
    } else if live(rows, n - 1) {
        live_values(rows, z, n - 1).push(z[n - 1])
    } else {
        live_values(rows, z, n - 1)
    }
}

/// The part of an assignment that is left once dead variables are gone.
pub open spec fn restrict(rows: Seq<Row>, num_vars: int, z: Seq<int>) -> Seq<int> {
    live_values(rows, z, num_vars) + z.skip(num_vars)
}

proof fn lemma_live_values(rows: Seq<Row>, z: Seq<int>, n: int)
    requires
        0 <= n,
    ensures
        live_values(rows, z, n).len() == live_rank(rows, n),
        forall|c: int|
            0 <= c < n && #[trigger] live(rows, c) ==> live_rank(rows, c) < live_rank(rows, n)
                && live_values(rows, z, n)[live_rank(rows, c) as int] == z[c],
    decreases n,
{
    if n > 0 {
        lemma_live_values(rows, z, n - 1);
    }
}

/// Where a live or public column ends up.
pub proof fn lemma_restrict(rows: Seq<Row>, num_vars: int, z: Seq<int>)
    requires
        0 <= num_vars <= z.len(),
    ensures
        restrict(rows, num_vars, z).len() == live_rank(rows, num_vars) + z.len() - num_vars,
        forall|c: int|
            0 <= c < z.len() && (c >= num_vars || live(rows, c)) ==> {
                &&& 0 <= #[trigger] compact(rows, num_vars, c) < live_rank(rows, num_vars) + z.len()
                    - num_vars
                &&& restrict(rows, num_vars, z)[compact(rows, num_vars, c)] == z[c]
            },
{
    lemma_live_values(rows, z, num_vars);
    assert forall|c: int| 0 <= c < z.len() && (c >= num_vars || live(rows, c)) implies {
        &&& 0 <= #[trigger] compact(rows, num_vars, c) < live_rank(rows, num_vars) + z.len()
            - num_vars
        &&& restrict(rows, num_vars, z)[compact(rows, num_vars, c)] == z[c]
    } by {
        if c < num_vars {
            assert(live(rows, c));
        }
    }
}

/// Compacting a form keeps its value on compacted assignments.
pub proof fn lemma_compact_eval(rows: Seq<Row>, num_vars: int, l: Lin, z: Seq<int>, zp: Seq<int>)
    requires
        forall|c: int| #[trigger] mentions(l, c) ==> cong(zp[compact(rows, num_vars, c)], z[c]),
    ensures
        cong(eval(compact_lin(rows, num_vars, l), zp), eval(l, z)),
    decreases l.len(),
{
    if l.len() > 0 {
        let d = l.drop_last();
        let cl = compact_lin(rows, num_vars, l);
        assert(cl.drop_last() =~= compact_lin(rows, num_vars, d));
        assert forall|c: int| #[trigger] mentions(d, c) implies cong(
            zp[compact(rows, num_vars, c)],
            z[c],
        ) by {
            lemma_mentions_push(l, c);
        }
        lemma_compact_eval(rows, num_vars, d, z, zp);
        let (c, v) = l.last();
        lemma_mentions_push(l, c);
        assert(mentions(l, c));
        let e = compact(rows, num_vars, c);
        lemma_cong_mul(v, v, zp[e], z[c]);
        lemma_cong_add(
            eval(compact_lin(rows, num_vars, d), zp),
            eval(d, z),
            v * zp[e],
            v * z[c],
        );
    }
}

/// The rows of a system with definitions eliminated.
pub proof fn lemma_eliminated_row(kind: Kind, sys: System, i: int)
    requires
        has_definitions(kind, sys),
        0 <= i < rewritten(kind, sys).len(),
    ensures
        eliminated(kind, sys).row(i) == compact_row(
            rewritten(kind, sys),
            sys.num_vars as int,
            rewritten(kind, sys)[i],
        ),
{
    let rows = rewritten(kind, sys);
    let nv = sys.num_vars as int;
    lemma_flatten_row(Seq::new(rows.len(), |i: int| compact_lin(rows, nv, rows[i].a)), i);
    lemma_flatten_row(Seq::new(rows.len(), |i: int| compact_lin(rows, nv, rows[i].b)), i);
    lemma_flatten_row(Seq::new(rows.len(), |i: int| compact_lin(rows, nv, rows[i].c)), i);
}

/// The rows that are kept, in order.
pub proof fn lemma_survivors(kind: Kind, sys: System, n: nat)
    ensures
        survivors(kind, sys, n).len() <= n,
        forall|i: int|
            0 <= i < survivors(kind, sys, n).len() ==> 0 <= (#[trigger] survivors(kind, sys, n)[i])
                < n && !removed(kind, sys, survivors(kind, sys, n)[i]),
        forall|r: int|
            0 <= r < n && !(#[trigger] removed(kind, sys, r)) ==> survivors(
                kind,
                sys,
                n,
            ).contains(r),
    decreases n,
{
    if n > 0 {
        let before = survivors(kind, sys, (n - 1) as nat);
        lemma_survivors(kind, sys, (n - 1) as nat);
        assert forall|r: int| 0 <= r < n && !(#[trigger] removed(kind, sys, r)) implies survivors(
            kind,
            sys,
            n,
        ).contains(r) by {
            if r < n - 1 {
                assert(before.contains(r));
                let i = choose|i: int| 0 <= i < before.len() && before[i] == r;
                assert(survivors(kind, sys, n)[i] == r);
            } else {
                assert(survivors(kind, sys, n)[before.len() as int] == r);
            }
        }
    }
}

// Definitions and the substitution.

/// Every substitution stands in some row.
pub proof fn lemma_key_has_row(kind: Kind, sys: System, n: nat, c: int) -> (r: int)
    requires
        is_key(substitution(kind, sys, n), c),
    ensures
        0 <= r < n,
        definition(kind, sys.row(r), sys.num_vars as int) == Some(
            (c, substitution(kind, sys, n)[c]->0),
        ),
        adds(kind, sys, r),
    decreases n,
{
    if n == 0 {
        assert(false);
        0
    } else {
        let before = substitution(kind, sys, (n - 1) as nat);
        lemma_substitution_len(kind, sys, (n - 1) as nat);
        reveal(addition);
        match addition(kind, before, sys.row(n - 1), sys.num_vars as int) {
            Some((key, by)) => if key == c {
                n - 1
            } else {
                assert(is_key(before, c));
                lemma_key_has_row(kind, sys, (n - 1) as nat, c)
            },
            None => lemma_key_has_row(kind, sys, (n - 1) as nat, c),
        }
    }
}

/// A defined variable lies among the private ones, and its definition in range.
pub proof fn lemma_definition_range(kind: Kind, sys: System, r: int)
    requires
        sys.entries_valid(),
        definition(kind, sys.row(r), sys.num_vars as int) is Some,
    ensures
        ({
            let (key, by) = definition(kind, sys.row(r), sys.num_vars as int)->0;
            &&& 0 <= key < sys.num_vars
            &&& 0 <= by.0 < sys.z_len()
            &&& is_unit(by.1)
        }),
{
    lemma_sys_row_below(sys, r);
    let row = sys.row(r);
    assert(0 <= row.a[0].0 < sys.z_len());
    assert(0 <= row.c[0].0 < sys.z_len());
    crate::field::lemma_unit_one();
}

/// A definition holds exactly when the variable has the value of what replaces it.
pub proof fn lemma_definition_holds(kind: Kind, row: Row, num_vars: int, z: Seq<int>)
    requires
        definition(kind, row, num_vars) is Some,
        z[num_vars] == 1,
    ensures
        ({
            let (key, by) = definition(kind, row, num_vars)->0;
            row.holds(z) <==> cong(z[key], by.1 * z[by.0])
        }),
{
    reveal_with_fuel(eval, 2);
    assert(row.a.drop_last() =~= Seq::empty());
    assert(row.b.drop_last() =~= Seq::empty());
    assert(row.c.drop_last() =~= Seq::empty());
    assert(eval(row.a, z) == row.a[0].1 * z[row.a[0].0]);
    assert(eval(row.b, z) == 1);
    assert(eval(row.c, z) == z[row.c[0].0]);
    assert(eval(row.a, z) * 1 == eval(row.a, z));
}

/// An assignment that meets every definition respects the whole substitution.
pub proof fn lemma_chain_value(sub: Substitution, z: Seq<int>, c: int, n: nat)
    requires
        forall|d: int| #[trigger] is_key(sub, d) ==> cong(z[d], (sub[d]->0).1 * z[(sub[d]->0).0]),
    ensures
        cong(z[c], chain(sub, c, n).1 * z[chain(sub, c, n).0]),
    decreases n,
{
    if n > 0 && is_key(sub, c) {
        let by = sub[c]->0;
        let rest = chain(sub, by.0, (n - 1) as nat);
        lemma_chain_value(sub, z, by.0, (n - 1) as nat);
        lemma_cong_mul(by.1, by.1, z[by.0], rest.1 * z[rest.0]);
        assert(by.1 * (rest.1 * z[rest.0]) == (by.1 * rest.1) * z[rest.0]) by (nonlinear_arith);
    }
}

pub proof fn lemma_satisfied_respects(kind: Kind, sys: System, z: Seq<int>, c: int)
    requires
        sys.satisfied(z),
    ensures
        respects(full_substitution(kind, sys), z, c),
{
    let sub = full_substitution(kind, sys);
    assert forall|d: int| #[trigger] is_key(sub, d) implies cong(
        z[d],
        (sub[d]->0).1 * z[(sub[d]->0).0],
    ) by {
        let r = lemma_key_has_row(kind, sys, sys.num_cons, d);
        assert(sys.row(r).holds(z));
        lemma_definition_holds(kind, sys.row(r), sys.num_vars as int, z);
    }
    lemma_chain_value(sub, z, c, choose|n: nat| ends(sub, c, n));
}

/// A rewritten row holds when the row does, once its columns are respected.
pub proof fn lemma_rewrite_row_holds(sub: Substitution, row: Row, z: Seq<int>)
    requires
        forall|c: int| #[trigger] row.mentions(c) ==> respects(sub, z, c),
    ensures
        rewrite_row(sub, row).holds(z) <==> row.holds(z),
{
    assert forall|c: int| #[trigger] mentions(row.a, c) implies respects(sub, z, c) by {
        assert(row.mentions(c));
    }
    assert forall|c: int| #[trigger] mentions(row.b, c) implies respects(sub, z, c) by {
        assert(row.mentions(c));
    }
    assert forall|c: int| #[trigger] mentions(row.c, c) implies respects(sub, z, c) by {
        assert(row.mentions(c));
    }
    lemma_rewrite_eval(sub, row.a, z);
    lemma_rewrite_eval(sub, row.b, z);
    lemma_rewrite_eval(sub, row.c, z);
    let out = rewrite_row(sub, row);
    lemma_cong_mul(eval(out.a, z), eval(row.a, z), eval(out.b, z), eval(row.b, z));
}

pub proof fn lemma_compact_row_holds(
    rows: Seq<Row>,
    num_vars: int,
    row: Row,
    z: Seq<int>,
    zp: Seq<int>,
)
    requires
        forall|c: int|
            #[trigger] row.mentions(c) ==> cong(zp[compact(rows, num_vars, c)], z[c]),
    ensures
        compact_row(rows, num_vars, row).holds(zp) <==> row.holds(z),
{
    assert forall|c: int| #[trigger] mentions(row.a, c) implies cong(
        zp[compact(rows, num_vars, c)],
        z[c],
    ) by {
        assert(row.mentions(c));
    }
    assert forall|c: int| #[trigger] mentions(row.b, c) implies cong(
        zp[compact(rows, num_vars, c)],
        z[c],
    ) by {
        assert(row.mentions(c));
    }
    assert forall|c: int| #[trigger] mentions(row.c, c) implies cong(
        zp[compact(rows, num_vars, c)],
        z[c],
    ) by {
        assert(row.mentions(c));
    }
    lemma_compact_eval(rows, num_vars, row.a, z, zp);
    lemma_compact_eval(rows, num_vars, row.b, z, zp);
    lemma_compact_eval(rows, num_vars, row.c, z, zp);
    let out = compact_row(rows, num_vars, row);
    lemma_cong_mul(eval(out.a, zp), eval(row.a, z), eval(out.b, zp), eval(row.b, z));
}

/// The part of an assignment that is left after elimination.
pub open spec fn project(kind: Kind, sys: System, z: Seq<int>) -> Seq<int> {
    if has_definitions(kind, sys) {
        restrict(rewritten(kind, sys), sys.num_vars as int, z)
    } else {
        z
    }
}

/// The columns of a rewritten row lie in range and are live where they are private.
pub proof fn lemma_rewritten_column(kind: Kind, sys: System, i: int, c: int)
    requires
        eliminable(kind, sys),
        has_definitions(kind, sys),
        0 <= i < rewritten(kind, sys).len(),
        rewritten(kind, sys)[i].mentions(c),
    ensures
        0 <= c < sys.z_len(),
        live(rewritten(kind, sys), c),
{
    let row = rewritten(kind, sys)[i];
    assert(row.below(sys.z_len() as int));
    crate::forward::lemma_unknown_below(row, Seq::empty(), sys.z_len() as int, c);
}

/// What satisfies a system satisfies it with definitions eliminated, with the public
/// values unchanged.
pub proof fn law_elimination_keeps_witnesses(kind: Kind, sys: System, z: Seq<int>)
    requires
        eliminable(kind, sys),
        sys.satisfied(z),
    ensures
        eliminated(kind, sys).satisfied(project(kind, sys, z)),
        public_part(eliminated(kind, sys), project(kind, sys, z)) == public_part(sys, z),
{
    if has_definitions(kind, sys) {
        let rows = rewritten(kind, sys);
        let out = eliminated(kind, sys);
        let nv = sys.num_vars as int;
        let zp = project(kind, sys, z);
        let sub = full_substitution(kind, sys);
        lemma_restrict(rows, nv, z);
        lemma_survivors(kind, sys, sys.num_cons);
        assert(zp[compact(rows, nv, nv)] == z[nv]);
        assert forall|i: int| 0 <= i < out.num_cons implies (#[trigger] out.row(i)).holds(zp) by {
            lemma_eliminated_row(kind, sys, i);
            let r = survivors(kind, sys, sys.num_cons)[i];
            let row = sys.row(r);
            assert(row.holds(z));
            assert forall|c: int| #[trigger] row.mentions(c) implies respects(sub, z, c) by {
                lemma_satisfied_respects(kind, sys, z, c);
            }
            lemma_rewrite_row_holds(sub, row, z);
            assert forall|c: int| #[trigger] rows[i].mentions(c) implies cong(
                zp[compact(rows, nv, c)],
                z[c],
            ) by {
                lemma_rewritten_column(kind, sys, i, c);
            }
            lemma_compact_row_holds(rows, nv, rows[i], z, zp);
        }
        assert(public_part(out, zp) =~= public_part(sys, z));
    }
}

/// The outputs and inputs of an assignment.
pub open spec fn public_part(sys: System, z: Seq<int>) -> Seq<int> {
    z.skip(sys.num_vars as int + 1)
}

/// The assignment of the whole system that an assignment of the smaller one stands for.
pub open spec fn lift(kind: Kind, sys: System, zp: Seq<int>) -> Seq<int> {
    if has_definitions(kind, sys) {
        let rows = rewritten(kind, sys);
        let nv = sys.num_vars as int;
        Seq::new(
            sys.z_len(),
            |c: int|
                {
                    let (e, f) = resolve(full_substitution(kind, sys), c);
                    if c >= nv {
                        zp[compact(rows, nv, c)]
                    } else if e >= nv || live(rows, e) {
                        (f * zp[compact(rows, nv, e)]) % ell()
                    } else {
                        0
                    }
                },
        )
    } else {
        zp
    }
}

/// A chain of columns in range stays in range.
pub proof fn lemma_resolve_range(kind: Kind, sys: System, c: int)
    requires
        sys.entries_valid(),
        0 <= c < sys.z_len(),
    ensures
        0 <= resolve(full_substitution(kind, sys), c).0 < sys.z_len(),
        !is_key(
            full_substitution(kind, sys),
            resolve(full_substitution(kind, sys), c).0,
        ),
        is_unit(resolve(full_substitution(kind, sys), c).1),
{
    let sub = full_substitution(kind, sys);
    lemma_substitution_acyclic(kind, sys, sys.num_cons);
    lemma_resolved(sub, c);
    lemma_chain_range(kind, sys, c, choose|n: nat| ends(sub, c, n));
}

proof fn lemma_chain_range(kind: Kind, sys: System, c: int, n: nat)
    requires
        sys.entries_valid(),
        0 <= c < sys.z_len(),
    ensures
        0 <= chain(full_substitution(kind, sys), c, n).0 < sys.z_len(),
        is_unit(chain(full_substitution(kind, sys), c, n).1),
    decreases n,
{
    let sub = full_substitution(kind, sys);
    crate::field::lemma_unit_one();
    if n > 0 && is_key(sub, c) {
        let r = lemma_key_has_row(kind, sys, sys.num_cons, c);
        lemma_definition_range(kind, sys, r);
        let by = sub[c]->0;
        lemma_chain_range(kind, sys, by.0, (n - 1) as nat);
        crate::field::lemma_unit_product(by.1, chain(sub, by.0, (n - 1) as nat).1);
    }
}

/// The values of a lifted assignment.
proof fn lemma_lift_value(kind: Kind, sys: System, zp: Seq<int>, c: int)
    requires
        has_definitions(kind, sys),
        eliminable(kind, sys),
        sys.entries_valid(),
        0 <= c < sys.z_len(),
    ensures
        ({
            let rows = rewritten(kind, sys);
            let nv = sys.num_vars as int;
            let z = lift(kind, sys, zp);
            let (e, f) = resolve(full_substitution(kind, sys), c);
            &&& respects(full_substitution(kind, sys), z, c)
            &&& e >= nv || live(rows, e) ==> cong(z[e], zp[compact(rows, nv, e)])
        }),
{
    let sub = full_substitution(kind, sys);
    let rows = rewritten(kind, sys);
    let nv = sys.num_vars as int;
    let z = lift(kind, sys, zp);
    let (e, f) = resolve(sub, c);
    lemma_resolve_range(kind, sys, c);
    lemma_resolve_base(sub, e);
    lemma_substitution_len(kind, sys, sys.num_cons);
    lemma_ell();
    if c >= nv {
        assert(!is_key(sub, c));
        lemma_resolve_base(sub, c);
    }
    if e >= nv || live(rows, e) {
        let v = zp[compact(rows, nv, e)];
        lemma_mod_range(v);
        lemma_mod_range(f * v);
        assert(1 * v == v);
        assert(cong(z[e], v));
        lemma_cong_mul(f, f, z[e], v);
    } else {
        assert(z[e] == 0);
        assert(f * 0 == 0);
    }
}

/// What satisfies a system with definitions eliminated comes from a satisfying assignment
/// of the whole system with the same public values.
pub proof fn law_elimination_adds_no_witnesses(kind: Kind, sys: System, zp: Seq<int>)
    requires
        sys.entries_valid(),
        eliminable(kind, sys),
        eliminated(kind, sys).satisfied(zp),
    ensures
        sys.satisfied(lift(kind, sys, zp)),
        public_part(sys, lift(kind, sys, zp)) == public_part(eliminated(kind, sys), zp),
{
    if has_definitions(kind, sys) {
        let rows = rewritten(kind, sys);
        let out = eliminated(kind, sys);
        let nv = sys.num_vars as int;
        let z = lift(kind, sys, zp);
        let sub = full_substitution(kind, sys);
        assert(z[nv] == zp[compact(rows, nv, nv)]);
        lemma_survivors(kind, sys, sys.num_cons);
        assert forall|r: int| 0 <= r < sys.num_cons implies (#[trigger] sys.row(r)).holds(z) by {
            let row = sys.row(r);
            if removed(kind, sys, r) {
                let (key, by) = definition(kind, row, nv)->0;
                lemma_definition_range(kind, sys, r);
                lemma_lift_value(kind, sys, zp, key);
                lemma_lift_value(kind, sys, zp, by.0);
                let (e, f) = resolve(sub, by.0);
                let g = resolve(sub, key).1;
                lemma_cong_mul(by.1, by.1, z[by.0], f * z[e]);
                assert(by.1 * (f * z[e]) == (by.1 * f) * z[e]) by (nonlinear_arith);
                lemma_cong_mul(g, by.1 * f, z[e], z[e]);
                lemma_definition_holds(kind, row, nv, z);
            } else {
                let kept = survivors(kind, sys, sys.num_cons);
                assert(kept.contains(r));
                let i = choose|i: int| 0 <= i < kept.len() && kept[i] == r;
                assert(out.row(i).holds(zp));
                lemma_eliminated_row(kind, sys, i);
                assert(rows[i] == rewrite_row(sub, row));
                lemma_sys_row_below(sys, r);
                assert forall|c: int| #[trigger] row.mentions(c) implies respects(sub, z, c) by {
                    crate::forward::lemma_unknown_below(
                        row,
                        Seq::empty(),
                        sys.z_len() as int,
                        c,
                    );
                    lemma_lift_value(kind, sys, zp, c);
                }
                assert forall|e: int| #[trigger] rows[i].mentions(e) implies cong(
                    zp[compact(rows, nv, e)],
                    z[e],
                ) by {
                    lemma_rewritten_column(kind, sys, i, e);
                    let c = if mentions(rows[i].a, e) {
                        lemma_rewrite_mentions(sub, row.a, e)
                    } else if mentions(rows[i].b, e) {
                        lemma_rewrite_mentions(sub, row.b, e)
                    } else {
                        lemma_rewrite_mentions(sub, row.c, e)
                    };
                    assert(row.mentions(c));
                    crate::forward::lemma_unknown_below(
                        row,
                        Seq::empty(),
                        sys.z_len() as int,
                        c,
                    );
                    lemma_lift_value(kind, sys, zp, c);
                }
                lemma_compact_row_holds(rows, nv, rows[i], z, zp);
                lemma_rewrite_row_holds(sub, row, z);
            }
        }
        assert(public_part(sys, z) =~= public_part(out, zp));
    }
}

/// Whether some assignment with the given public values satisfies a system.
pub open spec fn accepts(sys: System, io: Seq<int>) -> bool {
    exists|z: Seq<int>| #[trigger] sys.satisfied(z) && public_part(sys, z) == io
}

/// Elimination keeps the relation between inputs and outputs: the smaller system computes
/// the same function.
pub proof fn law_elimination_keeps_function(kind: Kind, sys: System, io: Seq<int>)
    requires
        sys.entries_valid(),
        eliminable(kind, sys),
    ensures
        accepts(eliminated(kind, sys), io) <==> accepts(sys, io),
{
    let out = eliminated(kind, sys);
    if accepts(sys, io) {
        let z = choose|z: Seq<int>| #[trigger] sys.satisfied(z) && public_part(sys, z) == io;
        law_elimination_keeps_witnesses(kind, sys, z);
        assert(out.satisfied(project(kind, sys, z)));
    }
    if accepts(out, io) {
        let zp = choose|z: Seq<int>| #[trigger] out.satisfied(z) && public_part(out, z) == io;
        law_elimination_adds_no_witnesses(kind, sys, zp);
        assert(sys.satisfied(lift(kind, sys, zp)));
    }
}

/// Where there is something to eliminate, both the rows and the variables become fewer.
/// The public values stay, and without definitions the whole system does.
pub proof fn law_elimination_shrinks(kind: Kind, sys: System)
    ensures
        eliminated(kind, sys).num_cons <= sys.num_cons,
        has_definitions(kind, sys) ==> eliminated(kind, sys).num_cons < sys.num_cons,
        !has_definitions(kind, sys) ==> eliminated(kind, sys) == sys,
        eliminated(kind, sys).num_vars <= sys.num_vars,
        has_definitions(kind, sys) ==> eliminated(kind, sys).num_vars < sys.num_vars,
        eliminated(kind, sys).num_inputs == sys.num_inputs,
        eliminated(kind, sys).num_outputs == sys.num_outputs,
{
    if has_definitions(kind, sys) {
        let rows = rewritten(kind, sys);
        let r = choose|r: int| 0 <= r < sys.num_cons && #[trigger] adds(kind, sys, r);
        lemma_added_row(kind, sys, r);
        lemma_survivors_fewer(kind, sys, sys.num_cons, r);
        let key = (definition(kind, sys.row(r), sys.num_vars as int)->0).0;
        if live(rows, key) {
            lemma_live_not_key(kind, sys, key);
        }
        crate::baselines::lemma_live_rank_monotone(rows, 0, key);
        crate::baselines::lemma_live_rank_monotone(rows, key + 1, sys.num_vars as int);
    }
}

/// A live column is not substituted.
pub proof fn lemma_live_not_key(kind: Kind, sys: System, c: int)
    requires
        live(rewritten(kind, sys), c),
    ensures
        !is_key(full_substitution(kind, sys), c),
{
    let sub = full_substitution(kind, sys);
    let rows = rewritten(kind, sys);
    let i = choose|i: int| 0 <= i < rows.len() && (#[trigger] rows[i]).mentions(c);
    let row = sys.row(survivors(kind, sys, sys.num_cons)[i]);
    lemma_substitution_acyclic(kind, sys, sys.num_cons);
    let b = if mentions(rows[i].a, c) {
        lemma_rewrite_mentions(sub, row.a, c)
    } else if mentions(rows[i].b, c) {
        lemma_rewrite_mentions(sub, row.b, c)
    } else {
        lemma_rewrite_mentions(sub, row.c, c)
    };
    lemma_resolved(sub, b);
}

proof fn lemma_survivors_fewer(kind: Kind, sys: System, n: nat, r: int)
    requires
        0 <= r < n,
        removed(kind, sys, r),
    ensures
        survivors(kind, sys, n).len() < n,
    decreases n,
{
    lemma_survivors(kind, sys, (n - 1) as nat);
    if r < n - 1 {
        lemma_survivors_fewer(kind, sys, (n - 1) as nat, r);
    }
}

} // verus!
