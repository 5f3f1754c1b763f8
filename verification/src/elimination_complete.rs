//! Which rows elimination removes, and what it makes of the others.
use crate::elimination::{
    addition, adds, chain, compact, compact_lin, definition, drop_zeros, eliminable, eliminated,
    ends, full_substitution, has_definitions, is_key, lemma_added_row, lemma_resolve_base,
    lemma_substitution_len, live, live_rank, merge, position, removed, replace, resolve, rewrite,
    rewritten, substitution, survivors, Kind,
};
use crate::elimination_laws::{
    accepts, law_elimination_keeps_function, law_elimination_shrinks, lemma_chain_value,
    lemma_compact_eval, lemma_definition_holds, lemma_definition_range, lemma_eliminated_row,
    lemma_key_has_row, lemma_resolve_range, lemma_restrict, lemma_rewrite_canonical,
    lemma_rewrite_eval, lemma_rewritten_column, lemma_survivors, project, public_part, respects,
};
use crate::elimination_order::{lemma_compact_injective, lemma_compact_monotone, lemma_compact_onto};
use crate::convert::lemma_flatten_sorted;
use crate::field::{
    cong, ell, is_unit, lemma_cong_mul, lemma_difference, lemma_ell, lemma_reduced, lemma_unit_one,
    lemma_unit_product, lemma_zero_not_unit,
};
use crate::system::{eval, mentions, Lin, System};
use vstd::prelude::*;

verus! {

// All definitions go, where each variable has one and they form no circle.

/// Following the definitions of the first `n` rows does not raise a rank that each lowers.
proof fn lemma_rank_chain(
    kind: Kind,
    sys: System,
    rank: spec_fn(int) -> nat,
    n: nat,
    c: int,
    m: nat,
)
    requires
        n <= sys.num_cons,
        forall|r: int|
            0 <= r < sys.num_cons && definition(
                kind,
                #[trigger] sys.row(r),
                sys.num_vars as int,
            ) is Some ==> {
                let (key, by) = definition(kind, sys.row(r), sys.num_vars as int)->0;
                rank(by.0) < rank(key)
            },
    ensures
        rank(chain(substitution(kind, sys, n), c, m).0) <= rank(c),
    decreases m,
{
    let sub = substitution(kind, sys, n);
    if m > 0 && is_key(sub, c) {
        let r = lemma_key_has_row(kind, sys, n, c);
        assert(rank((sub[c]->0).0) < rank(c));
        lemma_rank_chain(kind, sys, rank, n, (sub[c]->0).0, (m - 1) as nat);
    }
}

/// A definition that is the only one of its variable, among definitions without circles,
/// joins the substitution.
proof fn lemma_definition_added(kind: Kind, sys: System, rank: spec_fn(int) -> nat, r: int)
    requires
        0 <= r < sys.num_cons,
        definition(kind, sys.row(r), sys.num_vars as int) is Some,
        forall|q: int|
            0 <= q < r && definition(kind, #[trigger] sys.row(q), sys.num_vars as int) is Some
                ==> (definition(kind, sys.row(q), sys.num_vars as int)->0).0 != (definition(
                kind,
                sys.row(r),
                sys.num_vars as int,
            )->0).0,
        forall|q: int|
            0 <= q < sys.num_cons && definition(
                kind,
                #[trigger] sys.row(q),
                sys.num_vars as int,
            ) is Some ==> {
                let (key, by) = definition(kind, sys.row(q), sys.num_vars as int)->0;
                rank(by.0) < rank(key)
            },
    ensures
        adds(kind, sys, r),
        removed(kind, sys, r),
{
    let sub = substitution(kind, sys, r as nat);
    let (key, by) = definition(kind, sys.row(r), sys.num_vars as int)->0;
    if is_key(sub, key) {
        let q = lemma_key_has_row(kind, sys, r as nat, key);
        assert(definition(kind, sys.row(q), sys.num_vars as int) is Some);
    }
    let m = choose|m: nat| ends(sub, by.0, m);
    lemma_rank_chain(kind, sys, rank, r as nat, by.0, m);
    assert(rank(by.0) < rank(key));
    reveal(addition);
    assert(adds(kind, sys, r));
    lemma_added_row(kind, sys, r);
}

/// Rows are kept or removed.
proof fn lemma_survivors_count(kind: Kind, sys: System, gone: Set<int>, n: nat)
    requires
        n <= sys.num_cons,
        forall|r: int|
            #[trigger] gone.contains(r) <==> 0 <= r < sys.num_cons && removed(kind, sys, r),
    ensures
        gone.filter(|r: int| r < n).finite(),
        survivors(kind, sys, n).len() + gone.filter(|r: int| r < n).len() == n,
    decreases n,
{
    let now = gone.filter(|r: int| r < n);
    if n == 0 {
        assert(now =~= Set::empty());
    } else {
        lemma_survivors_count(kind, sys, gone, (n - 1) as nat);
        let before = gone.filter(|r: int| r < n - 1);
        let m = (n - 1) as nat;
        assert(gone.filter(|r: int| r < m) =~= before);
        if removed(kind, sys, n - 1) {
            assert(gone.contains(n - 1));
            assert(now =~= before.insert(n - 1));
        } else {
            assert(!gone.contains(n - 1));
            assert(now =~= before);
        }
    }
}

/// Where the rows that define a variable are given, each defines another one, and they form
/// no circle, elimination leaves the other rows.
proof fn lemma_all_removed(kind: Kind, sys: System, gone: Set<int>, rank: spec_fn(int) -> nat)
    requires
        forall|r: int|
            #[trigger] gone.contains(r) <==> 0 <= r < sys.num_cons && definition(
                kind,
                sys.row(r),
                sys.num_vars as int,
            ) is Some,
        forall|q: int, r: int|
            #![trigger gone.contains(q), gone.contains(r)]
            gone.contains(q) && gone.contains(r) && q != r ==> (definition(
                kind,
                sys.row(q),
                sys.num_vars as int,
            )->0).0 != (definition(kind, sys.row(r), sys.num_vars as int)->0).0,
        forall|r: int|
            #[trigger] gone.contains(r) ==> {
                let (key, by) = definition(kind, sys.row(r), sys.num_vars as int)->0;
                rank(by.0) < rank(key)
            },
    ensures
        gone.finite(),
        eliminated(kind, sys).num_cons == sys.num_cons - gone.len(),
{
    let nv = sys.num_vars as int;
    assert forall|q: int|
        0 <= q < sys.num_cons && definition(kind, #[trigger] sys.row(q), nv) is Some implies {
        let (key, by) = definition(kind, sys.row(q), nv)->0;
        rank(by.0) < rank(key)
    } by {
        assert(gone.contains(q));
    }
    assert forall|r: int| gone.contains(r) implies #[trigger] adds(kind, sys, r) && removed(
        kind,
        sys,
        r,
    ) by {
        assert forall|q: int|
            0 <= q < r && definition(kind, #[trigger] sys.row(q), nv) is Some implies (definition(
            kind,
            sys.row(q),
            nv,
        )->0).0 != (definition(kind, sys.row(r), nv)->0).0 by {
            assert(gone.contains(q));
        }
        lemma_definition_added(kind, sys, rank, r);
    }
    assert forall|r: int|
        #[trigger] gone.contains(r) <==> 0 <= r < sys.num_cons && removed(kind, sys, r) by {
        if gone.contains(r) {
            assert(adds(kind, sys, r));
        }
    }
    lemma_survivors_count(kind, sys, gone, sys.num_cons);
    assert(gone.filter(|r: int| r < sys.num_cons) =~= gone);
    if !has_definitions(kind, sys) {
        assert forall|r: int| !gone.contains(r) by {
            if gone.contains(r) {
                assert(adds(kind, sys, r));
            }
        }
        assert(gone =~= Set::empty());
    }
}

/// Removing aliases is complete: where each private variable is set by at most one row
/// `out * 1 == src`, and these rows form no circle, exactly these rows go, however their
/// sources hang together. That there is no circle shows in a rank that each row lowers.
pub proof fn law_every_alias_removed(sys: System, aliases: Set<int>, rank: spec_fn(int) -> nat)
    requires
        forall|r: int|
            #[trigger] aliases.contains(r) <==> {
                &&& 0 <= r < sys.num_cons
                &&& sys.row(r).a.len() == 1 && sys.row(r).b.len() == 1 && sys.row(r).c.len() == 1
                &&& 0 <= sys.row(r).a[0].0 < sys.num_vars
                &&& sys.row(r).a[0].1 == 1
                &&& sys.row(r).b[0].0 == sys.num_vars
                &&& sys.row(r).b[0].1 == 1
                &&& sys.row(r).c[0].1 == 1
            },
        forall|q: int, r: int|
            #![trigger aliases.contains(q), aliases.contains(r)]
            aliases.contains(q) && aliases.contains(r) && q != r ==> sys.row(q).a[0].0
                != sys.row(r).a[0].0,
        forall|r: int|
            #[trigger] aliases.contains(r) ==> rank(sys.row(r).c[0].0) < rank(sys.row(r).a[0].0),
    ensures
        aliases.finite(),
        eliminated(Kind::Alias, sys).num_cons == sys.num_cons - aliases.len(),
{
    let nv = sys.num_vars as int;
    assert forall|r: int|
        #[trigger] aliases.contains(r) <==> 0 <= r < sys.num_cons && definition(
            Kind::Alias,
            sys.row(r),
            nv,
        ) is Some by {}
    lemma_all_removed(Kind::Alias, sys, aliases, rank);
}

/// Removing scales is complete: where each private variable is set by at most one row
/// `(k * src) * 1 == out` with another column as source and a factor that is neither one nor
/// without inverse, and these rows form no circle, exactly these rows go, wherever their
/// sources lead. That there is no circle shows in a rank that each row lowers.
pub proof fn law_every_scale_removed(sys: System, scales: Set<int>, rank: spec_fn(int) -> nat)
    requires
        forall|r: int|
            #[trigger] scales.contains(r) <==> {
                &&& 0 <= r < sys.num_cons
                &&& sys.row(r).a.len() == 1 && sys.row(r).b.len() == 1 && sys.row(r).c.len() == 1
                &&& 0 <= sys.row(r).c[0].0 < sys.num_vars
                &&& sys.row(r).c[0].1 == 1
                &&& sys.row(r).b[0].0 == sys.num_vars
                &&& sys.row(r).b[0].1 == 1
                &&& sys.row(r).a[0].0 != sys.row(r).c[0].0
                &&& sys.row(r).a[0].1 != 1
                &&& is_unit(sys.row(r).a[0].1)
            },
        forall|q: int, r: int|
            #![trigger scales.contains(q), scales.contains(r)]
            scales.contains(q) && scales.contains(r) && q != r ==> sys.row(q).c[0].0
                != sys.row(r).c[0].0,
        forall|r: int|
            #[trigger] scales.contains(r) ==> rank(sys.row(r).a[0].0) < rank(sys.row(r).c[0].0),
    ensures
        scales.finite(),
        eliminated(Kind::Scale, sys).num_cons == sys.num_cons - scales.len(),
{
    let nv = sys.num_vars as int;
    assert forall|r: int|
        #[trigger] scales.contains(r) <==> 0 <= r < sys.num_cons && definition(
            Kind::Scale,
            sys.row(r),
            nv,
        ) is Some by {}
    lemma_all_removed(Kind::Scale, sys, scales, rank);
}

// What becomes of the other rows.

/// The rows that are left, by their place in the whole system.
pub open spec fn kept_rows(kind: Kind, sys: System) -> Seq<int> {
    if has_definitions(kind, sys) {
        survivors(kind, sys, sys.num_cons)
    } else {
        Seq::new(sys.num_cons, |i: int| i)
    }
}

/// The columns that are left, by their place in the whole system.
pub open spec fn kept_columns(kind: Kind, sys: System) -> Seq<int> {
    let rows = rewritten(kind, sys);
    let out = eliminated(kind, sys);
    let nv = sys.num_vars as int;
    if has_definitions(kind, sys) {
        Seq::new(
            out.z_len(),
            |k: int|
                if k < out.num_vars {
                    choose|c: int|
                        0 <= c < nv && #[trigger] live(rows, c) && live_rank(rows, c) == k
                } else {
                    k - out.num_vars + nv
                },
        )
    } else {
        Seq::new(sys.z_len(), |k: int| k)
    }
}

proof fn lemma_kept_column(kind: Kind, sys: System, k: int)
    requires
        has_definitions(kind, sys),
        0 <= k < eliminated(kind, sys).z_len(),
    ensures
        ({
            let c = kept_columns(kind, sys)[k];
            &&& 0 <= c < sys.z_len()
            &&& c >= sys.num_vars || live(rewritten(kind, sys), c)
            &&& compact(rewritten(kind, sys), sys.num_vars as int, c) == k
        }),
{
    let rows = rewritten(kind, sys);
    let nv = sys.num_vars as int;
    if k < eliminated(kind, sys).num_vars {
        let c = lemma_compact_onto(rows, nv, k);
        assert(0 <= c < nv && live(rows, c) && live_rank(rows, c) == k);
    }
}

proof fn lemma_survivors_increase(kind: Kind, sys: System, n: nat, i: int, j: int)
    requires
        0 <= i < j < survivors(kind, sys, n).len(),
    ensures
        survivors(kind, sys, n)[i] < survivors(kind, sys, n)[j],
    decreases n,
{
    if n > 0 {
        let before = survivors(kind, sys, (n - 1) as nat);
        lemma_survivors(kind, sys, (n - 1) as nat);
        if j < before.len() {
            lemma_survivors_increase(kind, sys, (n - 1) as nat, i, j);
        }
    }
}

/// The rows that are left keep their order, and so do the columns: the variables that are
/// left close up, and the constant, the outputs and the inputs follow them as before.
pub proof fn law_order_kept(kind: Kind, sys: System)
    ensures
        kept_rows(kind, sys).len() == eliminated(kind, sys).num_cons,
        forall|i: int|
            0 <= i < kept_rows(kind, sys).len() ==> 0 <= #[trigger] kept_rows(kind, sys)[i]
                < sys.num_cons,
        forall|i: int, j: int|
            0 <= i < j < kept_rows(kind, sys).len() ==> #[trigger] kept_rows(kind, sys)[i]
                < #[trigger] kept_rows(kind, sys)[j],
        kept_columns(kind, sys).len() == eliminated(kind, sys).num_vars + 1
            + eliminated(kind, sys).num_inputs,
        forall|j: int, k: int|
            0 <= j < k < kept_columns(kind, sys).len() ==> #[trigger] kept_columns(kind, sys)[j]
                < #[trigger] kept_columns(kind, sys)[k],
        forall|k: int|
            0 <= k < kept_columns(kind, sys).len() ==> 0 <= #[trigger] kept_columns(kind, sys)[k]
                < sys.num_vars + 1 + sys.num_inputs,
        forall|k: int|
            0 <= k <= sys.num_inputs ==> kept_columns(kind, sys)[#[trigger] (eliminated(
                kind,
                sys,
            ).num_vars + k)] == sys.num_vars + k,
        eliminated(kind, sys).num_inputs == sys.num_inputs,
        eliminated(kind, sys).num_outputs == sys.num_outputs,
{
    let rows = rewritten(kind, sys);
    let nv = sys.num_vars as int;
    let cols = kept_columns(kind, sys);
    if has_definitions(kind, sys) {
        lemma_survivors(kind, sys, sys.num_cons);
        let rs = kept_rows(kind, sys);
        assert forall|i: int, j: int| 0 <= i < j < rs.len() implies #[trigger] rs[i]
            < #[trigger] rs[j] by {
            lemma_survivors_increase(kind, sys, sys.num_cons, i, j);
        }
        assert forall|k: int| 0 <= k < cols.len() implies 0 <= #[trigger] cols[k] < sys.num_vars + 1
            + sys.num_inputs by {
            lemma_kept_column(kind, sys, k);
        }
        assert forall|j: int, k: int| 0 <= j < k < cols.len() implies #[trigger] cols[j]
            < #[trigger] cols[k] by {
            lemma_kept_column(kind, sys, j);
            lemma_kept_column(kind, sys, k);
            if cols[k] < cols[j] {
                lemma_compact_monotone(rows, nv, cols[k], cols[j]);
            }
        }
    }
}

/// Where the rows that go hold, every column has the value of what replaces it.
proof fn lemma_removed_respects(kind: Kind, sys: System, z: Seq<int>, c: int)
    requires
        has_definitions(kind, sys),
        z[sys.num_vars as int] == 1,
        forall|r: int|
            0 <= r < sys.num_cons && !kept_rows(kind, sys).contains(r) ==> (#[trigger] sys.row(
                r,
            )).holds(z),
    ensures
        respects(full_substitution(kind, sys), z, c),
{
    let sub = full_substitution(kind, sys);
    lemma_survivors(kind, sys, sys.num_cons);
    assert forall|d: int| #[trigger] is_key(sub, d) implies cong(
        z[d],
        (sub[d]->0).1 * z[(sub[d]->0).0],
    ) by {
        let r = lemma_key_has_row(kind, sys, sys.num_cons, d);
        lemma_added_row(kind, sys, r);
        assert(sys.row(r).holds(z));
        lemma_definition_holds(kind, sys.row(r), sys.num_vars as int, z);
    }
    lemma_chain_value(sub, z, c, choose|n: nat| ends(sub, c, n));
}

proof fn lemma_kept_form(kind: Kind, sys: System, z: Seq<int>, i: int, l: Lin)
    requires
        eliminable(kind, sys),
        has_definitions(kind, sys),
        0 <= i < rewritten(kind, sys).len(),
        z.len() == sys.z_len(),
        z[sys.num_vars as int] == 1,
        forall|r: int|
            0 <= r < sys.num_cons && !kept_rows(kind, sys).contains(r) ==> (#[trigger] sys.row(
                r,
            )).holds(z),
        forall|c: int|
            #[trigger] mentions(rewrite(full_substitution(kind, sys), l), c) ==> rewritten(
                kind,
                sys,
            )[i].mentions(c),
    ensures
        cong(
            eval(
                compact_lin(
                    rewritten(kind, sys),
                    sys.num_vars as int,
                    rewrite(full_substitution(kind, sys), l),
                ),
                project(kind, sys, z),
            ),
            eval(l, z),
        ),
{
    let sub = full_substitution(kind, sys);
    let rows = rewritten(kind, sys);
    let nv = sys.num_vars as int;
    let zp = project(kind, sys, z);
    assert forall|c: int| #[trigger] mentions(l, c) implies respects(sub, z, c) by {
        lemma_removed_respects(kind, sys, z, c);
    }
    lemma_rewrite_eval(sub, l, z);
    lemma_restrict(rows, nv, z);
    let rl = rewrite(sub, l);
    assert forall|c: int| #[trigger] mentions(rl, c) implies cong(
        zp[compact(rows, nv, c)],
        z[c],
    ) by {
        lemma_rewritten_column(kind, sys, i, c);
    }
    lemma_compact_eval(rows, nv, rl, z, zp);
}

/// A row that is left says what it said: wherever the rows that go hold, each side of it has
/// the value that it had, on the values of the columns that are left.
pub proof fn law_kept_row(kind: Kind, sys: System, z: Seq<int>, i: int)
    requires
        eliminable(kind, sys),
        z.len() == sys.num_vars + 1 + sys.num_inputs,
        z[sys.num_vars as int] == 1,
        forall|r: int|
            0 <= r < sys.num_cons && !kept_rows(kind, sys).contains(r) ==> (#[trigger] sys.row(
                r,
            )).holds(z),
        0 <= i < eliminated(kind, sys).num_cons,
    ensures
        ({
            let cols = kept_columns(kind, sys);
            let left = Seq::new(cols.len(), |k: int| z[cols[k]]);
            let new = eliminated(kind, sys).row(i);
            let old = sys.row(kept_rows(kind, sys)[i]);
            &&& (eval(new.a, left) - eval(old.a, z)) % ell() == 0
            &&& (eval(new.b, left) - eval(old.b, z)) % ell() == 0
            &&& (eval(new.c, left) - eval(old.c, z)) % ell() == 0
        }),
{
    let cols = kept_columns(kind, sys);
    let left = Seq::new(cols.len(), |k: int| z[cols[k]]);
    let new = eliminated(kind, sys).row(i);
    let old = sys.row(kept_rows(kind, sys)[i]);
    lemma_ell();
    if has_definitions(kind, sys) {
        let rows = rewritten(kind, sys);
        let nv = sys.num_vars as int;
        lemma_eliminated_row(kind, sys, i);
        lemma_restrict(rows, nv, z);
        assert forall|k: int| 0 <= k < cols.len() implies left[k] == project(kind, sys, z)[k] by {
            lemma_kept_column(kind, sys, k);
            assert(0 <= compact(rows, nv, cols[k]));
        }
        assert(left =~= project(kind, sys, z));
        assert forall|c: int| #[trigger] mentions(rows[i].a, c) implies rows[i].mentions(c) by {}
        assert forall|c: int| #[trigger] mentions(rows[i].b, c) implies rows[i].mentions(c) by {}
        assert forall|c: int| #[trigger] mentions(rows[i].c, c) implies rows[i].mentions(c) by {}
        lemma_kept_form(kind, sys, z, i, old.a);
        lemma_kept_form(kind, sys, z, i, old.b);
        lemma_kept_form(kind, sys, z, i, old.c);
    } else {
        assert(left =~= z);
        assert(new == old);
    }
    lemma_difference(eval(new.a, left), eval(old.a, z));
    lemma_difference(eval(new.b, left), eval(old.b, z));
    lemma_difference(eval(new.c, left), eval(old.c, z));
}

/// Only definitions of private variables go: aliases when aliases are removed, scales when
/// scales are.
pub proof fn law_only_definitions_removed(kind: Kind, sys: System, r: int)
    requires
        0 <= r < sys.num_cons,
        !kept_rows(kind, sys).contains(r),
    ensures
        ({
            let row = sys.row(r);
            &&& row.a.len() == 1 && row.b.len() == 1 && row.c.len() == 1
            &&& row.b[0] == (sys.num_vars as int, 1int)
            &&& row.c[0].1 == 1
            &&& kind is Alias ==> row.a[0].1 == 1 && 0 <= row.a[0].0 < sys.num_vars
            &&& kind is Scale ==> row.a[0].1 != 1 && is_unit(row.a[0].1) && 0 <= row.c[0].0
                < sys.num_vars && row.a[0].0 != row.c[0].0
        }),
{
    if has_definitions(kind, sys) {
        lemma_survivors(kind, sys, sys.num_cons);
        assert(removed(kind, sys, r));
    } else {
        assert(kept_rows(kind, sys)[r] == r);
    }
}

/// Without a row `out * 1 == src` that sets a private variable, removing aliases changes
/// nothing.
pub proof fn law_no_alias_no_change(sys: System)
    requires
        forall|r: int|
            0 <= r < sys.num_cons ==> !({
                &&& (#[trigger] sys.row(r)).a.len() == 1
                &&& sys.row(r).b.len() == 1
                &&& sys.row(r).c.len() == 1
                &&& 0 <= sys.row(r).a[0].0 < sys.num_vars
                &&& sys.row(r).a[0].1 == 1
                &&& sys.row(r).b[0] == (sys.num_vars as int, 1int)
                &&& sys.row(r).c[0].1 == 1
            }),
    ensures
        eliminated(Kind::Alias, sys) == sys,
{
    assert forall|r: int| 0 <= r < sys.num_cons implies !(#[trigger] adds(Kind::Alias, sys, r)) by {
        let row = sys.row(r);
        reveal(addition);
    }
}

/// Without a row `(k * src) * 1 == out` that sets a private variable, removing scales changes
/// nothing.
pub proof fn law_no_scale_no_change(sys: System)
    requires
        forall|r: int|
            0 <= r < sys.num_cons ==> !({
                &&& (#[trigger] sys.row(r)).a.len() == 1
                &&& sys.row(r).b.len() == 1
                &&& sys.row(r).c.len() == 1
                &&& 0 <= sys.row(r).c[0].0 < sys.num_vars
                &&& sys.row(r).c[0].1 == 1
                &&& sys.row(r).b[0] == (sys.num_vars as int, 1int)
                &&& sys.row(r).a[0].0 != sys.row(r).c[0].0
                &&& sys.row(r).a[0].1 != 1
                &&& is_unit(sys.row(r).a[0].1)
            }),
    ensures
        eliminated(Kind::Scale, sys) == sys,
{
    assert forall|r: int| 0 <= r < sys.num_cons implies !(#[trigger] adds(Kind::Scale, sys, r)) by {
        let row = sys.row(r);
        reveal(addition);
    }
}

// The forms that are left.

proof fn lemma_merge_distinct(l: Lin)
    ensures
        forall|i: int, j: int|
            0 <= i < j < merge(l).len() ==> (#[trigger] merge(l)[i]).0 != (#[trigger] merge(
                l,
            )[j]).0,
    decreases l.len(),
{
    if l.len() > 0 {
        let m = merge(l.drop_last());
        lemma_merge_distinct(l.drop_last());
        if position(m, l.last().0) is None {
            assert forall|i: int| 0 <= i < m.len() implies (#[trigger] m[i]).0 != l.last().0 by {}
        }
    }
}

/// Dropping zeros leaves terms of the form in order.
proof fn lemma_drop_zeros_source(l: Lin, i: int) -> (k: int)
    requires
        0 <= i < drop_zeros(l).len(),
    ensures
        0 <= k < l.len(),
        drop_zeros(l)[i] == l[k],
        l[k].1 != 0,
        i <= k,
    decreases l.len(),
{
    lemma_drop_zeros_len(l.drop_last());
    if i < drop_zeros(l.drop_last()).len() {
        lemma_drop_zeros_source(l.drop_last(), i)
    } else {
        l.len() - 1
    }
}

proof fn lemma_drop_zeros_len(l: Lin)
    ensures
        drop_zeros(l).len() <= l.len(),
    decreases l.len(),
{
    if l.len() > 0 {
        lemma_drop_zeros_len(l.drop_last());
    }
}

proof fn lemma_drop_zeros_distinct(l: Lin)
    requires
        forall|i: int, j: int| 0 <= i < j < l.len() ==> (#[trigger] l[i]).0 != (#[trigger] l[j]).0,
    ensures
        forall|i: int, j: int|
            0 <= i < j < drop_zeros(l).len() ==> (#[trigger] drop_zeros(l)[i]).0 != (
            #[trigger] drop_zeros(l)[j]).0,
        forall|i: int| 0 <= i < drop_zeros(l).len() ==> (#[trigger] drop_zeros(l)[i]).1 != 0,
    decreases l.len(),
{
    if l.len() > 0 {
        let d = l.drop_last();
        assert forall|i: int, j: int| 0 <= i < j < d.len() implies (#[trigger] d[i]).0 != (
        #[trigger] d[j]).0 by {
            assert(l[i].0 != l[j].0);
        }
        lemma_drop_zeros_distinct(d);
        let s = drop_zeros(d);
        assert forall|i: int| 0 <= i < s.len() implies (#[trigger] s[i]).0 != l.last().0 by {
            let k = lemma_drop_zeros_source(d, i);
            assert(l[k].0 != l[l.len() - 1].0);
        }
    }
}

proof fn lemma_kept_form_shape(kind: Kind, sys: System, i: int, l: Lin, c: Lin)
    requires
        eliminable(kind, sys),
        has_definitions(kind, sys),
        0 <= i < rewritten(kind, sys).len(),
        forall|e: int|
            #[trigger] mentions(rewrite(full_substitution(kind, sys), l), e) ==> rewritten(
                kind,
                sys,
            )[i].mentions(e),
        c == compact_lin(
            rewritten(kind, sys),
            sys.num_vars as int,
            rewrite(full_substitution(kind, sys), l),
        ),
    ensures
        forall|j: int, k: int| 0 <= j < k < c.len() ==> (#[trigger] c[j]).0 != (#[trigger] c[k]).0,
        forall|j: int| 0 <= j < c.len() ==> 0 < (#[trigger] c[j]).1 < ell(),
{
    let sub = full_substitution(kind, sys);
    let rows = rewritten(kind, sys);
    let nv = sys.num_vars as int;
    let rl = rewrite(sub, l);
    lemma_merge_distinct(replace(sub, l));
    lemma_drop_zeros_distinct(merge(replace(sub, l)));
    lemma_rewrite_canonical(sub, l);
    assert forall|j: int, k: int| 0 <= j < k < c.len() implies (#[trigger] c[j]).0 != (
    #[trigger] c[k]).0 by {
        assert(rl[j].0 != rl[k].0);
        assert(mentions(rl, rl[j].0));
        assert(mentions(rl, rl[k].0));
        lemma_rewritten_column(kind, sys, i, rl[j].0);
        lemma_rewritten_column(kind, sys, i, rl[k].0);
        if c[j].0 == c[k].0 {
            lemma_compact_injective(rows, nv, rl[j].0, rl[k].0);
        }
    }
    assert forall|j: int| 0 <= j < c.len() implies 0 < (#[trigger] c[j]).1 < ell() by {
        assert(rl[j].1 != 0);
        assert(0 <= rl[j].1 < ell());
    }
}

/// Where something was eliminated, like terms are collected: each side of a row holds a
/// column at most once, with a reduced coefficient that is not zero.
pub proof fn law_kept_forms_collected(kind: Kind, sys: System, i: int)
    requires
        eliminable(kind, sys),
        eliminated(kind, sys).num_cons < sys.num_cons,
        0 <= i < eliminated(kind, sys).num_cons,
    ensures
        ({
            let row = eliminated(kind, sys).row(i);
            &&& forall|j: int, k: int|
                0 <= j < k < row.a.len() ==> (#[trigger] row.a[j]).0 != (#[trigger] row.a[k]).0
            &&& forall|j: int, k: int|
                0 <= j < k < row.b.len() ==> (#[trigger] row.b[j]).0 != (#[trigger] row.b[k]).0
            &&& forall|j: int, k: int|
                0 <= j < k < row.c.len() ==> (#[trigger] row.c[j]).0 != (#[trigger] row.c[k]).0
            &&& forall|j: int| 0 <= j < row.a.len() ==> 0 < (#[trigger] row.a[j]).1 < ell()
            &&& forall|j: int| 0 <= j < row.b.len() ==> 0 < (#[trigger] row.b[j]).1 < ell()
            &&& forall|j: int| 0 <= j < row.c.len() ==> 0 < (#[trigger] row.c[j]).1 < ell()
        }),
{
    law_elimination_shrinks(kind, sys);
    let rows = rewritten(kind, sys);
    let old = sys.row(survivors(kind, sys, sys.num_cons)[i]);
    let row = eliminated(kind, sys).row(i);
    lemma_eliminated_row(kind, sys, i);
    assert forall|c: int| #[trigger] mentions(rows[i].a, c) implies rows[i].mentions(c) by {}
    assert forall|c: int| #[trigger] mentions(rows[i].b, c) implies rows[i].mentions(c) by {}
    assert forall|c: int| #[trigger] mentions(rows[i].c, c) implies rows[i].mentions(c) by {}
    lemma_kept_form_shape(kind, sys, i, old.a, row.a);
    lemma_kept_form_shape(kind, sys, i, old.b, row.b);
    lemma_kept_form_shape(kind, sys, i, old.c, row.c);
}

// Which definitions are kept.

/// The factors on the way of a chain are units.
proof fn lemma_chain_unit(kind: Kind, sys: System, c: int, n: nat)
    requires
        sys.entries_valid(),
    ensures
        is_unit(chain(full_substitution(kind, sys), c, n).1),
    decreases n,
{
    let sub = full_substitution(kind, sys);
    lemma_unit_one();
    if n > 0 && is_key(sub, c) {
        let r = lemma_key_has_row(kind, sys, sys.num_cons, c);
        lemma_definition_range(kind, sys, r);
        lemma_chain_unit(kind, sys, (sub[c]->0).0, (n - 1) as nat);
        lemma_unit_product((sub[c]->0).1, chain(sub, (sub[c]->0).0, (n - 1) as nat).1);
    }
}

/// The assignment that gives the columns which are not substituted the values of `w`.
spec fn spread(kind: Kind, sys: System, w: spec_fn(int) -> int) -> Seq<int> {
    Seq::new(
        sys.z_len(),
        |c: int|
            resolve(full_substitution(kind, sys), c).1 * w(
                resolve(full_substitution(kind, sys), c).0,
            ),
    )
}

proof fn lemma_spread(kind: Kind, sys: System, w: spec_fn(int) -> int)
    requires
        sys.entries_valid(),
        has_definitions(kind, sys),
        w(sys.num_vars as int) == 1,
    ensures
        spread(kind, sys, w).len() == sys.num_vars + 1 + sys.num_inputs,
        spread(kind, sys, w)[sys.num_vars as int] == 1,
        forall|r: int|
            0 <= r < sys.num_cons && !kept_rows(kind, sys).contains(r) ==> (#[trigger] sys.row(
                r,
            )).holds(spread(kind, sys, w)),
{
    let sub = full_substitution(kind, sys);
    let nv = sys.num_vars as int;
    let z = spread(kind, sys, w);
    lemma_substitution_len(kind, sys, sys.num_cons);
    lemma_resolve_base(sub, nv);
    lemma_survivors(kind, sys, sys.num_cons);
    assert forall|r: int| 0 <= r < sys.num_cons && !kept_rows(kind, sys).contains(r) implies (
    #[trigger] sys.row(r)).holds(z) by {
        assert(removed(kind, sys, r));
        let (key, by) = definition(kind, sys.row(r), nv)->0;
        lemma_definition_range(kind, sys, r);
        lemma_definition_holds(kind, sys.row(r), nv, z);
        let (f, g) = (resolve(sub, key).1, resolve(sub, by.0).1);
        let x = w(resolve(sub, key).0);
        lemma_cong_mul(f, by.1 * g, x, x);
        assert((by.1 * g) * x == by.1 * (g * x)) by (nonlinear_arith);
    }
}

/// A definition that is kept, although others go, says more than they do: some assignment
/// meets all rows that go and not this one.
pub proof fn law_kept_definition_says_more(kind: Kind, sys: System, r: int) -> (z: Seq<int>)
    requires
        sys.entries_valid(),
        eliminated(kind, sys).num_cons < sys.num_cons,
        kept_rows(kind, sys).contains(r),
        ({
            let row = sys.row(r);
            &&& row.a.len() == 1 && row.b.len() == 1 && row.c.len() == 1
            &&& row.b[0] == (sys.num_vars as int, 1int)
            &&& row.c[0].1 == 1
            &&& kind is Alias ==> row.a[0].1 == 1 && 0 <= row.a[0].0 < sys.num_vars
            &&& kind is Scale ==> row.a[0].1 != 1 && is_unit(row.a[0].1) && 0 <= row.c[0].0
                < sys.num_vars && row.a[0].0 != row.c[0].0
        }),
    ensures
        z.len() == sys.num_vars + 1 + sys.num_inputs,
        z[sys.num_vars as int] == 1,
        forall|k: int|
            0 <= k < sys.num_cons && !kept_rows(kind, sys).contains(k) ==> (#[trigger] sys.row(
                k,
            )).holds(z),
        !sys.row(r).holds(z),
{
    let sub = full_substitution(kind, sys);
    let nv = sys.num_vars as int;
    assert(has_definitions(kind, sys));
    lemma_survivors(kind, sys, sys.num_cons);
    let (key, by) = definition(kind, sys.row(r), nv)->0;
    lemma_definition_range(kind, sys, r);
    let (t, u) = (resolve(sub, key).0, resolve(sub, by.0).0);
    let (f, g) = (resolve(sub, key).1, resolve(sub, by.0).1);
    let zero: int = if t == u {
        -1
    } else if u == nv {
        t
    } else {
        u
    };
    let w = |c: int|
        if c == zero {
            0int
        } else {
            1int
        };
    assert(zero != nv);
    lemma_spread(kind, sys, w);
    let z = spread(kind, sys, w);
    lemma_definition_holds(kind, sys.row(r), nv, z);
    lemma_chain_unit(kind, sys, key, choose|n: nat| ends(sub, key, n));
    lemma_chain_unit(kind, sys, by.0, choose|n: nat| ends(sub, by.0, n));
    lemma_unit_product(by.1, g);
    lemma_ell();
    lemma_reduced(0);
    assert(!removed(kind, sys, r));
    assert(z[key] == f * w(t));
    assert(z[by.0] == g * w(u));
    lemma_resolve_range(kind, sys, key);
    lemma_resolve_range(kind, sys, by.0);
    if t == u {
        assert(w(t) == 1);
        assert(f * 1 == f && g * 1 == g);
    } else if u == nv {
        assert(w(t) == 0 && w(u) == 1);
        assert(f * 0 == 0 && g * 1 == g);
        if cong(0, by.1 * g) {
            lemma_zero_not_unit(by.1 * g);
        }
    } else {
        assert(w(t) == 1 && w(u) == 0);
        assert(f * 1 == f && g * 0 == 0);
        assert(by.1 * 0 == 0);
        if cong(f, 0) {
            lemma_zero_not_unit(f);
        }
    }
    z
}

/// The first definition of a variable goes, unless it closes a circle: then the rows that go
/// before it tie its two variables together, up to a factor.
pub proof fn law_first_definition(kind: Kind, sys: System, r: int, y: Seq<int>, z: Seq<int>)
    requires
        kept_rows(kind, sys).contains(r),
        y[sys.num_vars as int] == 1,
        z[sys.num_vars as int] == 1,
        ({
            let row = sys.row(r);
            &&& row.a.len() == 1 && row.b.len() == 1 && row.c.len() == 1
            &&& row.b[0] == (sys.num_vars as int, 1int)
            &&& row.c[0].1 == 1
            &&& kind is Alias ==> row.a[0].1 == 1 && 0 <= row.a[0].0 < sys.num_vars
            &&& kind is Scale ==> row.a[0].1 != 1 && is_unit(row.a[0].1) && 0 <= row.c[0].0
                < sys.num_vars && row.a[0].0 != row.c[0].0
        }),
        forall|k: int|
            #![trigger sys.row(k)]
            0 <= k < r && sys.row(k).a.len() == 1 && sys.row(k).b.len() == 1 && sys.row(k).c.len()
                == 1 && sys.row(k).b[0] == (sys.num_vars as int, 1int) && sys.row(k).c[0].1 == 1
                ==> {
                &&& kind is Alias ==> sys.row(k).a[0] != sys.row(r).a[0]
                &&& kind is Scale && sys.row(k).a[0].1 != 1 && is_unit(sys.row(k).a[0].1)
                    && sys.row(k).a[0].0 != sys.row(k).c[0].0 ==> sys.row(k).c[0] != sys.row(
                    r,
                ).c[0]
            },
        forall|k: int|
            0 <= k < r && !kept_rows(kind, sys).contains(k) ==> (#[trigger] sys.row(k)).holds(y)
                && sys.row(k).holds(z),
    ensures
        ({
            let (a, c) = (sys.row(r).a[0].0, sys.row(r).c[0].0);
            (y[a] * z[c] - z[a] * y[c]) % ell() == 0
        }),
{
    let nv = sys.num_vars as int;
    let sub = substitution(kind, sys, r as nat);
    let (key, by) = definition(kind, sys.row(r), nv)->0;
    law_order_kept(kind, sys);
    if adds(kind, sys, r) {
        lemma_added_row(kind, sys, r);
        lemma_survivors(kind, sys, sys.num_cons);
    }
    if is_key(sub, key) {
        let k = lemma_key_has_row(kind, sys, r as nat, key);
        assert(sys.row(k).a.len() == 1);
    }
    reveal(addition);
    assert(resolve(sub, by.0).0 == key);
    lemma_earlier_value(kind, sys, r, y, by.0);
    lemma_earlier_value(kind, sys, r, z, by.0);
    let f = resolve(sub, by.0).1;
    let (p, q) = (y[key], z[key]);
    lemma_cong_mul(y[by.0], f * p, q, q);
    lemma_cong_mul(z[by.0], f * q, p, p);
    assert((f * p) * q == (f * q) * p) by (nonlinear_arith);
    assert(y[by.0] * q == q * y[by.0]) by (nonlinear_arith);
    assert(z[by.0] * p == p * z[by.0]) by (nonlinear_arith);
    lemma_difference(y[by.0] * q, z[by.0] * p);
    lemma_difference(z[by.0] * p, y[by.0] * q);
}

/// Where the rows that go before row `r` hold, every column has the value of what they
/// replace it by.
proof fn lemma_earlier_value(kind: Kind, sys: System, r: int, z: Seq<int>, c: int)
    requires
        0 <= r < sys.num_cons,
        z[sys.num_vars as int] == 1,
        forall|k: int|
            0 <= k < r && !kept_rows(kind, sys).contains(k) ==> (#[trigger] sys.row(k)).holds(z),
    ensures
        ({
            let to = resolve(substitution(kind, sys, r as nat), c);
            cong(z[c], to.1 * z[to.0])
        }),
{
    let sub = substitution(kind, sys, r as nat);
    lemma_survivors(kind, sys, sys.num_cons);
    assert forall|d: int| #[trigger] is_key(sub, d) implies cong(
        z[d],
        (sub[d]->0).1 * z[(sub[d]->0).0],
    ) by {
        let k = lemma_key_has_row(kind, sys, r as nat, d);
        lemma_added_row(kind, sys, k);
        assert(has_definitions(kind, sys));
        assert(sys.row(k).holds(z));
        lemma_definition_holds(kind, sys.row(k), sys.num_vars as int, z);
    }
    lemma_chain_value(sub, z, c, choose|n: nat| ends(sub, c, n));
}

/// Where something was eliminated, every variable that is left occurs in a row.
pub proof fn law_kept_columns_used(kind: Kind, sys: System, c: int) -> (i: int)
    requires
        eliminable(kind, sys),
        eliminated(kind, sys).num_cons < sys.num_cons,
        0 <= c < eliminated(kind, sys).num_vars,
    ensures
        0 <= i < eliminated(kind, sys).num_cons,
        ({
            let row = eliminated(kind, sys).row(i);
            exists|k: int|
                {
                    ||| 0 <= k < row.a.len() && (#[trigger] row.a[k]).0 == c
                    ||| 0 <= k < row.b.len() && row.b[k].0 == c
                    ||| 0 <= k < row.c.len() && row.c[k].0 == c
                }
        }),
{
    let rows = rewritten(kind, sys);
    let nv = sys.num_vars as int;
    lemma_kept_column(kind, sys, c);
    let d = kept_columns(kind, sys)[c];
    let i = choose|i: int| 0 <= i < rows.len() && (#[trigger] rows[i]).mentions(d);
    lemma_eliminated_row(kind, sys, i);
    let row = eliminated(kind, sys).row(i);
    if mentions(rows[i].a, d) {
        let k = choose|k: int| 0 <= k < rows[i].a.len() && (#[trigger] rows[i].a[k]).0 == d;
        assert(row.a[k].0 == c);
    } else if mentions(rows[i].b, d) {
        let k = choose|k: int| 0 <= k < rows[i].b.len() && (#[trigger] rows[i].b[k]).0 == d;
        assert(row.b[k].0 == c);
        let e = row.a[k];
    } else {
        let k = choose|k: int| 0 <= k < rows[i].c.len() && (#[trigger] rows[i].c[k]).0 == d;
        assert(row.c[k].0 == c);
        let e = row.a[k];
    }
    i
}

/// Where something was eliminated, the entries of each matrix stand in the order of the rows.
pub proof fn law_eliminated_entries_by_row(kind: Kind, sys: System)
    requires
        eliminated(kind, sys).num_cons < sys.num_cons,
    ensures
        ({
            let out = eliminated(kind, sys);
            &&& forall|i: int, j: int|
                0 <= i < j < out.a.len() ==> (#[trigger] out.a[i]).0 <= (#[trigger] out.a[j]).0
            &&& forall|i: int, j: int|
                0 <= i < j < out.b.len() ==> (#[trigger] out.b[i]).0 <= (#[trigger] out.b[j]).0
            &&& forall|i: int, j: int|
                0 <= i < j < out.c.len() ==> (#[trigger] out.c[i]).0 <= (#[trigger] out.c[j]).0
            &&& forall|i: int|
                0 <= i < out.a.len() ==> 0 <= (#[trigger] out.a[i]).0 < out.num_cons
            &&& forall|i: int|
                0 <= i < out.b.len() ==> 0 <= (#[trigger] out.b[i]).0 < out.num_cons
            &&& forall|i: int|
                0 <= i < out.c.len() ==> 0 <= (#[trigger] out.c[i]).0 < out.num_cons
        }),
{
    let rows = rewritten(kind, sys);
    let nv = sys.num_vars as int;
    lemma_flatten_sorted(Seq::new(rows.len(), |i: int| compact_lin(rows, nv, rows[i].a)));
    lemma_flatten_sorted(Seq::new(rows.len(), |i: int| compact_lin(rows, nv, rows[i].b)));
    lemma_flatten_sorted(Seq::new(rows.len(), |i: int| compact_lin(rows, nv, rows[i].c)));
}

// What is computed stays the same.

/// What satisfies a system gives what satisfies the smaller one, with the same public values.
pub proof fn law_witness_carries_over(kind: Kind, sys: System, z: Seq<int>) -> (w: Seq<int>)
    requires
        sys.entries_valid(),
        eliminable(kind, sys),
        sys.satisfied(z),
    ensures
        eliminated(kind, sys).satisfied(w),
        w.skip(eliminated(kind, sys).num_vars as int + 1) == z.skip(sys.num_vars as int + 1),
{
    let io = z.skip(sys.num_vars as int + 1);
    assert(accepts(sys, io));
    law_elimination_keeps_function(kind, sys, io);
    let out = eliminated(kind, sys);
    choose|w: Seq<int>| #[trigger] out.satisfied(w) && public_part(out, w) == io
}

/// What satisfies the smaller system gives what satisfies the whole one, with the same public
/// values.
pub proof fn law_witness_carries_back(kind: Kind, sys: System, w: Seq<int>) -> (z: Seq<int>)
    requires
        sys.entries_valid(),
        eliminable(kind, sys),
        eliminated(kind, sys).satisfied(w),
    ensures
        sys.satisfied(z),
        z.skip(sys.num_vars as int + 1) == w.skip(eliminated(kind, sys).num_vars as int + 1),
{
    let io = w.skip(eliminated(kind, sys).num_vars as int + 1);
    assert(accepts(eliminated(kind, sys), io));
    law_elimination_keeps_function(kind, sys, io);
    choose|z: Seq<int>| #[trigger] sys.satisfied(z) && public_part(sys, z) == io
}

} // verus!
