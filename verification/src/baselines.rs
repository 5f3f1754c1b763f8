//! Baseline optimizers: smaller constraint systems by eliminating variables.
use crate::convert::lemma_flatten_push;
use crate::dag::{flatten, tag};
use crate::elimination::{
    acyclic, add_term, addition, adds, compact, compact_lin, definition, drop_zeros, eliminable,
    eliminated, full_substitution, has_definitions, height, implied, is_key, lemma_height_step,
    lemma_resolve_base, lemma_resolve_step, lemma_substitution_acyclic, lin_canonical, live,
    live_rank, merge, position, removed, replace, resolve, rewrite, rewrite_row, rewritten,
    row_canonical, rows_in_range, scale_shape, substitution, survivors, terminates, Kind,
    Substitution,
};
use crate::elimination_order::law_eliminable;
use crate::field::{
    cong, ell, lemma_cong_mul, lemma_cong_reduced, lemma_ell, lemma_mod_range, lemma_reduced,
};
use crate::r1cs::{entries, entries_in_range, lin, R1CSMatrix, SparseRow, SpartanInstance};
use crate::scalar::{le_value, lemma_scalar_range, Scalar};
use crate::system::{lemma_mentions_push, lin_below, mentions, row_of, Lin, Row, System};
use vstd::prelude::*;

verus! {

broadcast use lemma_scalar_range;

/// A row of a matrix with its coefficients as they were given.
type RawRow = Vec<(usize, [u8; 32])>;

spec fn raw_lin(row: Seq<(usize, [u8; 32])>) -> Lin {
    Seq::new(row.len(), |i: int| (row[i].0 as int, le_value(row[i].1@)))
}

/// The rows of a matrix, in order.
fn raw_rows(m: &R1CSMatrix, num_cons: usize) -> (rows: Vec<RawRow>)
    requires
        rows_in_range(entries(m@), num_cons as nat),
    ensures
        rows@.len() == num_cons,
        forall|r: int|
            0 <= r < num_cons ==> raw_lin((#[trigger] rows@[r])@) == row_of(entries(m@), r),
{
    let mut rows: Vec<RawRow> = Vec::new();
    let mut k: usize = 0;
    while k < num_cons
        invariant
            k <= num_cons,
            rows@.len() == k,
            forall|r: int| 0 <= r < k ==> (#[trigger] rows@[r])@.len() == 0,
        decreases num_cons - k,
    {
        rows.push(Vec::new());
        k += 1;
    }
    let n: usize = m.len();
    let mut i: usize = 0;
    assert(entries(m@).take(0) =~= Seq::empty());
    assert forall|r: int| 0 <= r < num_cons implies raw_lin((#[trigger] rows@[r])@) == row_of(
        entries(m@).take(0),
        r,
    ) by {
        assert(raw_lin(rows@[r]@) =~= Seq::empty());
    }
    while i < n
        invariant
            n == m@.len(),
            i <= n,
            rows@.len() == num_cons,
            rows_in_range(entries(m@), num_cons as nat),
            forall|r: int|
                0 <= r < num_cons ==> raw_lin((#[trigger] rows@[r])@) == row_of(
                    entries(m@).take(i as int),
                    r,
                ),
        decreases n - i,
    {
        let entry = m[i];
        let ghost before = rows@;
        assert(entries(m@)[i as int].0 < num_cons);
        rows[entry.0].push((entry.1, entry.2));
        proof {
            let next = entries(m@).take(i + 1);
            assert(next.drop_last() =~= entries(m@).take(i as int));
            assert forall|r: int| 0 <= r < num_cons implies raw_lin((#[trigger] rows@[r])@)
                == row_of(next, r) by {
                if r == entry.0 {
                    assert(raw_lin(rows@[r]@) =~= raw_lin(before[r]@).push(
                        (entry.1 as int, le_value(entry.2@)),
                    ));
                } else {
                    assert(rows@[r] == before[r]);
                }
            }
        }
        i += 1;
    }
    assert(entries(m@).take(n as int) =~= entries(m@));
    rows
}

/// Whether an encoding is that of the element one.
fn is_one(bytes: &[u8; 32]) -> (r: bool)
    ensures
        r == (le_value(bytes@) == 1),
{
    let one = Scalar::one();
    proof {
        lemma_ell();
    }
    match Scalar::from_canonical_bytes(*bytes) {
        Some(s) => s.same(&one),
        None => false,
    }
}

/// The variable that a row lets one eliminate, with what replaces it.
fn row_definition(kind: Kind, a: &RawRow, b: &RawRow, c: &RawRow, num_vars: usize) -> (r: Option<
    (usize, (usize, Scalar)),
>)
    requires
        kind is Scale && scale_shape(
            (Row { a: raw_lin(a@), b: raw_lin(b@), c: raw_lin(c@) }),
            num_vars as int,
        ) ==> le_value(a@[0].1@) < ell(),
    ensures
        definition(
            kind,
            (Row { a: raw_lin(a@), b: raw_lin(b@), c: raw_lin(c@) }),
            num_vars as int,
        ) == match r {
            Some((key, (col, k))) => Some((key as int, (col as int, k@))),
            None => None,
        },
{
    if a.len() != 1 || b.len() != 1 || c.len() != 1 {
        return None;
    }
    let (a_col, a_val) = a[0];
    let (b_col, b_val) = b[0];
    let (c_col, c_val) = c[0];
    let ghost row = Row { a: raw_lin(a@), b: raw_lin(b@), c: raw_lin(c@) };
    assert(row.a[0] == (a_col as int, le_value(a_val@)));
    assert(row.b[0] == (b_col as int, le_value(b_val@)));
    assert(row.c[0] == (c_col as int, le_value(c_val@)));
    if b_col != num_vars || !is_one(&b_val) || !is_one(&c_val) {
        return None;
    }
    match kind {
        Kind::Alias => {
            if is_one(&a_val) && a_col < num_vars {
                Some((a_col, (c_col, Scalar::one())))
            } else {
                None
            }
        },
        Kind::Scale => {
            if c_col >= num_vars || is_one(&a_val) || a_col == c_col {
                return None;
            }
            match Scalar::from_canonical_bytes(a_val) {
                Some(k) => if k.is_zero() {
                    None
                } else {
                    Some((c_col, (a_col, k)))
                },
                None => None,
            }
        },
    }
}

/// A substitution under construction: what replaces each private variable.
type SubstitutionTable = Vec<Option<(usize, Scalar)>>;

spec fn table(t: Seq<Option<(usize, Scalar)>>) -> Substitution {
    Seq::new(
        t.len(),
        |i: int|
            match t[i] {
                Some((col, k)) => Some((col as int, k@)),
                None => None,
            },
    )
}

/// The replacement `col` times `k` for variable `c` lies on the chain of `c`.
#[verifier::opaque]
spec fn follows(sub: Substitution, c: int, col: int, k: int) -> bool {
    &&& terminates(sub, col)
    &&& height(sub, col) < height(sub, c)
    &&& resolve(sub, col).0 == resolve(sub, c).0
    &&& cong(k * resolve(sub, col).1, resolve(sub, c).1)
}

spec fn shortcut(sub: Substitution, cur: Substitution) -> bool {
    &&& cur.len() == sub.len()
    &&& forall|c: int|
        0 <= c < sub.len() ==> {
            &&& (#[trigger] cur[c]) is Some <==> sub[c] is Some
            &&& cur[c] matches Some((col, k)) ==> follows(sub, c, col, k) && 0 <= k < ell()
        }
}

/// The steps that are left on all chains of the first `n` variables.
spec fn steps_left(sub: Substitution, cur: Substitution, n: nat) -> nat
    decreases n,
{
    if n == 0 {
        0
    } else {
        steps_left(sub, cur, (n - 1) as nat) + match cur[n - 1] {
            Some((col, k)) => height(sub, col),
            None => 0,
        }
    }
}

proof fn lemma_steps_drop(sub: Substitution, cur: Substitution, c: int, col: int, k: int, n: nat)
    requires
        0 <= c < cur.len(),
        n <= cur.len(),
        cur[c] is Some,
        height(sub, col) < height(sub, (cur[c]->0).0),
    ensures
        c < n ==> steps_left(sub, cur.update(c, Some((col, k))), n) < steps_left(sub, cur, n),
        c >= n ==> steps_left(sub, cur.update(c, Some((col, k))), n) == steps_left(sub, cur, n),
    decreases n,
{
    if n > 0 {
        lemma_steps_drop(sub, cur, c, col, k, (n - 1) as nat);
    }
}

/// Replacing a replacement stays on the chain.
proof fn lemma_follows_on(sub: Substitution, c: int, mid: int, k: int, col: int, l: int)
    requires
        follows(sub, c, mid, k),
        follows(sub, mid, col, l),
    ensures
        follows(sub, c, col, (k * l) % ell()),
{
    reveal(follows);
    let m = resolve(sub, mid).1;
    let e = resolve(sub, col).1;
    lemma_mod_range(k * l);
    lemma_cong_mul((k * l) % ell(), k * l, e, e);
    lemma_cong_mul(k, k, l * e, m);
    assert((k * l) * e == k * (l * e)) by (nonlinear_arith);
}

/// One step of chain resolution keeps to the chains and shortens them.
proof fn lemma_shortcut_update(sub: Substitution, cur: Substitution, c: int, n: nat)
    requires
        shortcut(sub, cur),
        n == sub.len(),
        is_key(cur, c),
        is_key(cur, (cur[c]->0).0),
    ensures
        ({
            let (mid, k) = cur[c]->0;
            let (col, l) = cur[mid]->0;
            let next = cur.update(c, Some((col, (k * l) % ell())));
            &&& shortcut(sub, next)
            &&& steps_left(sub, next, n) < steps_left(sub, cur, n)
        }),
{
    let (mid, k) = cur[c]->0;
    let (col, l) = cur[mid]->0;
    lemma_follows_on(sub, c, mid, k, col, l);
    lemma_mod_range(k * l);
    assert(height(sub, col) < height(sub, mid)) by {
        reveal(follows);
    }
    lemma_steps_drop(sub, cur, c, col, (k * l) % ell(), n);
}

/// Each definition lies on its own chain.
proof fn lemma_shortcut_start(sub: Substitution)
    requires
        acyclic(sub),
        forall|c: int| 0 <= c < sub.len() && (#[trigger] sub[c]) is Some ==> 0 <= (sub[c]->0).1 < ell(),
    ensures
        shortcut(sub, sub),
{
    assert forall|c: int| 0 <= c < sub.len() implies {
        &&& (#[trigger] sub[c]) is Some <==> sub[c] is Some
        &&& sub[c] matches Some((col, k)) ==> follows(sub, c, col, k) && 0 <= k < ell()
    } by {
        if sub[c] is Some {
            assert(is_key(sub, c));
            reveal(follows);
            lemma_height_step(sub, c);
            lemma_resolve_step(sub, c);
        }
    }
}

/// Follows every chain of substitutions to its end.
fn resolve_chains(t: &mut SubstitutionTable)
    requires
        acyclic(table(old(t)@)),
    ensures
        final(t)@.len() == old(t)@.len(),
        forall|c: int|
            0 <= c < old(t)@.len() ==> (#[trigger] table(final(t)@)[c]) == match table(
                old(t)@,
            )[c] {
                Some(by) => Some(
                    (
                        resolve(table(old(t)@), c).0,
                        resolve(table(old(t)@), c).1 % ell(),
                    ),
                ),
                None => None,
            },
{
    let ghost sub = table(t@);
    proof {
        lemma_shortcut_start(sub);
    }
    let n: usize = t.len();
    let mut changed: bool = true;
    while changed
        invariant
            n == t@.len(),
            n == sub.len(),
            acyclic(sub),
            shortcut(sub, table(t@)),
            !changed ==> forall|c: int|
                0 <= c < n && (#[trigger] table(t@)[c]) is Some ==> !is_key(
                    sub,
                    (table(t@)[c]->0).0,
                ),
        decreases
                steps_left(sub, table(t@), n as nat),
                (if changed {
                    1nat
                } else {
                    0nat
                }),
    {
        let ghost before = steps_left(sub, table(t@), n as nat);
        changed = false;
        let mut i: usize = 0;
        while i < n
            invariant
                i <= n,
                n == t@.len(),
                n == sub.len(),
                acyclic(sub),
                shortcut(sub, table(t@)),
                steps_left(sub, table(t@), n as nat) <= before,
                changed ==> steps_left(sub, table(t@), n as nat) < before,
                !changed ==> forall|c: int|
                    0 <= c < i && (#[trigger] table(t@)[c]) is Some ==> !is_key(
                        sub,
                        (table(t@)[c]->0).0,
                    ),
            decreases n - i,
        {
            let ghost cur = table(t@);
            if let Some((mid, k)) = t[i] {
                assert(cur[i as int] == Some((mid as int, k@)));
                if mid < n {
                    assert(cur[mid as int] is Some <==> sub[mid as int] is Some);
                    if let Some((col, l)) = t[mid] {
                        assert(cur[mid as int] == Some((col as int, l@)));
                        let product = k.times(&l);
                        proof {
                            lemma_shortcut_update(sub, cur, i as int, n as nat);
                        }
                        t.set(i, Some((col, product)));
                        proof {
                            assert(table(t@) =~= cur.update(
                                i as int,
                                Some((col as int, product@)),
                            ));
                        }
                        changed = true;
                    }
                }
            }
            i += 1;
        }
    }
    proof {
        assert forall|c: int| 0 <= c < n implies (#[trigger] table(t@)[c]) == match sub[c] {
            Some(by) => Some((resolve(sub, c).0, resolve(sub, c).1 % ell())),
            None => None,
        } by {
            reveal(follows);
            let cur = table(t@);
            if sub[c] is Some {
                let (col, k) = cur[c]->0;
                assert(!is_key(sub, col));
                lemma_resolve_base(sub, col);
                lemma_mod_range(resolve(sub, c).1);
                assert(cong(k, resolve(sub, c).1));
                lemma_cong_reduced(k, resolve(sub, c).1 % ell());
            }
        }
    }
}

/// The column that a chain of substitutions ends in.
fn chain_end(t: &SubstitutionTable, c: usize) -> (r: usize)
    requires
        acyclic(table(t@)),
    ensures
        r == resolve(table(t@), c as int).0,
{
    let ghost sub = table(t@);
    let n: usize = t.len();
    let mut at: usize = c;
    while at < n
        invariant
            n == t@.len(),
            sub == table(t@),
            acyclic(sub),
            resolve(sub, at as int).0 == resolve(sub, c as int).0,
        decreases height(sub, at as int),
    {
        match t[at] {
            None => {
                proof {
                    lemma_resolve_base(sub, at as int);
                }
                return at;
            },
            Some((next, _)) => {
                proof {
                    assert(is_key(sub, at as int));
                    lemma_resolve_step(sub, at as int);
                    lemma_height_step(sub, at as int);
                }
                at = next;
            },
        }
    }
    proof {
        lemma_resolve_base(sub, at as int);
    }
    at
}

/// A definition as it stands in a row: the variable, and what it equals.
type Found = Option<(usize, (usize, Scalar))>;

spec fn found_view(f: Found) -> Option<(int, (int, int))> {
    match f {
        Some((key, (col, k))) => Some((key as int, (col as int, k@))),
        None => None,
    }
}

/// Collects the definitions in the rows, the substitution that they make, and whether they
/// make any.
fn find_definitions(
    kind: Kind,
    a_rows: &Vec<RawRow>,
    b_rows: &Vec<RawRow>,
    c_rows: &Vec<RawRow>,
    num_vars: usize,
    Ghost(sys): Ghost<System>,
) -> (r: (SubstitutionTable, Vec<Found>, bool))
    requires
        sys.num_cons == a_rows@.len(),
        sys.num_cons == b_rows@.len(),
        sys.num_cons == c_rows@.len(),
        sys.num_vars == num_vars,
        forall|i: int|
            0 <= i < sys.num_cons ==> (#[trigger] sys.row(i)) == (Row {
                a: raw_lin(a_rows@[i]@),
                b: raw_lin(b_rows@[i]@),
                c: raw_lin(c_rows@[i]@),
            }),
        kind is Scale ==> forall|i: int|
            0 <= i < sys.num_cons && scale_shape(#[trigger] sys.row(i), num_vars as int)
                ==> lin_canonical(sys.row(i).a),
    ensures
        table(r.0@) == full_substitution(kind, sys),
        r.0@.len() == num_vars,
        r.1@.len() == sys.num_cons,
        forall|i: int|
            0 <= i < sys.num_cons ==> found_view(#[trigger] r.1@[i]) == definition(
                kind,
                sys.row(i),
                num_vars as int,
            ),
        r.2 == has_definitions(kind, sys),
{
    let mut subs: SubstitutionTable = Vec::new();
    let mut k: usize = 0;
    while k < num_vars
        invariant
            k <= num_vars,
            subs@.len() == k,
            forall|i: int| 0 <= i < k ==> (#[trigger] subs@[i]) is None,
        decreases num_vars - k,
    {
        subs.push(None);
        k += 1;
    }
    assert(table(subs@) =~= substitution(kind, sys, 0));
    let mut all: Vec<Found> = Vec::new();
    let mut any: bool = false;
    let n: usize = a_rows.len();
    let mut i: usize = 0;
    while i < n
        invariant
            n == sys.num_cons,
            n == a_rows@.len(),
            n == b_rows@.len(),
            n == c_rows@.len(),
            sys.num_vars == num_vars,
            i <= n,
            forall|j: int|
                0 <= j < n ==> (#[trigger] sys.row(j)) == (Row {
                    a: raw_lin(a_rows@[j]@),
                    b: raw_lin(b_rows@[j]@),
                    c: raw_lin(c_rows@[j]@),
                }),
            kind is Scale ==> forall|j: int|
                0 <= j < n && scale_shape(#[trigger] sys.row(j), num_vars as int)
                    ==> lin_canonical(sys.row(j).a),
            subs@.len() == num_vars,
            table(subs@) == substitution(kind, sys, i as nat),
            all@.len() == i,
            forall|j: int|
                0 <= j < i ==> found_view(#[trigger] all@[j]) == definition(
                    kind,
                    sys.row(j),
                    num_vars as int,
                ),
            any == exists|j: int| 0 <= j < i && #[trigger] adds(kind, sys, j),
        decreases n - i,
    {
        let ghost row = sys.row(i as int);
        let ghost before = table(subs@);
        assert(kind is Scale && scale_shape(row, num_vars as int) ==> le_value(
            a_rows@[i as int]@[0].1@,
        ) < ell()) by {
            if kind is Scale && scale_shape(row, num_vars as int) {
                assert(0 <= row.a[0].1 < ell());
            }
        }
        let found = row_definition(kind, &a_rows[i], &b_rows[i], &c_rows[i], num_vars);
        proof {
            reveal(addition);
            lemma_substitution_acyclic(kind, sys, i as nat);
        }
        let mut taken: bool = false;
        if let Some((key, by)) = found {
            assert(is_key(before, key as int) == (subs@[key as int] is Some));
            if subs[key].is_none() && chain_end(&subs, by.0) != key {
                subs.set(key, Some(by));
                taken = true;
                assert(table(subs@) =~= before.update(key as int, Some((by.0 as int, by.1@))));
            }
        }
        assert(taken == adds(kind, sys, i as int));
        if taken {
            any = true;
        }
        all.push(found);
        proof {
            if any {
                let j = choose|j: int| 0 <= j < i + 1 && #[trigger] adds(kind, sys, j);
                assert(adds(kind, sys, j));
            }
        }
        i += 1;
    }
    (subs, all, any)
}

/// A form holds each column at most once.
spec fn distinct(m: Lin) -> bool {
    forall|i: int, j: int|
        0 <= i < m.len() && 0 <= j < m.len() && (#[trigger] m[i]).0 == (#[trigger] m[j]).0 ==> i
            == j
}

proof fn lemma_add_distinct(m: Lin, term: (int, int))
    requires
        distinct(m),
    ensures
        distinct(add_term(m, term)),
{
}

/// Adds a term to a form that holds each column at most once.
fn add_to_form(form: &mut SparseRow, col: usize, val: &Scalar)
    requires
        distinct(lin(old(form)@)),
    ensures
        lin(final(form)@) == add_term(lin(old(form)@), (col as int, val@)),
        distinct(lin(final(form)@)),
{
    let ghost m = lin(form@);
    proof {
        lemma_add_distinct(m, (col as int, val@));
    }
    let n: usize = form.len();
    let mut i: usize = 0;
    while i < n
        invariant
            n == form@.len(),
            i <= n,
            form@ == old(form)@,
            m == lin(form@),
            distinct(m),
            distinct(add_term(m, (col as int, val@))),
            forall|j: int| 0 <= j < i ==> (#[trigger] m[j]).0 != col,
        decreases n - i,
    {
        assert(m[i as int].0 == form@[i as int].0);
        if form[i].0 == col {
            let sum = form[i].1.plus(val);
            form.set(i, (col, sum));
            proof {
                assert(m[i as int].0 == col);
                assert(position(m, col as int) == Some(i as int));
                assert(lin(form@) =~= add_term(m, (col as int, val@)));
            }
            return;
        }
        i += 1;
    }
    form.push((col, *val));
    proof {
        assert(position(m, col as int) is None);
        assert(lin(form@) =~= m.push((col as int, val@)));
    }
}

/// A table that gives the end of each chain.
spec fn resolved(sub: Substitution, t: Substitution) -> bool {
    &&& t.len() == sub.len()
    &&& forall|c: int|
        0 <= c < sub.len() ==> (#[trigger] t[c]) == match sub[c] {
            Some(by) => Some((resolve(sub, c).0, resolve(sub, c).1 % ell())),
            None => None,
        }
}

/// Where a column leads to, and with which factor.
fn resolved_column(subs: &SubstitutionTable, col: usize, Ghost(sub): Ghost<Substitution>) -> (r: (
    usize,
    Scalar,
))
    requires
        resolved(sub, table(subs@)),
    ensures
        r.0 == resolve(sub, col as int).0,
        cong(r.1@, resolve(sub, col as int).1),
{
    if col < subs.len() {
        proof {
            assert(table(subs@)[col as int] == match sub[col as int] {
                Some(by) => Some((resolve(sub, col as int).0, resolve(sub, col as int).1 % ell())),
                None => None,
            });
            lemma_mod_range(resolve(sub, col as int).1);
        }
        if let Some((to, k)) = subs[col] {
            return (to, k);
        }
    }
    proof {
        lemma_resolve_base(sub, col as int);
    }
    (col, Scalar::one())
}

/// Whether what a definition says is in the substitution.
fn is_implied(
    subs: &SubstitutionTable,
    key: usize,
    by: &(usize, Scalar),
    Ghost(sub): Ghost<Substitution>,
) -> (r: bool)
    requires
        resolved(sub, table(subs@)),
    ensures
        r == implied(sub, key as int, (by.0 as int, by.1@)),
{
    let (key_end, key_factor) = resolved_column(subs, key, Ghost(sub));
    let (by_end, by_factor) = resolved_column(subs, by.0, Ghost(sub));
    let factor = by.1.times(&by_factor);
    proof {
        lemma_mod_range(by.1@ * by_factor@);
        lemma_cong_mul(by.1@, by.1@, by_factor@, resolve(sub, by.0 as int).1);
        if cong(key_factor@, factor@) {
            lemma_cong_reduced(key_factor@, factor@);
        }
    }
    key_end == by_end && key_factor.same(&factor)
}

/// Makes all substitutions in a linear form, collects like terms and drops zeros.
fn rewrite_form(row: &RawRow, subs: &SubstitutionTable, Ghost(sub): Ghost<Substitution>) -> (r:
    SparseRow)
    requires
        resolved(sub, table(subs@)),
        lin_canonical(raw_lin(row@)),
    ensures
        lin(r@) == rewrite(sub, raw_lin(row@)),
{
    let ghost l = raw_lin(row@);
    let mut merged: SparseRow = Vec::new();
    let n: usize = row.len();
    let mut i: usize = 0;
    proof {
        assert(replace(sub, l.take(0)) =~= Seq::empty());
        assert(lin(merged@) =~= Seq::empty());
    }
    while i < n
        invariant
            n == row@.len(),
            i <= n,
            l == raw_lin(row@),
            resolved(sub, table(subs@)),
            lin_canonical(l),
            distinct(lin(merged@)),
            lin(merged@) == merge(replace(sub, l.take(i as int))),
        decreases n - i,
    {
        let (col, bytes) = row[i];
        proof {
            assert(l[i as int] == (col as int, le_value(bytes@)));
            let next = replace(sub, l.take(i + 1));
            assert(next.drop_last() =~= replace(sub, l.take(i as int)));
            assert(next.last() == (
                resolve(sub, col as int).0,
                (le_value(bytes@) * resolve(sub, col as int).1) % ell(),
            ));
            lemma_mod_range(resolve(sub, col as int).1);
        }
        if let Some(val) = Scalar::from_canonical_bytes(bytes) {
            let mut target: usize = col;
            let mut coeff: Scalar = val;
            if col < subs.len() {
                assert(table(subs@)[col as int] == match sub[col as int] {
                    Some(by) => Some(
                        (resolve(sub, col as int).0, resolve(sub, col as int).1 % ell()),
                    ),
                    None => None,
                });
                if let Some((to, k)) = subs[col] {
                    target = to;
                    coeff = val.times(&k);
                    proof {
                        lemma_cong_mul(val@, val@, k@, resolve(sub, col as int).1);
                    }
                }
            }
            proof {
                if !is_key(sub, col as int) {
                    lemma_resolve_base(sub, col as int);
                    lemma_reduced(val@);
                    assert(val@ * 1 == val@);
                }
            }
            add_to_form(&mut merged, target, &coeff);
        }
        i += 1;
    }
    assert(l.take(n as int) =~= l);
    let ghost m = lin(merged@);
    let mut kept: SparseRow = Vec::new();
    let count: usize = merged.len();
    let mut j: usize = 0;
    assert(m.take(0) =~= Seq::empty());
    assert(lin(kept@) =~= Seq::empty());
    while j < count
        invariant
            count == merged@.len(),
            j <= count,
            m == lin(merged@),
            lin(kept@) == drop_zeros(m.take(j as int)),
        decreases count - j,
    {
        let (col, val) = merged[j];
        let ghost before = lin(kept@);
        proof {
            assert(m.take(j + 1).drop_last() =~= m.take(j as int));
            assert(m.take(j + 1).last() == (col as int, val@));
        }
        if !val.is_zero() {
            kept.push((col, val));
            assert(lin(kept@) =~= before.push((col as int, val@)));
        }
        j += 1;
    }
    assert(m.take(count as int) =~= m);
    kept
}

spec fn row_at(a: Seq<SparseRow>, b: Seq<SparseRow>, c: Seq<SparseRow>, i: int) -> Row {
    Row { a: lin(a[i]@), b: lin(b[i]@), c: lin(c[i]@) }
}

/// The rows of three matrices held as lists of forms.
spec fn rows_at(a: Seq<SparseRow>, b: Seq<SparseRow>, c: Seq<SparseRow>) -> Seq<Row> {
    Seq::new(a.len(), |i: int| row_at(a, b, c, i))
}

/// Marks the private variables of a form.
fn mark_live(form: &SparseRow, marks: &mut Vec<bool>)
    ensures
        final(marks)@.len() == old(marks)@.len(),
        forall|c: int|
            0 <= c < old(marks)@.len() ==> #[trigger] final(marks)@[c] == (old(marks)@[c]
                || mentions(lin(form@), c)),
{
    let ghost l = lin(form@);
    let n: usize = form.len();
    let num_vars: usize = marks.len();
    let mut i: usize = 0;
    while i < n
        invariant
            n == form@.len(),
            i <= n,
            l == lin(form@),
            num_vars == marks@.len(),
            num_vars == old(marks)@.len(),
            forall|c: int|
                0 <= c < num_vars ==> #[trigger] marks@[c] == (old(marks)@[c] || mentions(
                    l.take(i as int),
                    c,
                )),
        decreases n - i,
    {
        let col: usize = form[i].0;
        let ghost before = marks@;
        proof {
            let next = l.take(i + 1);
            assert(next.drop_last() =~= l.take(i as int));
            assert(next.last().0 == col);
            assert forall|c: int| 0 <= c < num_vars implies mentions(next, c) == (mentions(
                l.take(i as int),
                c,
            ) || c == col) by {
                lemma_mentions_push(next, c);
            }
        }
        if col < num_vars {
            marks.set(col, true);
        }
        i += 1;
    }
    assert(l.take(n as int) =~= l);
}

/// How many live columns lie below each column.
fn rank_live(a: &Vec<SparseRow>, b: &Vec<SparseRow>, c: &Vec<SparseRow>, num_vars: usize) -> (r:
    Vec<usize>)
    requires
        a@.len() == b@.len(),
        a@.len() == c@.len(),
        num_vars < usize::MAX,
    ensures
        r@.len() == num_vars + 1,
        forall|j: int|
            0 <= j <= num_vars ==> #[trigger] r@[j] == live_rank(rows_at(a@, b@, c@), j),
{
    let ghost rows = rows_at(a@, b@, c@);
    let mut marks: Vec<bool> = Vec::new();
    let mut k: usize = 0;
    while k < num_vars
        invariant
            k <= num_vars,
            marks@.len() == k,
            forall|j: int| 0 <= j < k ==> !(#[trigger] marks@[j]),
        decreases num_vars - k,
    {
        marks.push(false);
        k += 1;
    }
    let n: usize = a.len();
    let mut i: usize = 0;
    while i < n
        invariant
            n == a@.len(),
            n == b@.len(),
            n == c@.len(),
            i <= n,
            rows == rows_at(a@, b@, c@),
            marks@.len() == num_vars,
            forall|j: int|
                0 <= j < num_vars ==> #[trigger] marks@[j] == exists|q: int|
                    0 <= q < i && (#[trigger] rows[q]).mentions(j),
        decreases n - i,
    {
        let ghost before = marks@;
        mark_live(&a[i], &mut marks);
        mark_live(&b[i], &mut marks);
        mark_live(&c[i], &mut marks);
        proof {
            let row = rows[i as int];
            assert forall|j: int| 0 <= j < num_vars implies #[trigger] marks@[j] == exists|q: int|
                0 <= q < i + 1 && (#[trigger] rows[q]).mentions(j) by {
                assert(marks@[j] == (before[j] || row.mentions(j)));
                if before[j] {
                    let q = choose|q: int| 0 <= q < i && (#[trigger] rows[q]).mentions(j);
                    assert(rows[q].mentions(j));
                }
            }
        }
        i += 1;
    }
    let mut ranks: Vec<usize> = Vec::new();
    ranks.push(0);
    let mut count: usize = 0;
    let mut v: usize = 0;
    while v < num_vars
        invariant
            v <= num_vars,
            num_vars < usize::MAX,
            marks@.len() == num_vars,
            n == rows.len(),
            forall|j: int|
                0 <= j < num_vars ==> #[trigger] marks@[j] == exists|q: int|
                    0 <= q < n && (#[trigger] rows[q]).mentions(j),
            count <= v,
            count == live_rank(rows, v as int),
            ranks@.len() == v + 1,
            forall|j: int| 0 <= j <= v ==> #[trigger] ranks@[j] == live_rank(rows, j),
        decreases num_vars - v,
    {
        assert(marks@[v as int] == live(rows, v as int));
        if marks[v] {
            count += 1;
        }
        ranks.push(count);
        v += 1;
    }
    ranks
}

pub proof fn lemma_live_rank_monotone(rows: Seq<Row>, c: int, d: int)
    requires
        c <= d,
    ensures
        live_rank(rows, c) <= live_rank(rows, d),
        0 <= c ==> live_rank(rows, d) <= live_rank(rows, c) + (d - c),
    decreases d - c,
{
    if c < d {
        lemma_live_rank_monotone(rows, c, d - 1);
    }
}

/// Appends a form to a matrix as one of its rows, with its columns compacted.
fn append_form(
    matrix: &mut R1CSMatrix,
    row: usize,
    form: &SparseRow,
    ranks: &Vec<usize>,
    num_vars: usize,
    Ghost(rows): Ghost<Seq<Row>>,
    Ghost(z_len): Ghost<int>,
)
    requires
        ranks@.len() == num_vars + 1,
        forall|j: int| 0 <= j <= num_vars ==> #[trigger] ranks@[j] == live_rank(rows, j),
        num_vars < z_len <= usize::MAX,
        lin_below(lin(form@), z_len),
    ensures
        entries(final(matrix)@) == entries(old(matrix)@) + tag(
            compact_lin(rows, num_vars as int, lin(form@)),
            row as int,
        ),
{
    let ghost l = lin(form@);
    let ghost nv = num_vars as int;
    let ghost before = entries(matrix@);
    let n: usize = form.len();
    let mut i: usize = 0;
    assert(before + tag(compact_lin(rows, nv, l.take(0)), row as int) =~= before);
    proof {
        lemma_live_rank_monotone(rows, 0, nv);
    }
    while i < n
        invariant
            n == form@.len(),
            i <= n,
            l == lin(form@),
            nv == num_vars,
            ranks@.len() == num_vars + 1,
            forall|j: int| 0 <= j <= num_vars ==> #[trigger] ranks@[j] == live_rank(rows, j),
            live_rank(rows, nv) <= nv,
            num_vars < z_len <= usize::MAX,
            lin_below(l, z_len),
            entries(matrix@) == before + tag(
                compact_lin(rows, nv, l.take(i as int)),
                row as int,
            ),
        decreases n - i,
    {
        let (col, val) = form[i];
        assert(l[i as int] == (col as int, val@));
        let last: usize = ranks[num_vars];
        assert(last == live_rank(rows, nv));
        let new_col: usize = if col < num_vars {
            ranks[col]
        } else {
            col - num_vars + last
        };
        assert(new_col == compact(rows, nv, col as int));
        let bytes = val.to_bytes();
        let ghost now = entries(matrix@);
        matrix.push((row, new_col, bytes));
        proof {
            assert(entries(matrix@) =~= now.push((row as int, new_col as int, val@)));
            assert(compact_lin(rows, nv, l.take(i + 1)) =~= compact_lin(
                rows,
                nv,
                l.take(i as int),
            ).push((new_col as int, val@)));
            assert(entries(matrix@) =~= before + tag(
                compact_lin(rows, nv, l.take(i + 1)),
                row as int,
            ));
        }
        i += 1;
    }
    assert(l.take(n as int) =~= l);
}

/// The matrix of a list of forms, with its columns compacted.
fn compact_matrix(
    forms: &Vec<SparseRow>,
    ranks: &Vec<usize>,
    num_vars: usize,
    Ghost(rows): Ghost<Seq<Row>>,
    Ghost(z_len): Ghost<int>,
) -> (r: R1CSMatrix)
    requires
        ranks@.len() == num_vars + 1,
        forall|j: int| 0 <= j <= num_vars ==> #[trigger] ranks@[j] == live_rank(rows, j),
        num_vars < z_len <= usize::MAX,
        forall|i: int| 0 <= i < forms@.len() ==> lin_below(lin((#[trigger] forms@[i])@), z_len),
    ensures
        entries(r@) == flatten(
            Seq::new(
                forms@.len(),
                |i: int| compact_lin(rows, num_vars as int, lin(forms@[i]@)),
            ),
        ),
{
    let ghost ls = Seq::new(
        forms@.len(),
        |i: int| compact_lin(rows, num_vars as int, lin(forms@[i]@)),
    );
    let mut matrix: R1CSMatrix = Vec::new();
    let n: usize = forms.len();
    let mut i: usize = 0;
    assert(ls.take(0) =~= Seq::empty());
    assert(entries(matrix@) =~= Seq::empty());
    while i < n
        invariant
            n == forms@.len(),
            i <= n,
            ls == Seq::new(
                forms@.len(),
                |i: int| compact_lin(rows, num_vars as int, lin(forms@[i]@)),
            ),
            ranks@.len() == num_vars + 1,
            forall|j: int| 0 <= j <= num_vars ==> #[trigger] ranks@[j] == live_rank(rows, j),
            num_vars < z_len <= usize::MAX,
            forall|j: int| 0 <= j < n ==> lin_below(lin((#[trigger] forms@[j])@), z_len),
            entries(matrix@) == flatten(ls.take(i as int)),
        decreases n - i,
    {
        append_form(&mut matrix, i, &forms[i], ranks, num_vars, Ghost(rows), Ghost(z_len));
        proof {
            assert(ls.take(i + 1) =~= ls.take(i as int).push(ls[i as int]));
            lemma_flatten_push(ls.take(i as int), ls[i as int]);
        }
        i += 1;
    }
    assert(ls.take(n as int) =~= ls);
    matrix
}

/// Eliminates the variables that constraints of one kind define.
fn eliminate(kind: Kind, instance: &SpartanInstance) -> (r: SpartanInstance)
    requires
        eliminable(kind, instance@),
    ensures
        r@ == eliminated(kind, instance@),
{
    let ghost sys = instance@;
    let num_vars: usize = instance.num_vars;
    let a_rows = raw_rows(&instance.A, instance.num_cons);
    let b_rows = raw_rows(&instance.B, instance.num_cons);
    let c_rows = raw_rows(&instance.C, instance.num_cons);
    assert forall|i: int| 0 <= i < sys.num_cons implies (#[trigger] sys.row(i)) == (Row {
        a: raw_lin(a_rows@[i]@),
        b: raw_lin(b_rows@[i]@),
        c: raw_lin(c_rows@[i]@),
    }) by {
        assert(raw_lin(a_rows@[i]@) == row_of(sys.a, i));
        assert(raw_lin(b_rows@[i]@) == row_of(sys.b, i));
        assert(raw_lin(c_rows@[i]@) == row_of(sys.c, i));
    }
    let (mut subs, all, any) = find_definitions(
        kind,
        &a_rows,
        &b_rows,
        &c_rows,
        num_vars,
        Ghost(sys),
    );
    if !any {
        return instance.clone();
    }
    let ghost sub = full_substitution(kind, sys);
    proof {
        lemma_substitution_acyclic(kind, sys, sys.num_cons);
    }
    resolve_chains(&mut subs);
    let ghost kept = survivors(kind, sys, sys.num_cons);
    let mut new_a: Vec<SparseRow> = Vec::new();
    let mut new_b: Vec<SparseRow> = Vec::new();
    let mut new_c: Vec<SparseRow> = Vec::new();
    let n: usize = instance.num_cons;
    let mut i: usize = 0;
    while i < n
        invariant
            n == sys.num_cons,
            i <= n,
            n == a_rows@.len(),
            n == b_rows@.len(),
            n == c_rows@.len(),
            n == all@.len(),
            num_vars == sys.num_vars,
            sub == full_substitution(kind, sys),
            forall|j: int|
                0 <= j < n ==> (#[trigger] sys.row(j)) == (Row {
                    a: raw_lin(a_rows@[j]@),
                    b: raw_lin(b_rows@[j]@),
                    c: raw_lin(c_rows@[j]@),
                }),
            forall|j: int|
                0 <= j < n ==> found_view(#[trigger] all@[j]) == definition(
                    kind,
                    sys.row(j),
                    num_vars as int,
                ),
            forall|j: int|
                0 <= j < n && !removed(kind, sys, j) ==> row_canonical(#[trigger] sys.row(j)),
            resolved(sub, table(subs@)),
            new_a@.len() == survivors(kind, sys, i as nat).len(),
            new_b@.len() == new_a@.len(),
            new_c@.len() == new_a@.len(),
            new_a@.len() <= i,
            forall|j: int|
                0 <= j < new_a@.len() ==> (#[trigger] rows_at(new_a@, new_b@, new_c@)[j])
                    == rewrite_row(sub, sys.row(survivors(kind, sys, i as nat)[j])),
        decreases n - i,
    {
        let gone = match &all[i] {
            Some((key, by)) => is_implied(&subs, *key, by, Ghost(sub)),
            None => false,
        };
        assert(gone == removed(kind, sys, i as int));
        if !gone {
            let ghost before = rows_at(new_a@, new_b@, new_c@);
            assert(row_canonical(sys.row(i as int)));
            let form_a = rewrite_form(&a_rows[i], &subs, Ghost(sub));
            let form_b = rewrite_form(&b_rows[i], &subs, Ghost(sub));
            let form_c = rewrite_form(&c_rows[i], &subs, Ghost(sub));
            new_a.push(form_a);
            new_b.push(form_b);
            new_c.push(form_c);
            proof {
                let now = rows_at(new_a@, new_b@, new_c@);
                assert(now =~= before.push(rewrite_row(sub, sys.row(i as int))));
            }
        }
        i += 1;
    }
    let ghost rows = rewritten(kind, sys);
    proof {
        assert(rows_at(new_a@, new_b@, new_c@) =~= rows);
        assert forall|j: int| 0 <= j < rows.len() implies {
            &&& lin_below(lin((#[trigger] new_a@[j])@), sys.z_len() as int)
            &&& lin_below(lin(new_b@[j]@), sys.z_len() as int)
            &&& lin_below(lin(new_c@[j]@), sys.z_len() as int)
        } by {
            assert(rows[j].below(sys.z_len() as int));
        }
        assert forall|j: int| 0 <= j < rows.len() implies lin_below(
            lin((#[trigger] new_b@[j])@),
            sys.z_len() as int,
        ) by {
            assert(rows[j].below(sys.z_len() as int));
        }
        assert forall|j: int| 0 <= j < rows.len() implies lin_below(
            lin((#[trigger] new_c@[j])@),
            sys.z_len() as int,
        ) by {
            assert(rows[j].below(sys.z_len() as int));
        }
    }
    let ranks = rank_live(&new_a, &new_b, &new_c, num_vars);
    let ghost z_len = sys.z_len() as int;
    let a = compact_matrix(&new_a, &ranks, num_vars, Ghost(rows), Ghost(z_len));
    let b = compact_matrix(&new_b, &ranks, num_vars, Ghost(rows), Ghost(z_len));
    let c = compact_matrix(&new_c, &ranks, num_vars, Ghost(rows), Ghost(z_len));
    proof {
        let nv = num_vars as int;
        assert(Seq::new(rows.len(), |i: int| compact_lin(rows, nv, rows[i].a)) =~= Seq::new(
            new_a@.len(),
            |i: int| compact_lin(rows, nv, lin(new_a@[i]@)),
        ));
        assert(Seq::new(rows.len(), |i: int| compact_lin(rows, nv, rows[i].b)) =~= Seq::new(
            new_b@.len(),
            |i: int| compact_lin(rows, nv, lin(new_b@[i]@)),
        ));
        assert(Seq::new(rows.len(), |i: int| compact_lin(rows, nv, rows[i].c)) =~= Seq::new(
            new_c@.len(),
            |i: int| compact_lin(rows, nv, lin(new_c@[i]@)),
        ));
    }
    SpartanInstance {
        num_cons: new_a.len(),
        num_vars: ranks[num_vars],
        num_inputs: instance.num_inputs,
        num_outputs: instance.num_outputs,
        A: a,
        B: b,
        C: c,
    }
}

/// Checks that variables can be eliminated from an instance: its entries are in range and
/// canonical.
pub fn check_eliminable(instance: &SpartanInstance) -> (r: bool)
    ensures
        r <==> instance@.entries_valid() && instance@.z_len() <= usize::MAX,
        r ==> eliminable(Kind::Alias, instance@),
        r ==> eliminable(Kind::Scale, instance@),
        r ==> eliminable(Kind::Scale, eliminated(Kind::Alias, instance@)),
{
    let z_len: usize = match instance.num_vars.checked_add(1) {
        None => return false,
        Some(x) => match x.checked_add(instance.num_inputs) {
            None => return false,
            Some(y) => y,
        },
    };
    let r = entries_in_range(&instance.A, instance.num_cons, z_len) && entries_in_range(
        &instance.B,
        instance.num_cons,
        z_len,
    ) && entries_in_range(&instance.C, instance.num_cons, z_len);
    proof {
        if r {
            law_eliminable(Kind::Alias, instance@);
            law_eliminable(Kind::Scale, instance@);
            law_eliminable(Kind::Scale, eliminated(Kind::Alias, instance@));
        }
    }
    r
}

/// Removes alias constraints `out * 1 == src`, where `out` is private, by substituting `src`
/// for `out`.
///
/// The alias rows go, every other row keeps its place in the order, and the private
/// variables that are left close up. Without alias rows the result is a copy. A second alias
/// of the same `out` goes too where it says nothing new. Otherwise it stays, with the
/// substitution made in it.
pub fn remove_aliases(instance: &SpartanInstance) -> (r: SpartanInstance)
    requires
        eliminable(Kind::Alias, instance@),
    ensures
        r@ == eliminated(Kind::Alias, instance@),
{
    eliminate(Kind::Alias, instance)
}

/// Removes scale constraints `(k * src) * 1 == out` by substituting `k * src` for `out`.
///
/// The scale rows go, every other row keeps its place in the order, and the private
/// variables that are left close up. Without scale rows the result is a copy. A second scale
/// of the same `out` goes too where it says nothing new. Otherwise it stays.
pub fn remove_scales(instance: &SpartanInstance) -> (r: SpartanInstance)
    requires
        eliminable(Kind::Scale, instance@),
    ensures
        r@ == eliminated(Kind::Scale, instance@),
{
    eliminate(Kind::Scale, instance)
}

/// Removes aliases, and then scales from what is left.
pub fn remove_aliases_and_scales(instance: &SpartanInstance) -> (r: SpartanInstance)
    requires
        eliminable(Kind::Alias, instance@),
        eliminable(Kind::Scale, eliminated(Kind::Alias, instance@)),
    ensures
        r@ == eliminated(Kind::Scale, eliminated(Kind::Alias, instance@)),
{
    let without_aliases = remove_aliases(instance);
    remove_scales(&without_aliases)
}

} // verus!
