//! Eliminating variables that are multiples of other columns: the model.
use crate::dag::flatten;
use crate::field::{cong, ell, is_unit};
use crate::system::{Lin, Row, System};
use vstd::prelude::*;

verus! {

/// The constraints that are eliminated.
#[derive(Clone, Copy, Debug)]
pub enum Kind {
    /// `x * 1 == y`, where `x` is a private variable.
    Alias,
    /// `(k * x) * 1 == y`, where `y` is a private variable and `k` is not one.
    Scale,
}

/// For each private variable, the column and the factor that replace it, if any.
pub type Substitution = Seq<Option<(int, int)>>;

/// Whether each side of a constraint is a single term, with the constant one as the
/// second factor and as the coefficient of the result.
pub open spec fn unary(row: Row, num_vars: int) -> bool {
    &&& row.a.len() == 1
    &&& row.b.len() == 1
    &&& row.c.len() == 1
    &&& row.b[0] == (num_vars, 1int)
    &&& row.c[0].1 == 1
}

/// Whether a constraint has the form of a scaling, whatever its factor.
pub open spec fn scale_shape(row: Row, num_vars: int) -> bool {
    &&& unary(row, num_vars)
    &&& 0 <= row.c[0].0 < num_vars
    &&& row.a[0].1 != 1
    &&& row.a[0].0 != row.c[0].0
}

/// The variable that a constraint lets one eliminate, with the column and the factor
/// that replace it.
pub open spec fn definition(kind: Kind, row: Row, num_vars: int) -> Option<(int, (int, int))> {
    match kind {
        Kind::Alias => if unary(row, num_vars) && row.a[0].1 == 1 && 0 <= row.a[0].0 < num_vars {
            Some((row.a[0].0, (row.c[0].0, 1)))
        } else {
            None
        },
        // A factor that has an inverse, which is to say a nonzero one.
        Kind::Scale => if scale_shape(row, num_vars) && is_unit(row.a[0].1) {
            Some((row.c[0].0, (row.a[0].0, row.a[0].1)))
        } else {
            None
        },
    }
}

/// What a row adds to a substitution. A variable that is substituted already keeps its
/// replacement, and a variable is never replaced by what leads back to it: a row that asks
/// for either adds nothing.
#[verifier::opaque]
pub open spec fn addition(kind: Kind, sub: Substitution, row: Row, num_vars: int) -> Option<
    (int, (int, int)),
> {
    match definition(kind, row, num_vars) {
        Some((key, by)) => if is_key(sub, key) || resolve(sub, by.0).0 == key {
            None
        } else {
            Some((key, by))
        },
        None => None,
    }
}

/// The substitution that the first `n` rows give.
pub open spec fn substitution(kind: Kind, sys: System, n: nat) -> Substitution
    decreases n,
{
    if n == 0 {
        Seq::new(sys.num_vars, |i: int| None)
    } else {
        let sub = substitution(kind, sys, (n - 1) as nat);
        match addition(kind, sub, sys.row(n - 1), sys.num_vars as int) {
            Some((key, by)) => sub.update(key, Some(by)),
            None => sub,
        }
    }
}

pub open spec fn is_key(sub: Substitution, c: int) -> bool {
    0 <= c < sub.len() && sub[c] is Some
}

/// Follows a substitution for up to `n` steps: the column that is reached, and the
/// product of the factors on the way.
pub open spec fn chain(sub: Substitution, c: int, n: nat) -> (int, int)
    decreases n,
{
    if n == 0 || !is_key(sub, c) {
        (c, 1)
    } else {
        let by = sub[c]->0;
        let rest = chain(sub, by.0, (n - 1) as nat);
        (rest.0, by.1 * rest.1)
    }
}

/// Whether a chain has left the substituted variables after `n` steps.
pub open spec fn ends(sub: Substitution, c: int, n: nat) -> bool {
    !is_key(sub, chain(sub, c, n).0)
}

/// Whether a chain ever ends.
pub open spec fn terminates(sub: Substitution, c: int) -> bool {
    exists|n: nat| ends(sub, c, n)
}

/// Whether no variable is substituted by way of itself.
pub open spec fn acyclic(sub: Substitution) -> bool {
    forall|c: int| is_key(sub, c) ==> #[trigger] terminates(sub, c)
}

/// Where the chain of a column ends, and the product of the factors on the way.
pub open spec fn resolve(sub: Substitution, c: int) -> (int, int) {
    chain(sub, c, choose|n: nat| ends(sub, c, n))
}

/// A linear form with all substitutions made.
pub open spec fn replace(sub: Substitution, l: Lin) -> Lin {
    Seq::new(
        l.len(),
        |i: int| (resolve(sub, l[i].0).0, (l[i].1 * resolve(sub, l[i].0).1) % ell()),
    )
}

/// The position of a column in a form that holds each column at most once.
pub open spec fn position(m: Lin, c: int) -> Option<int> {
    if exists|i: int| 0 <= i < m.len() && (#[trigger] m[i]).0 == c {
        Some(choose|i: int| 0 <= i < m.len() && (#[trigger] m[i]).0 == c)
    } else {
        None
    }
}

/// Adds a term to a form that holds each column at most once.
pub open spec fn add_term(m: Lin, term: (int, int)) -> Lin {
    match position(m, term.0) {
        Some(i) => m.update(i, (term.0, (m[i].1 + term.1) % ell())),
        None => m.push(term),
    }
}

/// A form with like terms collected, in the order in which the columns first occur.
pub open spec fn merge(l: Lin) -> Lin
    decreases l.len(),
{
    if l.len() == 0 {
        Seq::empty()
    } else {
        add_term(merge(l.drop_last()), l.last())
    }
}

/// A form without its zero terms.
pub open spec fn drop_zeros(l: Lin) -> Lin
    decreases l.len(),
{
    if l.len() == 0 {
        Seq::empty()
    } else if l.last().1 != 0 {
        drop_zeros(l.drop_last()).push(l.last())
    } else {
        drop_zeros(l.drop_last())
    }
}

pub open spec fn rewrite(sub: Substitution, l: Lin) -> Lin {
    drop_zeros(merge(replace(sub, l)))
}

pub open spec fn rewrite_row(sub: Substitution, row: Row) -> Row {
    Row { a: rewrite(sub, row.a), b: rewrite(sub, row.b), c: rewrite(sub, row.c) }
}

/// The whole substitution.
pub open spec fn full_substitution(kind: Kind, sys: System) -> Substitution {
    substitution(kind, sys, sys.num_cons)
}

/// Whether a row adds to the substitution.
pub open spec fn adds(kind: Kind, sys: System, r: int) -> bool {
    addition(kind, substitution(kind, sys, r as nat), sys.row(r), sys.num_vars as int) is Some
}

/// Whether a substitution says that a variable equals a multiple of a column: both lead to
/// the same column, with the same factor.
pub open spec fn implied(sub: Substitution, key: int, by: (int, int)) -> bool {
    &&& resolve(sub, key).0 == resolve(sub, by.0).0
    &&& cong(resolve(sub, key).1, by.1 * resolve(sub, by.0).1)
}

/// Whether a row is eliminated: it is a definition, and what it says is in the substitution.
pub open spec fn removed(kind: Kind, sys: System, r: int) -> bool {
    match definition(kind, sys.row(r), sys.num_vars as int) {
        Some((key, by)) => implied(full_substitution(kind, sys), key, by),
        None => false,
    }
}

/// The rows that are kept of the first `n`.
pub open spec fn survivors(kind: Kind, sys: System, n: nat) -> Seq<int>
    decreases n,
{
    if n == 0 {
        Seq::empty()
    } else if removed(kind, sys, n - 1) {
        survivors(kind, sys, (n - 1) as nat)
    } else {
        survivors(kind, sys, (n - 1) as nat).push(n - 1)
    }
}

/// The kept rows with all substitutions made.
pub open spec fn rewritten(kind: Kind, sys: System) -> Seq<Row> {
    let kept = survivors(kind, sys, sys.num_cons);
    Seq::new(
        kept.len(),
        |i: int| rewrite_row(full_substitution(kind, sys), sys.row(kept[i])),
    )
}

/// Whether a column occurs in any of the rows.
pub open spec fn live(rows: Seq<Row>, c: int) -> bool {
    exists|i: int| 0 <= i < rows.len() && (#[trigger] rows[i]).mentions(c)
}

/// How many live columns lie below `n`.
pub open spec fn live_rank(rows: Seq<Row>, n: int) -> nat
    decreases n,
{
    if n <= 0 {
        0
    } else {
        live_rank(rows, n - 1) + (if live(rows, n - 1) {
            1nat
        } else {
            0nat
        })
    }
}

/// The column that column `c` becomes: live variables close up, the constant and the
/// public values follow them.
pub open spec fn compact(rows: Seq<Row>, num_vars: int, c: int) -> int {
    if c < num_vars {
        live_rank(rows, c) as int
    } else {
        c - num_vars + live_rank(rows, num_vars)
    }
}

pub open spec fn compact_lin(rows: Seq<Row>, num_vars: int, l: Lin) -> Lin {
    Seq::new(l.len(), |i: int| (compact(rows, num_vars, l[i].0), l[i].1))
}

pub open spec fn compact_row(rows: Seq<Row>, num_vars: int, row: Row) -> Row {
    Row {
        a: compact_lin(rows, num_vars, row.a),
        b: compact_lin(rows, num_vars, row.b),
        c: compact_lin(rows, num_vars, row.c),
    }
}

/// Whether there is anything to eliminate.
pub open spec fn has_definitions(kind: Kind, sys: System) -> bool {
    exists|r: int| 0 <= r < sys.num_cons && #[trigger] adds(kind, sys, r)
}

/// The system with the definitions eliminated: their rows are gone, and everywhere else
/// the defined variables are replaced. Without definitions it is the same system.
pub open spec fn eliminated(kind: Kind, sys: System) -> System {
    if !has_definitions(kind, sys) {
        sys
    } else {
        let rows = rewritten(kind, sys);
        let nv = sys.num_vars as int;
        System {
            num_cons: rows.len(),
            num_vars: live_rank(rows, nv),
            num_inputs: sys.num_inputs,
            num_outputs: sys.num_outputs,
            a: flatten(Seq::new(rows.len(), |i: int| compact_lin(rows, nv, rows[i].a))),
            b: flatten(Seq::new(rows.len(), |i: int| compact_lin(rows, nv, rows[i].b))),
            c: flatten(Seq::new(rows.len(), |i: int| compact_lin(rows, nv, rows[i].c))),
        }
    }
}

/// Whether the entries of a matrix name existing rows.
pub open spec fn rows_in_range(m: Seq<(int, int, int)>, rows: nat) -> bool {
    forall|i: int| 0 <= i < m.len() ==> 0 <= (#[trigger] m[i]).0 < rows
}

/// Whether the coefficients of a linear form are canonical.
pub open spec fn lin_canonical(l: Lin) -> bool {
    forall|i: int| 0 <= i < l.len() ==> 0 <= (#[trigger] l[i]).1 < ell()
}

pub open spec fn row_canonical(row: Row) -> bool {
    lin_canonical(row.a) && lin_canonical(row.b) && lin_canonical(row.c)
}

/// What elimination asks of a system: existing rows, canonical coefficients where they are
/// read, and columns in range where they are kept.
pub open spec fn eliminable(kind: Kind, sys: System) -> bool {
    &&& rows_in_range(sys.a, sys.num_cons)
    &&& rows_in_range(sys.b, sys.num_cons)
    &&& rows_in_range(sys.c, sys.num_cons)
    &&& kind is Scale ==> forall|r: int|
        0 <= r < sys.num_cons && scale_shape(#[trigger] sys.row(r), sys.num_vars as int)
            ==> lin_canonical(sys.row(r).a)
    &&& has_definitions(kind, sys) ==> {
        &&& sys.z_len() <= usize::MAX
        &&& forall|r: int|
            0 <= r < sys.num_cons && !removed(kind, sys, r) ==> row_canonical(
                #[trigger] sys.row(r),
            )
        &&& forall|i: int|
            0 <= i < rewritten(kind, sys).len() ==> (#[trigger] rewritten(kind, sys)[i]).below(
                sys.z_len() as int,
            )
    }
}

// Chains.

/// A chain that has ended stays where it is.
pub proof fn lemma_chain_stable(sub: Substitution, c: int, n: nat, m: nat)
    requires
        ends(sub, c, n),
        n <= m,
    ensures
        chain(sub, c, m) == chain(sub, c, n),
        ends(sub, c, m),
    decreases n,
{
    if n == 0 || !is_key(sub, c) {
    } else {
        let by = sub[c]->0;
        lemma_chain_stable(sub, by.0, (n - 1) as nat, (m - 1) as nat);
    }
}

/// Any bound at which a chain has ended gives its resolution.
pub proof fn lemma_resolve_at(sub: Substitution, c: int, n: nat)
    requires
        ends(sub, c, n),
    ensures
        resolve(sub, c) == chain(sub, c, n),
        !is_key(sub, resolve(sub, c).0),
{
    let m = choose|n: nat| ends(sub, c, n);
    if n <= m {
        lemma_chain_stable(sub, c, n, m);
    } else {
        lemma_chain_stable(sub, c, m, n);
    }
}

/// A column that is not substituted stands for itself.
pub proof fn lemma_resolve_base(sub: Substitution, c: int)
    requires
        !is_key(sub, c),
    ensures
        resolve(sub, c) == (c, 1int),
{
    assert(ends(sub, c, 0));
    lemma_resolve_at(sub, c, 0);
}

/// A substituted column resolves through the one that replaces it.
pub proof fn lemma_resolve_step(sub: Substitution, c: int)
    requires
        acyclic(sub),
        is_key(sub, c),
    ensures
        ({
            let by = sub[c]->0;
            resolve(sub, c) == (resolve(sub, by.0).0, by.1 * resolve(sub, by.0).1)
        }),
        !is_key(sub, resolve(sub, c).0),
{
    assert(terminates(sub, c));
    let n = choose|n: nat| ends(sub, c, n);
    let by = sub[c]->0;
    assert(n > 0);
    assert(ends(sub, by.0, (n - 1) as nat));
    lemma_resolve_at(sub, by.0, (n - 1) as nat);
}

pub proof fn lemma_resolved(sub: Substitution, c: int)
    requires
        acyclic(sub),
    ensures
        !is_key(sub, resolve(sub, c).0),
{
    if is_key(sub, c) {
        lemma_resolve_step(sub, c);
    } else {
        lemma_resolve_base(sub, c);
    }
}

/// The number of steps until a chain ends.
#[verifier::opaque]
pub open spec fn height(sub: Substitution, c: int) -> nat {
    choose|n: nat| ends(sub, c, n) && forall|m: nat| m < n ==> !ends(sub, c, m)
}

proof fn lemma_least_end(sub: Substitution, c: int, n: nat) -> (k: nat)
    requires
        ends(sub, c, n),
    ensures
        ends(sub, c, k),
        forall|m: nat| m < k ==> !ends(sub, c, m),
    decreases n,
{
    if exists|m: nat| m < n && ends(sub, c, m) {
        let m = choose|m: nat| m < n && ends(sub, c, m);
        lemma_least_end(sub, c, m)
    } else {
        n
    }
}

pub proof fn lemma_height(sub: Substitution, c: int)
    requires
        terminates(sub, c),
    ensures
        ends(sub, c, height(sub, c)),
        forall|m: nat| m < height(sub, c) ==> !ends(sub, c, m),
{
    reveal(height);
    let n = choose|n: nat| ends(sub, c, n);
    let k = lemma_least_end(sub, c, n);
}

/// Each step of a chain brings its end closer.
pub proof fn lemma_height_step(sub: Substitution, c: int)
    requires
        acyclic(sub),
        is_key(sub, c),
    ensures
        terminates(sub, (sub[c]->0).0),
        height(sub, (sub[c]->0).0) < height(sub, c),
{
    let t = (sub[c]->0).0;
    assert(terminates(sub, c));
    lemma_height(sub, c);
    let n = height(sub, c);
    assert(!ends(sub, c, 0));
    assert(n > 0);
    assert(ends(sub, t, (n - 1) as nat));
    lemma_height(sub, t);
    if height(sub, t) > n - 1 {
        assert(!ends(sub, t, (n - 1) as nat));
    }
}

// The substitution that a system gives.

pub proof fn lemma_substitution_len(kind: Kind, sys: System, n: nat)
    ensures
        substitution(kind, sys, n).len() == sys.num_vars,
    decreases n,
{
    if n > 0 {
        reveal(addition);
        lemma_substitution_len(kind, sys, (n - 1) as nat);
    }
}

/// A chain that does not end in `key` stays the same when `key` is substituted.
proof fn lemma_chain_extend(sub: Substitution, key: int, by: (int, int), c: int, n: nat)
    requires
        0 <= key < sub.len(),
        !is_key(sub, key),
        ends(sub, c, n),
        chain(sub, c, n).0 != key,
    ensures
        ends(sub.update(key, Some(by)), c, n),
    decreases n,
{
    if n > 0 && is_key(sub, c) {
        assert(c != key);
        lemma_chain_extend(sub, key, by, (sub[c]->0).0, (n - 1) as nat);
    }
}

/// A chain that ends still does when `key` is substituted by what does not lead to it.
proof fn lemma_terminates_extend(sub: Substitution, key: int, by: (int, int), c: int, n: nat)
    requires
        acyclic(sub),
        0 <= key < sub.len(),
        !is_key(sub, key),
        resolve(sub, by.0).0 != key,
        ends(sub, c, n),
    ensures
        terminates(sub.update(key, Some(by)), c),
    decreases n,
{
    let next = sub.update(key, Some(by));
    if n > 0 && is_key(sub, c) {
        let t = (sub[c]->0).0;
        lemma_terminates_extend(sub, key, by, t, (n - 1) as nat);
        let m = choose|m: nat| ends(next, t, m);
        assert(next[c] == sub[c]);
        assert(ends(next, c, (m + 1) as nat));
    } else if c == key {
        if is_key(sub, by.0) {
            assert(terminates(sub, by.0));
        } else {
            assert(ends(sub, by.0, 0));
        }
        let m = choose|m: nat| ends(sub, by.0, m);
        lemma_chain_extend(sub, key, by, by.0, m);
        assert(ends(next, key, (m + 1) as nat));
    } else {
        assert(ends(next, c, 0));
    }
}

/// No variable is substituted by way of itself.
pub proof fn lemma_substitution_acyclic(kind: Kind, sys: System, n: nat)
    ensures
        acyclic(substitution(kind, sys, n)),
    decreases n,
{
    if n > 0 {
        let sub = substitution(kind, sys, (n - 1) as nat);
        lemma_substitution_acyclic(kind, sys, (n - 1) as nat);
        lemma_substitution_len(kind, sys, (n - 1) as nat);
        reveal(addition);
        if let Some((key, by)) = addition(kind, sub, sys.row(n - 1), sys.num_vars as int) {
            let next = sub.update(key, Some(by));
            assert forall|c: int| is_key(next, c) implies #[trigger] terminates(next, c) by {
                if is_key(sub, c) {
                    assert(terminates(sub, c));
                } else {
                    assert(ends(sub, c, 0));
                }
                let m = choose|m: nat| ends(sub, c, m);
                lemma_terminates_extend(sub, key, by, c, m);
            }
        }
    }
}

/// A replacement stays as it is once it is made.
proof fn lemma_substitution_keeps(kind: Kind, sys: System, n: nat, m: nat, c: int)
    requires
        n <= m,
        is_key(substitution(kind, sys, n), c),
    ensures
        is_key(substitution(kind, sys, m), c),
        substitution(kind, sys, m)[c] == substitution(kind, sys, n)[c],
    decreases m - n,
{
    if n < m {
        lemma_substitution_keeps(kind, sys, n, (m - 1) as nat, c);
        lemma_substitution_len(kind, sys, (m - 1) as nat);
        reveal(addition);
    }
}

/// What a row adds stays in the substitution, so the row is eliminated.
pub proof fn lemma_added_row(kind: Kind, sys: System, r: int)
    requires
        0 <= r < sys.num_cons,
        adds(kind, sys, r),
    ensures
        removed(kind, sys, r),
        ({
            let sub = full_substitution(kind, sys);
            let (key, by) = definition(kind, sys.row(r), sys.num_vars as int)->0;
            &&& definition(kind, sys.row(r), sys.num_vars as int) is Some
            &&& 0 <= key < sys.num_vars
            &&& is_key(sub, key)
            &&& sub[key] == Some(by)
        }),
{
    let sub = full_substitution(kind, sys);
    let before = substitution(kind, sys, r as nat);
    let (key, by) = definition(kind, sys.row(r), sys.num_vars as int)->0;
    reveal(addition);
    lemma_substitution_len(kind, sys, r as nat);
    assert(substitution(kind, sys, (r + 1) as nat) == before.update(key, Some(by)));
    lemma_substitution_keeps(kind, sys, (r + 1) as nat, sys.num_cons, key);
    lemma_substitution_acyclic(kind, sys, sys.num_cons);
    lemma_resolve_step(sub, key);
}

} // verus!
