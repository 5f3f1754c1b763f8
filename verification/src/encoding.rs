//! The byte encoding of circuits, by bincode.
use crate::r1cs::{entries, R1CSMatrix};
use vstd::prelude::*;

verus! {

/// The low `n` bytes of an integer, least significant first.
pub open spec fn le_bytes(x: int, n: nat) -> Seq<u8>
    decreases n,
{
    if n == 0 {
        Seq::empty()
    } else {
        seq![(x % 256) as u8] + le_bytes(x / 256, (n - 1) as nat)
    }
}

/// Integers one after the other, eight bytes each.
pub open spec fn words(xs: Seq<int>) -> Seq<u8>
    decreases xs.len(),
{
    if xs.len() == 0 {
        Seq::empty()
    } else {
        words(xs.drop_last()) + le_bytes(xs.last(), 8)
    }
}

/// A matrix entry: row, column and the bytes of the coefficient.
pub open spec fn entry_bytes(e: (usize, usize, [u8; 32])) -> Seq<u8> {
    le_bytes(e.0 as int, 8) + le_bytes(e.1 as int, 8) + e.2@
}

/// Matrix entries one after the other.
pub open spec fn entries_bytes(m: Seq<(usize, usize, [u8; 32])>) -> Seq<u8>
    decreases m.len(),
{
    if m.len() == 0 {
        Seq::empty()
    } else {
        entries_bytes(m.drop_last()) + entry_bytes(m.last())
    }
}

/// A matrix: the number of its entries, and the entries.
pub open spec fn matrix_bytes(m: Seq<(usize, usize, [u8; 32])>) -> Seq<u8> {
    le_bytes(m.len() as int, 8) + entries_bytes(m)
}

/// A circuit: its dimensions, then its matrices.
pub open spec fn circuit_bytes(
    dims: Seq<int>,
    a: Seq<(usize, usize, [u8; 32])>,
    b: Seq<(usize, usize, [u8; 32])>,
    c: Seq<(usize, usize, [u8; 32])>,
) -> Seq<u8> {
    words(dims) + matrix_bytes(a) + matrix_bytes(b) + matrix_bytes(c)
}

/// `bincode::serialize` of three dimensions and three matrices. It has no size limit and
/// the lengths are known, so it succeeds. Integers take eight bytes, least
/// significant first; a vector is its length and its items; a tuple or an array is its
/// items alone.
#[verifier::external_body]
pub(crate) fn bincode_circuit(
    num_cons: usize,
    num_vars: usize,
    num_inputs: usize,
    a: &R1CSMatrix,
    b: &R1CSMatrix,
    c: &R1CSMatrix,
) -> (r: Option<Vec<u8>>)
    ensures
        r is Some,
        r->0@ == circuit_bytes(
            seq![num_cons as int, num_vars as int, num_inputs as int],
            a@,
            b@,
            c@,
        ),
{
    bincode::serialize(&(num_cons, num_vars, num_inputs, a, b, c)).ok()
}

/// `bincode::serialize` of four dimensions and three matrices, in the format of
/// `bincode_circuit`.
#[verifier::external_body]
pub(crate) fn bincode_instance(
    num_cons: usize,
    num_vars: usize,
    num_inputs: usize,
    num_outputs: usize,
    a: &R1CSMatrix,
    b: &R1CSMatrix,
    c: &R1CSMatrix,
) -> (r: Option<Vec<u8>>)
    ensures
        r is Some,
        r->0@ == circuit_bytes(
            seq![num_cons as int, num_vars as int, num_inputs as int, num_outputs as int],
            a@,
            b@,
            c@,
        ),
{
    bincode::serialize(&(num_cons, num_vars, num_inputs, num_outputs, a, b, c)).ok()
}

/// The bytes of an integer, least significant first.
pub fn u64_bytes(x: u64) -> (r: Vec<u8>)
    ensures
        r@ == le_bytes(x as int, 8),
{
    let mut r: Vec<u8> = Vec::new();
    let mut rest: u64 = x;
    let mut i: usize = 0;
    while i < 8
        invariant
            i <= 8,
            r@.len() == i,
            r@ + le_bytes(rest as int, (8 - i) as nat) == le_bytes(x as int, 8),
        decreases 8 - i,
    {
        let ghost before = r@;
        let ghost left = rest as int;
        r.push((rest % 256) as u8);
        rest = rest / 256;
        proof {
            let tail = le_bytes(left / 256, (8 - i - 1) as nat);
            assert(le_bytes(left, (8 - i) as nat) == seq![(left % 256) as u8] + tail);
            assert(before + (seq![(left % 256) as u8] + tail) =~= before.push(
                (left % 256) as u8,
            ) + tail);
        }
        i += 1;
    }
    assert(r@ + le_bytes(rest as int, 0) =~= r@);
    r
}

/// Appends bytes.
pub fn push_bytes(to: &mut Vec<u8>, bytes: &[u8])
    ensures
        final(to)@ == old(to)@ + bytes@,
{
    let n: usize = bytes.len();
    let mut i: usize = 0;
    assert(old(to)@ + bytes@.take(0) =~= old(to)@);
    while i < n
        invariant
            n == bytes@.len(),
            i <= n,
            to@ == old(to)@ + bytes@.take(i as int),
        decreases n - i,
    {
        to.push(bytes[i]);
        assert(to@ =~= old(to)@ + bytes@.take(i + 1));
        i += 1;
    }
    assert(bytes@.take(n as int) =~= bytes@);
}

// The encoding can be read back.

pub proof fn lemma_le_bytes_len(x: int, n: nat)
    ensures
        le_bytes(x, n).len() == n,
    decreases n,
{
    if n > 0 {
        lemma_le_bytes_len(x / 256, (n - 1) as nat);
    }
}

proof fn lemma_le_bytes_injective(x: int, y: int, n: nat)
    requires
        0 <= x,
        0 <= y,
        le_bytes(x, n) == le_bytes(y, n),
    ensures
        x % vstd::arithmetic::power::pow(256, n) == y % vstd::arithmetic::power::pow(256, n),
    decreases n,
{
    reveal(vstd::arithmetic::power::pow);
    if n > 0 {
        let m = (n - 1) as nat;
        let (bx, by) = (le_bytes(x, n), le_bytes(y, n));
        let (tx, ty) = (le_bytes(x / 256, m), le_bytes(y / 256, m));
        assert(bx[0] == (x % 256) as u8);
        assert(by[0] == (y % 256) as u8);
        assert(bx.skip(1) =~= tx);
        assert(by.skip(1) =~= ty);
        lemma_le_bytes_injective(x / 256, y / 256, m);
        let p = vstd::arithmetic::power::pow(256, m);
        vstd::arithmetic::power::lemma_pow_positive(256, m);
        assert(vstd::arithmetic::power::pow(256, n) == 256 * p);
        vstd::arithmetic::div_mod::lemma_mod_breakdown(x, 256, p);
        vstd::arithmetic::div_mod::lemma_mod_breakdown(y, 256, p);
    } else {
        assert(x % 1 == 0 && y % 1 == 0);
    }
}

/// A word at the front of two equal byte strings is the same word.
proof fn lemma_word_front(x: int, y: int, s: Seq<u8>, t: Seq<u8>)
    requires
        0 <= x <= u64::MAX,
        0 <= y <= u64::MAX,
        le_bytes(x, 8) + s == le_bytes(y, 8) + t,
    ensures
        x == y,
        s == t,
{
    lemma_le_bytes_len(x, 8);
    lemma_le_bytes_len(y, 8);
    lemma_front(le_bytes(x, 8), le_bytes(y, 8), s, t);
    lemma_le_bytes_injective(x, y, 8);
    assert(vstd::arithmetic::power::pow(256, 8) == 0x1_0000_0000_0000_0000int) by {
        reveal(vstd::arithmetic::power::pow);
        reveal_with_fuel(vstd::arithmetic::power::pow, 9);
    }
    vstd::arithmetic::div_mod::lemma_small_mod(x as nat, 0x1_0000_0000_0000_0000nat);
    vstd::arithmetic::div_mod::lemma_small_mod(y as nat, 0x1_0000_0000_0000_0000nat);
}

proof fn lemma_front(a: Seq<u8>, b: Seq<u8>, s: Seq<u8>, t: Seq<u8>)
    requires
        a.len() == b.len(),
        a + s == b + t,
    ensures
        a == b,
        s == t,
{
    assert((a + s).take(a.len() as int) =~= a);
    assert((b + t).take(b.len() as int) =~= b);
    assert((a + s).skip(a.len() as int) =~= s);
    assert((b + t).skip(b.len() as int) =~= t);
}

/// Byte strings that agree up to a common last entry hold the same entries.
proof fn lemma_entries_injective(
    a: Seq<(usize, usize, [u8; 32])>,
    b: Seq<(usize, usize, [u8; 32])>,
    s: Seq<u8>,
    t: Seq<u8>,
)
    requires
        a.len() == b.len(),
        entries_bytes(a) + s == entries_bytes(b) + t,
    ensures
        entries(a) == entries(b),
        s == t,
    decreases a.len(),
{
    if a.len() == 0 {
        assert(entries_bytes(a) + s =~= s);
        assert(entries_bytes(b) + t =~= t);
        assert(entries(a) =~= entries(b));
    } else {
        let (da, db) = (a.drop_last(), b.drop_last());
        let (x, y) = (a.last(), b.last());
        assert(entries_bytes(a) + s =~= entries_bytes(da) + (entry_bytes(x) + s));
        assert(entries_bytes(b) + t =~= entries_bytes(db) + (entry_bytes(y) + t));
        lemma_entries_injective(da, db, entry_bytes(x) + s, entry_bytes(y) + t);
        let (sx, sy) = (le_bytes(x.1 as int, 8) + (x.2@ + s), le_bytes(y.1 as int, 8) + (y.2@ + t));
        assert(entry_bytes(x) + s =~= le_bytes(x.0 as int, 8) + sx);
        assert(entry_bytes(y) + t =~= le_bytes(y.0 as int, 8) + sy);
        lemma_word_front(x.0 as int, y.0 as int, sx, sy);
        lemma_word_front(x.1 as int, y.1 as int, x.2@ + s, y.2@ + t);
        lemma_front(x.2@, y.2@, s, t);
        assert forall|i: int| 0 <= i < a.len() implies entries(a)[i] == entries(b)[i] by {
            if i < a.len() - 1 {
                assert(entries(a)[i] == entries(da)[i]);
                assert(entries(b)[i] == entries(db)[i]);
            }
        }
        assert(entries(a) =~= entries(b));
    }
}

proof fn lemma_matrix_injective(
    a: Seq<(usize, usize, [u8; 32])>,
    b: Seq<(usize, usize, [u8; 32])>,
    s: Seq<u8>,
    t: Seq<u8>,
)
    requires
        a.len() <= u64::MAX,
        b.len() <= u64::MAX,
        matrix_bytes(a) + s == matrix_bytes(b) + t,
    ensures
        entries(a) == entries(b),
        s == t,
{
    assert(matrix_bytes(a) + s =~= le_bytes(a.len() as int, 8) + (entries_bytes(a) + s));
    assert(matrix_bytes(b) + t =~= le_bytes(b.len() as int, 8) + (entries_bytes(b) + t));
    lemma_word_front(
        a.len() as int,
        b.len() as int,
        entries_bytes(a) + s,
        entries_bytes(b) + t,
    );
    lemma_entries_injective(a, b, s, t);
}

proof fn lemma_words_injective(xs: Seq<int>, ys: Seq<int>, s: Seq<u8>, t: Seq<u8>)
    requires
        xs.len() == ys.len(),
        forall|i: int| 0 <= i < xs.len() ==> 0 <= #[trigger] xs[i] <= u64::MAX,
        forall|i: int| 0 <= i < ys.len() ==> 0 <= #[trigger] ys[i] <= u64::MAX,
        words(xs) + s == words(ys) + t,
    ensures
        xs == ys,
        s == t,
    decreases xs.len(),
{
    if xs.len() == 0 {
        assert(words(xs) + s =~= s);
        assert(words(ys) + t =~= t);
        assert(xs =~= ys);
    } else {
        let (dx, dy) = (xs.drop_last(), ys.drop_last());
        assert(words(xs) + s =~= words(dx) + (le_bytes(xs.last(), 8) + s));
        assert(words(ys) + t =~= words(dy) + (le_bytes(ys.last(), 8) + t));
        lemma_words_injective(dx, dy, le_bytes(xs.last(), 8) + s, le_bytes(ys.last(), 8) + t);
        lemma_word_front(xs.last(), ys.last(), s, t);
        assert(dx.push(xs.last()) =~= xs);
        assert(dy.push(ys.last()) =~= ys);
    }
}

/// Different circuits have different encodings.
pub proof fn law_encoding_injective(
    xs: Seq<int>,
    ys: Seq<int>,
    x: (Seq<(usize, usize, [u8; 32])>, Seq<(usize, usize, [u8; 32])>, Seq<(usize, usize, [u8; 32])>),
    y: (Seq<(usize, usize, [u8; 32])>, Seq<(usize, usize, [u8; 32])>, Seq<(usize, usize, [u8; 32])>),
)
    requires
        xs.len() == ys.len(),
        forall|i: int| 0 <= i < xs.len() ==> 0 <= #[trigger] xs[i] <= u64::MAX,
        forall|i: int| 0 <= i < ys.len() ==> 0 <= #[trigger] ys[i] <= u64::MAX,
        x.0.len() <= u64::MAX,
        x.1.len() <= u64::MAX,
        x.2.len() <= u64::MAX,
        y.0.len() <= u64::MAX,
        y.1.len() <= u64::MAX,
        y.2.len() <= u64::MAX,
        circuit_bytes(xs, x.0, x.1, x.2) == circuit_bytes(ys, y.0, y.1, y.2),
    ensures
        xs == ys,
        entries(x.0) == entries(y.0),
        entries(x.1) == entries(y.1),
        entries(x.2) == entries(y.2),
{
    let none: Seq<u8> = Seq::empty();
    let (cx, cy) = (matrix_bytes(x.2) + none, matrix_bytes(y.2) + none);
    let (bx, by) = (matrix_bytes(x.1) + cx, matrix_bytes(y.1) + cy);
    let (ax, ay) = (matrix_bytes(x.0) + bx, matrix_bytes(y.0) + by);
    assert(circuit_bytes(xs, x.0, x.1, x.2) =~= words(xs) + ax);
    assert(circuit_bytes(ys, y.0, y.1, y.2) =~= words(ys) + ay);
    lemma_words_injective(xs, ys, ax, ay);
    lemma_matrix_injective(x.0, y.0, bx, by);
    lemma_matrix_injective(x.1, y.1, cx, cy);
    lemma_matrix_injective(x.2, y.2, none, none);
}

} // verus!
