//! What bytes and texts stand for.
use crate::circuit::Circuit;
use crate::crypto::{encoded_circuit, encoded_instance};
use crate::encoding::{
    entries_bytes, entry_bytes, le_bytes, lemma_le_bytes_len, matrix_bytes, words,
};
use crate::r1cs::SpartanInstance;
use crate::scalar::le_value;
use crate::seed::{digits, hex};
use crate::text::{decimal, decimal_digits};
use vstd::arithmetic::power::pow;
use vstd::prelude::*;

verus! {

// Integers.

/// The first byte of a string counts its value, and what follows counts 256 times as much.
pub proof fn law_le_value(b: u8, rest: Seq<u8>)
    ensures
        le_value(Seq::<u8>::empty()) == 0,
        le_value(seq![b] + rest) == b + 256 * le_value(rest),
{
    assert((seq![b] + rest).skip(1) =~= rest);
}

/// Writing an integer as bytes and reading them gives it back, if there are bytes enough.
pub proof fn law_le_bytes(x: int, n: nat)
    requires
        0 <= x < pow(256, n),
    ensures
        le_bytes(x, n).len() == n,
        le_value(le_bytes(x, n)) == x,
    decreases n,
{
    reveal(pow);
    lemma_le_bytes_len(x, n);
    if n > 0 {
        let m = (n - 1) as nat;
        assert(pow(256, n) == 256 * pow(256, m));
        assert(0 <= x / 256 < pow(256, m));
        law_le_bytes(x / 256, m);
        law_le_value((x % 256) as u8, le_bytes(x / 256, m));
    }
}

// Circuits.

proof fn lemma_entries_len(m: Seq<(usize, usize, [u8; 32])>)
    ensures
        entries_bytes(m).len() == 48 * m.len(),
    decreases m.len(),
{
    if m.len() > 0 {
        lemma_entries_len(m.drop_last());
        lemma_le_bytes_len(m.last().0 as int, 8);
        lemma_le_bytes_len(m.last().1 as int, 8);
    }
}

/// A matrix is encoded as the number of its entries in eight bytes, and then its entries in
/// 48 bytes each: row and column in eight bytes, and the bytes of the coefficient.
pub proof fn law_matrix_bytes(m: Seq<(usize, usize, [u8; 32])>, k: int)
    requires
        0 <= k < m.len(),
    ensures
        matrix_bytes(m).len() == 8 + 48 * m.len(),
        matrix_bytes(m).take(8) == le_bytes(m.len() as int, 8),
        matrix_bytes(m).subrange(8 + 48 * k, 56 + 48 * k) == le_bytes(m[k].0 as int, 8) + le_bytes(
            m[k].1 as int,
            8,
        ) + m[k].2@,
{
    lemma_le_bytes_len(m.len() as int, 8);
    lemma_entries_len(m);
    lemma_entry_at(m, k);
    assert(matrix_bytes(m).take(8) =~= le_bytes(m.len() as int, 8));
    assert(matrix_bytes(m).subrange(8 + 48 * k, 56 + 48 * k) =~= entries_bytes(m).subrange(
        48 * k,
        48 * k + 48,
    ));
}

proof fn lemma_entry_at(m: Seq<(usize, usize, [u8; 32])>, k: int)
    requires
        0 <= k < m.len(),
    ensures
        entries_bytes(m).len() == 48 * m.len(),
        entries_bytes(m).subrange(48 * k, 48 * k + 48) == entry_bytes(m[k]),
    decreases m.len(),
{
    let d = m.drop_last();
    lemma_entries_len(m);
    lemma_entries_len(d);
    lemma_le_bytes_len(m.last().0 as int, 8);
    lemma_le_bytes_len(m.last().1 as int, 8);
    if k < d.len() {
        lemma_entry_at(d, k);
        assert(entries_bytes(m).subrange(48 * k, 48 * k + 48) =~= entries_bytes(d).subrange(
            48 * k,
            48 * k + 48,
        ));
    } else {
        assert(entries_bytes(m).subrange(48 * k, 48 * k + 48) =~= entry_bytes(m.last()));
    }
}

proof fn lemma_words_push(xs: Seq<int>, x: int)
    ensures
        words(xs.push(x)) == words(xs) + le_bytes(x, 8),
{
    assert(xs.push(x).drop_last() =~= xs);
}

/// A circuit is encoded as its three dimensions in eight bytes each, and its three matrices.
pub proof fn law_encoded_circuit(c: &Circuit)
    ensures
        encoded_circuit(c) == le_bytes(c.num_cons as int, 8) + le_bytes(c.num_vars as int, 8)
            + le_bytes(c.num_inputs as int, 8) + matrix_bytes(c.A@) + matrix_bytes(c.B@)
            + matrix_bytes(c.C@),
{
    let none: Seq<int> = Seq::empty();
    let (x, y, z) = (c.num_cons as int, c.num_vars as int, c.num_inputs as int);
    lemma_words_push(none, x);
    lemma_words_push(none.push(x), y);
    lemma_words_push(none.push(x).push(y), z);
    assert(seq![x, y, z] =~= none.push(x).push(y).push(z));
    assert(words(seq![x, y, z]) =~= le_bytes(x, 8) + le_bytes(y, 8) + le_bytes(z, 8));
}

/// An instance is encoded as its four dimensions in eight bytes each, and its three matrices.
pub proof fn law_encoded_instance(c: &SpartanInstance)
    ensures
        encoded_instance(c) == le_bytes(c.num_cons as int, 8) + le_bytes(c.num_vars as int, 8)
            + le_bytes(c.num_inputs as int, 8) + le_bytes(c.num_outputs as int, 8) + matrix_bytes(
            c.A@,
        ) + matrix_bytes(c.B@) + matrix_bytes(c.C@),
{
    let none: Seq<int> = Seq::empty();
    let (x, y, z) = (c.num_cons as int, c.num_vars as int, c.num_inputs as int);
    let w = c.num_outputs as int;
    lemma_words_push(none, x);
    lemma_words_push(none.push(x), y);
    lemma_words_push(none.push(x).push(y), z);
    lemma_words_push(none.push(x).push(y).push(z), w);
    assert(seq![x, y, z, w] =~= none.push(x).push(y).push(z).push(w));
    assert(words(seq![x, y, z, w]) =~= le_bytes(x, 8) + le_bytes(y, 8) + le_bytes(z, 8) + le_bytes(
        w,
        8,
    ));
}

// Texts.

/// A number below ten is its digit, and a larger one is the number without its last digit,
/// followed by that digit.
pub proof fn law_decimal(n: nat, d: nat)
    requires
        d < 10,
    ensures
        decimal(d) == seq![('0' as int + d) as char],
        n > 0 ==> decimal(10 * n + d) == decimal(n).push(('0' as int + d) as char),
{
    reveal_strlit("0123456789");
    assert(decimal_digits()[d as int] == ('0' as int + d) as char);
    if n > 0 {
        assert((10 * n + d) / 10 == n && (10 * n + d) % 10 == d);
    }
}

/// Each byte becomes two digits, the high one first, out of `0` to `9` and `a` to `f`.
pub proof fn law_hex(bytes: Seq<u8>, i: int)
    requires
        0 <= i < bytes.len(),
    ensures
        hex(bytes).len() == 2 * bytes.len(),
        ({
            let (high, low) = (hex(bytes)[2 * i], hex(bytes)[2 * i + 1]);
            let is_digit = |c: char| ('0' <= c && c <= '9') || ('a' <= c && c <= 'f');
            let value = |c: char|
                if c <= '9' {
                    c as int - '0' as int
                } else {
                    c as int - 'a' as int + 10
                };
            &&& is_digit(high) && is_digit(low)
            &&& 16 * value(high) + value(low) == bytes[i]
        }),
{
    reveal_strlit("0123456789abcdef");
    let b = bytes[i] as int;
    assert((2 * i) / 2 == i && (2 * i) % 2 == 0);
    assert((2 * i + 1) / 2 == i && (2 * i + 1) % 2 == 1);
    assert(hex(bytes)[2 * i] == digits()[b / 16]);
    assert(hex(bytes)[2 * i + 1] == digits()[b % 16]);
    assert(b == 16 * (b / 16) + b % 16);
    lemma_digit(b / 16);
    lemma_digit(b % 16);
}

proof fn lemma_digit(d: int)
    requires
        0 <= d < 16,
    ensures
        d < 10 ==> digits()[d] == ('0' as int + d) as char,
        d >= 10 ==> digits()[d] == ('a' as int + d - 10) as char,
{
    reveal_strlit("0123456789abcdef");
}

} // verus!
