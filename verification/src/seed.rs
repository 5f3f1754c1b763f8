//! Seeds of circuits as text.
use vstd::prelude::*;

verus! {

/// The sixteen digits.
pub open spec fn digits() -> Seq<char> {
    "0123456789abcdef"@
}

/// Two digits for each byte.
pub open spec fn hex(bytes: Seq<u8>) -> Seq<char> {
    Seq::new(
        2 * bytes.len(),
        |i: int|
            if i % 2 == 0 {
                digits()[bytes[i / 2] as int / 16]
            } else {
                digits()[bytes[i / 2] as int % 16]
            },
    )
}

/// The seed in lower-case hexadecimal.
pub fn seed_to_hex(seed: &[u8; 32]) -> (r: String)
    ensures
        r@ == hex(seed@),
{
    let table = "0123456789abcdef";
    proof {
        reveal_strlit("0123456789abcdef");
    }
    let mut r: String = String::new();
    let mut i: usize = 0;
    assert(seed@.take(0) =~= Seq::empty());
    assert(r@ =~= hex(seed@.take(0)));
    while i < 32
        invariant
            i <= 32,
            seed@.len() == 32,
            table@ == digits(),
            table.is_ascii(),
            table@.len() == 16,
            r@ == hex(seed@.take(i as int)),
        decreases 32 - i,
    {
        let high: usize = (seed[i] / 16) as usize;
        let low: usize = (seed[i] % 16) as usize;
        let ghost before = r@;
        r.append(table.substring_ascii(high, high + 1));
        r.append(table.substring_ascii(low, low + 1));
        proof {
            let now = seed@.take(i as int);
            let next = seed@.take(i + 1);
            assert(r@ =~= before.push(digits()[high as int]).push(digits()[low as int]));
            assert(r@ =~= hex(next));
        }
        i += 1;
    }
    assert(seed@.take(32) =~= seed@);
    r
}

} // verus!
