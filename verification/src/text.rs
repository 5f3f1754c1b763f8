//! Numbers in words.
use vstd::prelude::*;

verus! {

/// The ten digits.
pub open spec fn decimal_digits() -> Seq<char> {
    "0123456789"@
}

/// A number in decimal, without leading zeros.
pub open spec fn decimal(n: nat) -> Seq<char>
    decreases n,
{
    if n < 10 {
        seq![decimal_digits()[n as int]]
    } else {
        decimal(n / 10).push(decimal_digits()[n as int % 10])
    }
}

/// Appends a number in decimal.
pub fn append_decimal(text: &mut String, n: usize)
    ensures
        final(text)@ == old(text)@ + decimal(n as nat),
    decreases n,
{
    let table = "0123456789";
    proof {
        reveal_strlit("0123456789");
    }
    if n >= 10 {
        append_decimal(text, n / 10);
    }
    let digit: usize = n % 10;
    text.append(table.substring_ascii(digit, digit + 1));
    proof {
        let last = seq![decimal_digits()[digit as int]];
        assert(table@.subrange(digit as int, digit + 1) =~= last);
        if n >= 10 {
            assert(decimal((n / 10) as nat) + last =~= decimal(n as nat));
            assert(text@ =~= old(text)@ + decimal(n as nat));
        }
    }
}

/// Appends a name and a number, as they stand among the fields of a value.
pub fn append_field(text: &mut String, name: &str, n: usize)
    ensures
        final(text)@ == old(text)@ + name@ + decimal(n as nat),
{
    text.append(name);
    append_decimal(text, n);
}

} // verus!
