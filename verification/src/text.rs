//! Small building blocks for producing text: appending characters to a
//! `String` and rendering unsigned integers in decimal.
use vstd::prelude::*;

verus! {

/// Appends one character to a `String`.
///
/// Trusted: calls `String::push`, whose documentation says it appends the
/// given `char` to the end of the string; the contract claims exactly that.
#[verifier::external_body]
pub(crate) fn push_char(s: &mut String, c: char)
    ensures
        final(s)@ == old(s)@.push(c),
{
    s.push(c);
}

/// The ASCII digit character for a value below ten.
pub open spec fn digit_char(d: int) -> char {
    ((48 + d) as u32) as char
}

/// The decimal rendering of a natural number, without leading zeros.
pub open spec fn decimal_text(n: nat) -> Seq<char>
    decreases n,
{
    if n < 10 {
        seq![digit_char(n as int)]
    } else {
        decimal_text(n / 10).push(digit_char((n % 10) as int))
    }
}

/// Appends the decimal rendering of `n` to `out`.
pub fn push_decimal(out: &mut String, n: u64)
    ensures
        final(out)@ == old(out)@ + decimal_text(n as nat),
    decreases n,
{
    if n >= 10 {
        push_decimal(out, n / 10);
    }
    let d: u8 = (n % 10) as u8;
    push_char(out, (48u8 + d) as char);
    proof {
        assert(((48u8 + d) as char) == digit_char((n % 10) as int));
    }
}

} // verus!
