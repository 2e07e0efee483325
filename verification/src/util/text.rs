//! The text of error messages.

use vstd::prelude::*;

verus! {

/// The decimal digit `d`.
pub open spec fn digit(d: nat) -> char {
    ('0' as nat + d) as char
}

/// `n` in decimal, without leading zeros.
pub open spec fn decimal(n: nat) -> Seq<char>
    decreases n,
{
    if n < 10 {
        seq![digit(n)]
    } else {
        decimal(n / 10).push(digit(n % 10))
    }
}

/// `to_string` of `usize` in the standard library: the number in decimal.
#[verifier::external_body]
pub(crate) fn decimal_string(n: usize) -> (r: String)
    ensures
        r@ == decimal(n as nat),
{
    n.to_string()
}

/// `head`, followed by `n` in decimal, followed by `tail`.
pub(crate) fn with_number(head: &str, n: usize, tail: &str) -> (r: String)
    ensures
        r@ == head@ + decimal(n as nat) + tail@,
{
    let mut r = head.to_string();
    append_number(&mut r, n, tail);
    r
}

/// The hexadecimal digit `d`.
pub open spec fn hex_digit(d: int) -> char {
    if d < 10 {
        ('0' as int + d) as char
    } else {
        ('a' as int + d - 10) as char
    }
}

/// `bytes` in hexadecimal, last byte first.
pub open spec fn hex(bytes: Seq<u8>) -> Seq<char>
    decreases bytes.len(),
{
    if bytes.len() == 0 {
        Seq::empty()
    } else {
        hex(bytes.drop_first()) + seq![
            hex_digit(bytes[0] as int / 16),
            hex_digit(bytes[0] as int % 16),
        ]
    }
}

/// How the field element with the encoding `repr` is shown.
pub open spec fn element_text(repr: Seq<u8>) -> Seq<char> {
    seq!['0', 'x'] + hex(repr)
}

/// Appends `n` in decimal to `s`, and then `tail`.
pub(crate) fn append_number(s: &mut String, n: usize, tail: &str)
    ensures
        final(s)@ == old(s)@ + decimal(n as nat) + tail@,
{
    s.append(decimal_string(n).as_str());
    s.append(tail);
}

} // verus!
