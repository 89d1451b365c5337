//! Writing a number as digits.

use vstd::prelude::*;

verus! {

/// The character of digit `d`, lower case above nine.
pub open spec fn digit_char(d: nat) -> char {
    seq!['0', '1', '2', '3', '4', '5', '6', '7', '8', '9', 'a', 'b', 'c', 'd', 'e', 'f'][d as int]
}

/// `n` written in base `base`, most significant digit first, without
/// leading zeros; zero is the one digit `0`.
pub open spec fn digits(n: nat, base: nat) -> Seq<char>
    decreases n,
    via digits_decreases
{
    if base < 2 || n < base {
        seq![digit_char(n)]
    } else {
        digits(n / base, base).push(digit_char(n % base))
    }
}

#[via_fn]
proof fn digits_decreases(n: nat, base: nat) {
    if !(base < 2 || n < base) {
        assert(n / base < n) by (nonlinear_arith)
            requires
                base >= 2,
                n >= base,
        ;
    }
}

/// The character of digit `d`.
pub fn digit_to_char(d: u8) -> (c: char)
    requires
        d < 16,
    ensures
        c == digit_char(d as nat),
{
    if d == 0 {
        '0'
    } else if d == 1 {
        '1'
    } else if d == 2 {
        '2'
    } else if d == 3 {
        '3'
    } else if d == 4 {
        '4'
    } else if d == 5 {
        '5'
    } else if d == 6 {
        '6'
    } else if d == 7 {
        '7'
    } else if d == 8 {
        '8'
    } else if d == 9 {
        '9'
    } else if d == 10 {
        'a'
    } else if d == 11 {
        'b'
    } else if d == 12 {
        'c'
    } else if d == 13 {
        'd'
    } else if d == 14 {
        'e'
    } else {
        'f'
    }
}

/// Appends to `out` the digits of `n` in base `base`.
pub fn push_digits(out: &mut String, n: u128, base: u8)
    requires
        2 <= base <= 16,
    ensures
        final(out)@ == old(out)@ + digits(n as nat, base as nat),
    decreases n,
{
    let wide: u128 = base as u128;
    if n >= wide {
        assert(n / wide < n) by (nonlinear_arith)
            requires
                wide >= 2,
                n >= wide,
        ;
        push_digits(out, n / wide, base);
        let last = digit_to_char((n % wide) as u8);
        out.push(last);
        assert(old(out)@ + digits((n / wide) as nat, base as nat).push(last) == (old(out)@
            + digits((n / wide) as nat, base as nat)).push(last));
    } else {
        let only = digit_to_char(n as u8);
        out.push(only);
        assert(old(out)@.push(only) == old(out)@ + seq![only]);
    }
}

} // verus!
