//! Numbers as text: decimal and lower-case hexadecimal numerals.

use vstd::prelude::*;

verus! {

/// The character for one digit: `0` to `9`, then `a` to `f`.
pub open spec fn digit_char(d: int) -> char {
    if d < 10 {
        (48 + d) as char
    } else {
        (87 + d) as char
    }
}

/// The numeral of `n` to the base `base`, without leading zeros.
pub open spec fn numeral(n: int, base: int) -> Seq<char>
    decreases n,
{
    if base < 2 || n < base {
        seq![digit_char(n)]
    } else {
        proof {
            lemma_quotient_smaller(n, base);
        }
        numeral(n / base, base).push(digit_char(n % base))
    }
}

/// Dividing by two or more makes a number smaller.
pub proof fn lemma_quotient_smaller(n: int, base: int)
    requires
        2 <= base <= n,
    ensures
        0 <= n / base < n,
        0 <= n % base < base,
{
    assert(0 <= n / base < n && 0 <= n % base < base) by (nonlinear_arith)
        requires
            2 <= base <= n,
    ;
}

/// The character for the digit `d`.
pub fn digit(d: u64) -> (c: char)
    requires
        d < 16,
    ensures
        c == digit_char(d as int),
{
    if d < 10 {
        (48u8 + d as u8) as char
    } else {
        (87u8 + d as u8) as char
    }
}

/// Appends the numeral of `n` to the base `base`.
pub fn push_numeral(out: &mut Vec<char>, n: u64, base: u64)
    requires
        2 <= base <= 16,
    ensures
        final(out)@ == old(out)@ + numeral(n as int, base as int),
    decreases n,
{
    if n >= base {
        proof {
            lemma_quotient_smaller(n as int, base as int);
        }
        push_numeral(out, n / base, base);
        out.push(digit(n % base));
        proof {
            assert(out@ =~= old(out)@ + numeral(n as int, base as int));
        }
    } else {
        out.push(digit(n));
        proof {
            assert(out@ =~= old(out)@ + numeral(n as int, base as int));
        }
    }
}

/// Appends the decimal numeral of `n`.
pub fn push_decimal(out: &mut Vec<char>, n: u64)
    ensures
        final(out)@ == old(out)@ + numeral(n as int, 10),
{
    push_numeral(out, n, 10);
}

/// Appends the hexadecimal numeral of `n`, in lower case.
pub fn push_hex(out: &mut Vec<char>, n: u64)
    ensures
        final(out)@ == old(out)@ + numeral(n as int, 16),
{
    push_numeral(out, n, 16);
}

} // verus!
