//! Numbers as text: what is written is the number, and no other.

use vstd::prelude::*;

use crate::text::{dec, digit_char, digits, padded_left};

verus! {

/// The value of a digit.
pub open spec fn digit_value(c: char) -> int {
    if '0' <= c <= '9' {
        c as int - '0' as int
    } else if 'a' <= c <= 'z' {
        c as int - 'a' as int + 10
    } else {
        -1
    }
}

/// The value of a text of digits.
pub open spec fn numeral_value(s: Seq<char>, base: int) -> int
    decreases s.len(),
{
    if s.len() == 0 {
        0
    } else {
        numeral_value(s.drop_last(), base) * base + digit_value(s.last())
    }
}

/// The text is the number in that base: made of its digits, none of them missing or too many.
pub open spec fn is_numeral(s: Seq<char>, n: nat, base: nat) -> bool {
    &&& s.len() > 0
    &&& forall|i: int| 0 <= i < s.len() ==> 0 <= digit_value(#[trigger] s[i]) < base
    &&& numeral_value(s, base as int) == n
    &&& s.len() > 1 ==> s[0] != '0'
}

/// A number below 2 to the 64th, in a base up to 36, is written as itself.
pub proof fn law_numerals(n: nat, base: nat)
    requires
        2 <= base <= 36,
    ensures
        is_numeral(digits(n, base), n, base),
        n > 0 ==> digits(n, base)[0] != '0',
    decreases n,
{
    let s = digits(n, base);
    if n < base {
        assert(s.drop_last() =~= seq![]);
        reveal_with_fuel(numeral_value, 2);
        assert(digit_value(digit_char(n)) == n);
    } else {
        vstd::arithmetic::div_mod::lemma_div_decreases(n as int, base as int);
        vstd::arithmetic::div_mod::lemma_fundamental_div_mod(n as int, base as int);
        vstd::arithmetic::div_mod::lemma_mod_bound(n as int, base as int);
        assert(n / base > 0) by {
            vstd::arithmetic::div_mod::lemma_div_non_zero(n as int, base as int);
        }
        law_numerals(n / base, base);
        let front = digits(n / base, base);
        assert(s.drop_last() =~= front);
        assert(digit_value(digit_char(n % base)) == n % base);
        assert(base * (n / base) == (n / base) * base) by (nonlinear_arith);
        assert forall|i: int| 0 <= i < s.len() implies 0 <= digit_value(#[trigger] s[i]) < base by {
            if i < front.len() {
                assert(s[i] == front[i]);
            }
        }
        assert(s[0] == front[0]);
    }
}

/// A number in decimal.
pub proof fn law_decimals(n: nat)
    ensures
        is_numeral(dec(n), n, 10),
{
    law_numerals(n, 10);
}

/// Padding keeps the text at the end, puts only the filler before it, and makes it as wide as
/// asked for, or leaves it as it is.
pub proof fn law_padding(s: Seq<char>, width: nat, c: char)
    ensures
        ({
            let p = padded_left(s, width, c);
            &&& p.len() == if s.len() < width {
                width
            } else {
                s.len()
            }
            &&& p.skip(p.len() - s.len()) == s
            &&& forall|i: int| 0 <= i < p.len() - s.len() ==> #[trigger] p[i] == c
        }),
{
    let p = padded_left(s, width, c);
    assert(p.skip(p.len() - s.len()) =~= s);
}

} // verus!
