//! Positional numerals: how a natural number is written in a base from two
//! to sixteen, most significant digit first and without leading zeros.

use vstd::prelude::*;

verus! {

/// The character that stands for the digit `d`: `0` to `9`, then the lower
/// case letters `a` to `f`.
pub open spec fn digit_char(d: nat) -> char
    recommends
        d < 16,
{
    if d == 0 {
        '0'
    } else if d == 1 {
        '1'
    } else if d == 2 {
        '2'
    } else if d == 3 {
        '3'
    } else if d == 4 {
        '4'
    } else if d == 5 {
        '5'
    } else if d == 6 {
        '6'
    } else if d == 7 {
        '7'
    } else if d == 8 {
        '8'
    } else if d == 9 {
        '9'
    } else if d == 10 {
        'a'
    } else if d == 11 {
        'b'
    } else if d == 12 {
        'c'
    } else if d == 13 {
        'd'
    } else if d == 14 {
        'e'
    } else {
        'f'
    }
}

/// The numeral of `n` in `base`: a single digit when `n` is below the base,
/// else the numeral of `n / base` followed by the digit `n % base`.
pub open spec fn numeral(n: nat, base: nat) -> Seq<char>
    recommends
        2 <= base <= 16,
    decreases n,
    via numeral_terminates
{
    if base < 2 || n < base {
        seq![digit_char(n)]
    } else {
        numeral(n / base, base).push(digit_char(n % base))
    }
}

/// The recursion of `numeral` ends: its argument gets smaller.
#[via_fn]
proof fn numeral_terminates(n: nat, base: nat) {
    if 2 <= base <= n {
        lemma_quotient_is_smaller(n, base);
    }
}

/// `n` in decimal.
pub open spec fn decimal_text(n: nat) -> Seq<char> {
    numeral(n, 10)
}

/// `n` in hexadecimal, with lower case letters.
pub open spec fn hex_text(n: nat) -> Seq<char> {
    numeral(n, 16)
}

/// The digit that the character `c` stands for; sixteen where it stands for
/// none.
pub open spec fn digit_value(c: char) -> nat {
    if c == '0' {
        0
    } else if c == '1' {
        1
    } else if c == '2' {
        2
    } else if c == '3' {
        3
    } else if c == '4' {
        4
    } else if c == '5' {
        5
    } else if c == '6' {
        6
    } else if c == '7' {
        7
    } else if c == '8' {
        8
    } else if c == '9' {
        9
    } else if c == 'a' {
        10
    } else if c == 'b' {
        11
    } else if c == 'c' {
        12
    } else if c == 'd' {
        13
    } else if c == 'e' {
        14
    } else if c == 'f' {
        15
    } else {
        16
    }
}

/// The number that `digits` denote in `base`, most significant digit first.
pub open spec fn numeral_value(digits: Seq<char>, base: nat) -> nat
    decreases digits.len(),
{
    if digits.len() == 0 {
        0
    } else {
        numeral_value(digits.drop_last(), base) * base + digit_value(digits.last())
    }
}

/// A numeral is made of digits below the base, at least one of them, and its
/// first digit is zero only where the number is zero.
pub proof fn lemma_numeral_is_well_formed(n: nat, base: nat)
    requires
        2 <= base <= 16,
    ensures
        numeral(n, base).len() >= 1,
        forall|i: int|
            0 <= i < numeral(n, base).len() ==> digit_value(#[trigger] numeral(n, base)[i]) < base,
        n == 0 <==> numeral(n, base)[0] == '0',
    decreases n,
{
    lemma_remainder_is_a_digit(n, base);
    if n >= base {
        lemma_quotient_is_smaller(n, base);
        lemma_numeral_is_well_formed(n / base, base);
        assert(n / base != 0) by (nonlinear_arith)
            requires
                2 <= base <= n,
        ;
    }
}

/// A numeral denotes the number that it was made from.
pub proof fn lemma_numeral_denotes_its_number(n: nat, base: nat)
    requires
        2 <= base <= 16,
    ensures
        numeral_value(numeral(n, base), base) == n,
    decreases n,
{
    lemma_remainder_is_a_digit(n, base);
    if n >= base {
        lemma_quotient_is_smaller(n, base);
        lemma_numeral_denotes_its_number(n / base, base);
        let digits = numeral(n, base);
        assert(digits.drop_last() =~= numeral(n / base, base));
        assert((n / base) * base + n % base == n) by (nonlinear_arith)
            requires
                0 < base,
        ;
    } else {
        let digits = numeral(n, base);
        assert(digits.drop_last() =~= Seq::<char>::empty());
        assert(numeral_value(digits.drop_last(), base) * base == 0) by (nonlinear_arith)
            requires
                numeral_value(digits.drop_last(), base) == 0,
        ;
    }
}

/// Two numbers with the same numeral are the same number.
pub proof fn lemma_numeral_is_injective(m: nat, n: nat, base: nat)
    requires
        2 <= base <= 16,
        numeral(m, base) == numeral(n, base),
    ensures
        m == n,
{
    lemma_numeral_denotes_its_number(m, base);
    lemma_numeral_denotes_its_number(n, base);
}

/// Dividing by the base makes a number that is not below the base smaller.
proof fn lemma_quotient_is_smaller(n: nat, base: nat)
    requires
        2 <= base <= n,
    ensures
        n / base < n,
{
    assert(n / base < n) by (nonlinear_arith)
        requires
            2 <= base <= n,
    ;
}

/// The remainder is below the base, and is the number itself where that is
/// below the base.
proof fn lemma_remainder_is_a_digit(n: nat, base: nat)
    requires
        0 < base,
    ensures
        n % base < base,
        n < base ==> n % base == n,
{
    assert(n % base < base && (n < base ==> n % base == n)) by (nonlinear_arith)
        requires
            0 < base,
    ;
}

/// The one-character string of the digit `d`.
fn digit_str(d: u8) -> (s: &'static str)
    requires
        d < 16,
    ensures
        s@ == seq![digit_char(d as nat)],
{
    proof {
        reveal_strlit("0");
        reveal_strlit("1");
        reveal_strlit("2");
        reveal_strlit("3");
        reveal_strlit("4");
        reveal_strlit("5");
        reveal_strlit("6");
        reveal_strlit("7");
        reveal_strlit("8");
        reveal_strlit("9");
        reveal_strlit("a");
        reveal_strlit("b");
        reveal_strlit("c");
        reveal_strlit("d");
        reveal_strlit("e");
        reveal_strlit("f");
    }
    let s = match d {
        0 => "0",
        1 => "1",
        2 => "2",
        3 => "3",
        4 => "4",
        5 => "5",
        6 => "6",
        7 => "7",
        8 => "8",
        9 => "9",
        10 => "a",
        11 => "b",
        12 => "c",
        13 => "d",
        14 => "e",
        _ => "f",
    };
    assert(s@ =~= seq![digit_char(d as nat)]);
    s
}

/// Appends the numeral of `n` in `base` to `out`.
fn push_numeral(out: &mut String, n: u64, base: u64)
    requires
        2 <= base <= 16,
    ensures
        final(out)@ == old(out)@ + numeral(n as nat, base as nat),
    decreases n,
{
    proof {
        lemma_remainder_is_a_digit(n as nat, base as nat);
    }
    if n >= base {
        proof {
            lemma_quotient_is_smaller(n as nat, base as nat);
        }
        push_numeral(out, n / base, base);
    }
    out.append(digit_str((n % base) as u8));
    assert(out@ =~= old(out)@ + numeral(n as nat, base as nat));
}

/// Appends `n` in decimal to `out`.
pub fn push_decimal(out: &mut String, n: u64)
    ensures
        final(out)@ == old(out)@ + decimal_text(n as nat),
{
    push_numeral(out, n, 10);
}

/// Appends `n` in lower case hexadecimal to `out`.
pub fn push_hex(out: &mut String, n: u64)
    ensures
        final(out)@ == old(out)@ + hex_text(n as nat),
{
    push_numeral(out, n, 16);
}

/// `n` in decimal.
pub fn decimal(n: u64) -> (text: String)
    ensures
        text@ == decimal_text(n as nat),
{
    let mut text = String::new();
    push_decimal(&mut text, n);
    text
}

/// `n` in lower case hexadecimal.
pub fn hex(n: u64) -> (text: String)
    ensures
        text@ == hex_text(n as nat),
{
    let mut text = String::new();
    push_hex(&mut text, n);
    text
}

} // verus!
