//! Decimal and hexadecimal numerals: printing, reading, and their round trip.

use vstd::prelude::*;
use crate::text::push_char;

verus! {

pub open spec fn is_dec_digit(c: char) -> bool {
    '0' <= c && c <= '9'
}

pub open spec fn dec_digit(d: int) -> char {
    if d == 0 {
        '0'
    } else if d == 1 {
        '1'
    } else if d == 2 {
        '2'
    } else if d == 3 {
        '3'
    } else if d == 4 {
        '4'
    } else if d == 5 {
        '5'
    } else if d == 6 {
        '6'
    } else if d == 7 {
        '7'
    } else if d == 8 {
        '8'
    } else {
        '9'
    }
}

pub open spec fn dec_digit_val(c: char) -> int {
    c as int - '0' as int
}

/// The decimal numeral of `n`, most significant digit first, no sign,
/// no leading zero except for `n == 0` itself.
pub open spec fn dec_of(n: nat) -> Seq<char>
    decreases n,
{
    if n < 10 {
        seq![dec_digit(n as int)]
    } else {
        dec_of(n / 10).push(dec_digit((n % 10) as int))
    }
}

/// The value of a digit string (meaningful when every character is a digit).
pub open spec fn dec_val(s: Seq<char>) -> int
    decreases s.len(),
{
    if s.len() == 0 {
        0
    } else {
        dec_val(s.drop_last()) * 10 + dec_digit_val(s.last())
    }
}

pub open spec fn all_dec_digits(s: Seq<char>) -> bool {
    forall|i: int| 0 <= i < s.len() ==> is_dec_digit(#[trigger] s[i])
}

/// Reading back the decimal numeral of `n` yields `n` again, and the numeral
/// is a non-empty string of digits.
pub proof fn lemma_dec_roundtrip(n: nat)
    ensures
        dec_val(dec_of(n)) == n,
        all_dec_digits(dec_of(n)),
        dec_of(n).len() >= 1,
    decreases n,
{
    if n < 10 {
        assert(dec_of(n) =~= seq![dec_digit(n as int)]);
        assert(dec_of(n).drop_last() =~= Seq::<char>::empty());
        assert(dec_val(Seq::<char>::empty()) == 0);
        assert(dec_val(dec_of(n)) == dec_val(dec_of(n).drop_last()) * 10 + dec_digit_val(
            dec_of(n).last(),
        ));
        assert(dec_digit_val(dec_digit(n as int)) == n);
        assert(is_dec_digit(dec_digit(n as int)));
    } else {
        lemma_dec_roundtrip(n / 10);
        let d = dec_digit((n % 10) as int);
        assert(dec_of(n) == dec_of(n / 10).push(d));
        assert(dec_of(n).drop_last() =~= dec_of(n / 10));
        assert(dec_of(n).last() == d);
        assert(dec_digit_val(d) == n % 10);
        vstd::arithmetic::div_mod::lemma_fundamental_div_mod(n as int, 10);
        assert(dec_val(dec_of(n)) == (n / 10) * 10 + n % 10);
        assert(is_dec_digit(d));
        assert(forall|i: int|
            0 <= i < dec_of(n).len() ==> is_dec_digit(#[trigger] dec_of(n)[i]));
    }
}

pub fn dec_digit_exec(d: u64) -> (c: char)
    requires
        d < 10,
    ensures
        c == dec_digit(d as int),
{
    if d == 0 {
        '0'
    } else if d == 1 {
        '1'
    } else if d == 2 {
        '2'
    } else if d == 3 {
        '3'
    } else if d == 4 {
        '4'
    } else if d == 5 {
        '5'
    } else if d == 6 {
        '6'
    } else if d == 7 {
        '7'
    } else if d == 8 {
        '8'
    } else {
        '9'
    }
}

/// Prints `n` in decimal.
pub fn u64_to_dec(n: u64) -> (s: String)
    ensures
        s@ == dec_of(n as nat),
    decreases n,
{
    if n < 10 {
        let mut s = String::new();
        push_char(&mut s, dec_digit_exec(n));
        proof {
            assert(s@ =~= dec_of(n as nat));
        }
        s
    } else {
        let mut s = u64_to_dec(n / 10);
        push_char(&mut s, dec_digit_exec(n % 10));
        s
    }
}

pub fn dec_digit_val_exec(c: char) -> (d: u64)
    requires
        is_dec_digit(c),
    ensures
        d == dec_digit_val(c),
        d < 10,
{
    (c as u32 - '0' as u32) as u64
}

pub open spec fn is_hex_char(c: char) -> bool {
    ('0' <= c && c <= '9') || ('a' <= c && c <= 'f')
}

pub open spec fn hex_digit(d: int) -> char {
    if d < 10 {
        dec_digit(d)
    } else if d == 10 {
        'a'
    } else if d == 11 {
        'b'
    } else if d == 12 {
        'c'
    } else if d == 13 {
        'd'
    } else if d == 14 {
        'e'
    } else {
        'f'
    }
}

/// Two lower-case hex digits of a byte, high nibble first.
pub open spec fn hex_byte(b: u8) -> Seq<char> {
    seq![hex_digit(b as int / 16), hex_digit(b as int % 16)]
}

pub fn hex_digit_exec(d: u8) -> (c: char)
    requires
        d < 16,
    ensures
        c == hex_digit(d as int),
{
    if d < 10 {
        dec_digit_exec(d as u64)
    } else if d == 10 {
        'a'
    } else if d == 11 {
        'b'
    } else if d == 12 {
        'c'
    } else if d == 13 {
        'd'
    } else if d == 14 {
        'e'
    } else {
        'f'
    }
}

/// Appends the two hex digits of `b` to `s`.
pub fn push_hex_byte(s: &mut String, b: u8)
    ensures
        final(s)@ == old(s)@ + hex_byte(b),
{
    push_char(s, hex_digit_exec(b / 16));
    push_char(s, hex_digit_exec(b % 16));
    proof {
        assert(final(s)@ =~= old(s)@ + hex_byte(b));
    }
}

pub proof fn lemma_hex_digit_is_hex(d: int)
    requires
        0 <= d < 16,
    ensures
        is_hex_char(hex_digit(d)),
{
}

} // verus!
