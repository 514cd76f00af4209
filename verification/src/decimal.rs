//! Decimal text of unsigned integers, appended to a `String`.

use vstd::prelude::*;

verus! {

/// The character of a single decimal digit.
pub open spec fn digit_char(d: nat) -> char
    recommends
        d < 10,
{
    ((48 + d) as u8) as char
}

/// The decimal digits of `n`, most significant first, without leading zeros.
pub open spec fn digits_of(n: nat) -> Seq<char>
    decreases n,
{
    if n < 10 {
        seq![digit_char(n)]
    } else {
        digits_of(n / 10).push(digit_char(n % 10))
    }
}

/// The last `width` decimal digits of `n`, with leading zeros.
pub open spec fn padded_digits(n: nat, width: nat) -> Seq<char>
    decreases width,
{
    if width == 0 {
        Seq::empty()
    } else {
        padded_digits(n / 10, (width - 1) as nat).push(digit_char(n % 10))
    }
}

/// A count of millionths written as a decimal fraction with six places.
pub open spec fn fixed6(millionths: nat) -> Seq<char> {
    digits_of(millionths / 1_000_000) + seq!['.'] + padded_digits(millionths % 1_000_000, 6)
}

/// The character is one of the ten decimal digits.
pub open spec fn is_digit(c: char) -> bool {
    48 <= c as int <= 57
}

/// The number that a sequence of decimal digits stands for.
pub open spec fn value_of(digits: Seq<char>) -> nat
    decreases digits.len(),
{
    if digits.len() == 0 {
        0
    } else {
        (value_of(digits.drop_last()) * 10 + (digits.last() as int - 48)) as nat
    }
}

/// The decimal text of a number is not empty, holds digits only, and stands
/// for that number.
pub proof fn lemma_digits_of(n: nat)
    ensures
        digits_of(n).len() >= 1,
        forall|i: int| 0 <= i < digits_of(n).len() ==> is_digit(#[trigger] digits_of(n)[i]),
        value_of(digits_of(n)) == n,
    decreases n,
{
    if n < 10 {
        let text = digits_of(n);
        assert(text.drop_last() =~= Seq::<char>::empty());
        assert(value_of(text.drop_last()) == 0);
    } else {
        lemma_digits_of(n / 10);
        let front = digits_of(n / 10);
        let text = digits_of(n);
        assert(text.drop_last() =~= front);
        assert forall|i: int| 0 <= i < text.len() implies is_digit(#[trigger] text[i]) by {
            if i < front.len() {
                assert(text[i] == front[i]);
            }
        }
    }
}

/// Different numbers have different decimal texts.
pub proof fn lemma_digits_injective(a: nat, b: nat)
    requires
        digits_of(a) == digits_of(b),
    ensures
        a == b,
{
    lemma_digits_of(a);
    lemma_digits_of(b);
}

/// `String::push` appends one character to the end of the string.
pub assume_specification[ String::push ](s: &mut String, ch: char)
    ensures
        final(s)@ == old(s)@.push(ch),
;

fn digit(d: u8) -> (c: char)
    requires
        d < 10,
    ensures
        c == digit_char(d as nat),
{
    (48u8 + d) as char
}

/// Appends the decimal digits of `n`.
pub fn push_decimal(out: &mut String, n: u64)
    ensures
        final(out)@ == old(out)@ + digits_of(n as nat),
    decreases n,
{
    if n >= 10 {
        push_decimal(out, n / 10);
    }
    out.push(digit((n % 10) as u8));
    assert(out@ =~= old(out)@ + digits_of(n as nat));
}

/// Appends the last `width` decimal digits of `n`, with leading zeros.
pub fn push_padded(out: &mut String, n: u64, width: u8)
    ensures
        final(out)@ == old(out)@ + padded_digits(n as nat, width as nat),
    decreases width,
{
    if width > 0 {
        push_padded(out, n / 10, width - 1);
        out.push(digit((n % 10) as u8));
    }
    assert(out@ =~= old(out)@ + padded_digits(n as nat, width as nat));
}

/// Appends a count of millionths as a decimal fraction with six places.
pub fn push_fixed6(out: &mut String, millionths: u64)
    ensures
        final(out)@ == old(out)@ + fixed6(millionths as nat),
{
    push_decimal(out, millionths / 1_000_000);
    out.push('.');
    push_padded(out, millionths % 1_000_000, 6);
    assert(out@ =~= old(out)@ + fixed6(millionths as nat));
}

} // verus!
