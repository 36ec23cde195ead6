//! Building text one piece at a time.

use vstd::prelude::*;

verus! {

/// `String::push`: appends one character to the end of the string.
#[verifier::external_body]
pub(crate) fn push_char(text: &mut String, c: char)
    ensures
        final(text)@ == old(text)@.push(c),
{
    text.push(c)
}

/// `String::push_str`: appends a string slice to the end of the string.
#[verifier::external_body]
pub(crate) fn push_text(text: &mut String, tail: &str)
    ensures
        final(text)@ == old(text)@ + tail@,
{
    text.push_str(tail)
}

/// The character of a decimal digit.
pub open spec fn digit(d: nat) -> char
    recommends
        d < 10,
{
    (48 + d) as u8 as char
}

pub open spec fn is_digit(c: char) -> bool {
    48 <= c as u32 <= 57
}

/// The decimal numeral of `n`, without leading zeros.
pub open spec fn decimal(n: nat) -> Seq<char>
    decreases n,
{
    if n < 10 {
        seq![digit(n)]
    } else {
        decimal(n / 10).push(digit(n % 10))
    }
}

/// The number that a decimal numeral stands for.
pub open spec fn decimal_value(s: Seq<char>) -> nat
    decreases s.len(),
{
    if s.len() == 0 {
        0
    } else {
        (decimal_value(s.drop_last()) * 10 + (s.last() as u32 - 48)) as nat
    }
}

pub open spec fn all_digits(s: Seq<char>) -> bool {
    forall|i: int| 0 <= i < s.len() ==> is_digit(#[trigger] s[i])
}

/// Whether a text is free of the NUL character, which ends a name on many
/// platforms and so cannot stand inside one.
pub open spec fn no_nul(s: Seq<char>) -> bool {
    forall|i: int| 0 <= i < s.len() ==> (#[trigger] s[i]) != '\0'
}

/// A numeral is not empty, holds digits only, and stands for its number.
pub proof fn lemma_decimal(n: nat)
    ensures
        decimal(n).len() >= 1,
        all_digits(decimal(n)),
        decimal_value(decimal(n)) == n,
    decreases n,
{
    if n < 10 {
        let s = decimal(n);
        assert(s.drop_last() =~= Seq::<char>::empty());
        assert(decimal_value(s.drop_last()) == 0);
        assert(s.last() == digit(n));
    } else {
        lemma_decimal(n / 10);
        let front = decimal(n / 10);
        let s = decimal(n);
        assert(s.drop_last() =~= front);
        assert(s.last() == digit(n % 10));
        assert forall|i: int| 0 <= i < s.len() implies is_digit(#[trigger] s[i]) by {
            if i < front.len() {
                assert(s[i] == front[i]);
            }
        }
    }
}

/// Different numbers have different numerals.
pub proof fn lemma_decimal_injective(n: nat, m: nat)
    requires
        decimal(n) == decimal(m),
    ensures
        n == m,
{
    lemma_decimal(n);
    lemma_decimal(m);
}

/// Where two texts each begin with a numeral followed by the same character
/// that is no digit, and the texts are equal, the numerals are equal and so
/// is what follows the separator.
pub proof fn lemma_split_at_separator(
    x: Seq<char>,
    y: Seq<char>,
    sep: char,
    r: Seq<char>,
    t: Seq<char>,
)
    requires
        all_digits(x),
        all_digits(y),
        !is_digit(sep),
        x.push(sep) + r == y.push(sep) + t,
    ensures
        x == y,
        r == t,
{
    let w = x.push(sep) + r;
    let v = y.push(sep) + t;
    assert(w.len() == x.len() + 1 + r.len());
    assert(v.len() == y.len() + 1 + t.len());
    if x.len() < y.len() {
        assert(w[x.len() as int] == sep);
        assert(v[x.len() as int] == y[x.len() as int]);
        assert(false);
    }
    if y.len() < x.len() {
        assert(v[y.len() as int] == sep);
        assert(w[y.len() as int] == x[y.len() as int]);
        assert(false);
    }
    assert(x =~= y) by {
        assert forall|i: int| 0 <= i < x.len() implies x[i] == y[i] by {
            assert(w[i] == x[i]);
            assert(v[i] == y[i]);
        }
    }
    assert(r =~= t) by {
        assert forall|i: int| 0 <= i < r.len() implies r[i] == t[i] by {
            assert(w[x.len() + 1 + i] == r[i]);
            assert(v[y.len() + 1 + i] == t[i]);
        }
    }
}

/// Appends the decimal numeral of `n` to `text`.
pub fn push_decimal(text: &mut String, n: u16)
    ensures
        final(text)@ == old(text)@ + decimal(n as nat),
    decreases n,
{
    if n >= 10 {
        push_decimal(text, n / 10);
    }
    let d: u8 = (n % 10) as u8;
    push_char(text, (48 + d) as char);
    assert(text@ =~= old(text)@ + decimal(n as nat));
}

} // verus!
