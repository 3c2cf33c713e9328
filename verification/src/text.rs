//! Building text: characters, decimal numbers.
use vstd::prelude::*;

verus! {

/// Wraps `String::push`: the character is appended.
#[verifier::external_body]
pub fn push_char(s: &mut String, c: char)
    ensures
        final(s)@ == old(s)@.push(c),
{
    s.push(c)
}

/// Appends the characters of `t`.
pub fn push_str(s: &mut String, t: &str)
    ensures
        final(s)@ == old(s)@ + t@,
{
    s.append(t)
}

/// The character of a decimal digit.
pub open spec fn digit_char(d: int) -> char {
    (d + 48) as char
}

/// The decimal digits of a natural number, most significant first.
pub open spec fn digits(n: nat) -> Seq<char>
    decreases n,
{
    if n < 10 {
        seq![digit_char(n as int)]
    } else {
        digits(n / 10).push(digit_char((n % 10) as int))
    }
}

/// The decimal text of an integer: a `-` before the digits of a negative one.
pub open spec fn decimal(n: int) -> Seq<char> {
    if n < 0 {
        seq!['-'] + digits((-n) as nat)
    } else {
        digits(n as nat)
    }
}

/// Appends the decimal digits of `u`.
fn push_digits(s: &mut String, u: u128)
    ensures
        final(s)@ == old(s)@ + digits(u as nat),
    decreases u,
{
    if u >= 10 {
        push_digits(s, u / 10);
    }
    let d = (u % 10) as u8;
    let c = (48u8 + d) as char;
    assert(c == digit_char((u % 10) as int));
    push_char(s, c);
    proof {
        if u < 10 {
            assert(old(s)@ + digits(u as nat) =~= old(s)@.push(c));
        } else {
            assert(old(s)@ + digits(u as nat) =~= (old(s)@ + digits((u / 10) as nat)).push(c));
        }
    }
}

/// Appends the decimal text of `n`.
pub fn push_decimal(s: &mut String, n: isize)
    ensures
        final(s)@ == old(s)@ + decimal(n as int),
{
    let m: i128 = n as i128;
    if m < 0 {
        push_char(s, '-');
        let u: u128 = (0 - m) as u128;
        push_digits(s, u);
        assert(old(s)@ + decimal(n as int) =~= old(s)@.push('-') + digits(u as nat));
    } else {
        let u: u128 = m as u128;
        push_digits(s, u);
    }
}

} // verus!
