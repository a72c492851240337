use vstd::prelude::*;

use thousands::Separable;

verus! {

/// The character of decimal digit `d`.
pub open spec fn digit_char(d: int) -> char {
    (48 + d) as u8 as char
}

/// The decimal digits of `n`, most significant first.
pub open spec fn decimal(n: nat) -> Seq<char>
    decreases n,
{
    if n < 10 {
        seq![digit_char(n as int)]
    } else {
        decimal(n / 10).push(digit_char((n % 10) as int))
    }
}

/// `s` with a space before every group of three characters counted from the
/// right, except at the very start.
pub open spec fn grouped(s: Seq<char>) -> Seq<char>
    decreases s.len(),
{
    if s.len() <= 3 {
        s
    } else {
        grouped(s.take(s.len() - 3)) + seq![' '] + s.skip(s.len() - 3)
    }
}

/// Relies on std's `FromIterator<&char>` for `String`: the string of the
/// given characters in order.
#[verifier::external_body]
pub(crate) fn string_of(chars: &Vec<char>) -> (r: String)
    ensures
        r@ == chars@,
{
    chars.iter().collect()
}

/// Relies on std's `char::from_u32`: the character with code `n`, which
/// exists exactly for codes outside the surrogate range up to `0x10FFFF`.
#[verifier::external_body]
pub(crate) fn char_from_u32(n: u32) -> (r: Option<char>)
    ensures
        r is Some <==> (n < 0xD800 || (0xE000 <= n && n <= 0x10FFFF)),
        r matches Some(c) ==> c as int == n,
{
    char::from_u32(n)
}

/// Relies on thousands' `Separable::separate_with_spaces`: the decimal digits
/// of `n` with a space between groups of three from the right.
#[verifier::external_body]
pub(crate) fn with_spaces(n: u64) -> (r: String)
    ensures
        r@ == grouped(decimal(n as nat)),
{
    n.separate_with_spaces()
}

/// Appends the characters of `s`.
pub(crate) fn push_str(out: &mut Vec<char>, s: &str)
    ensures
        final(out)@ == old(out)@ + s@,
{
    let n = s.unicode_len();
    let mut k: usize = 0;
    while k < n
        invariant
            0 <= k <= n,
            n == s@.len(),
            out@ == old(out)@ + s@.take(k as int),
        decreases n - k,
    {
        out.push(s.get_char(k));
        k = k + 1;
        assert(out@ =~= old(out)@ + s@.take(k as int));
    }
    assert(s@.take(n as int) =~= s@);
}

/// Appends the characters of `chars`.
pub(crate) fn push_chars(out: &mut Vec<char>, chars: &Vec<char>)
    ensures
        final(out)@ == old(out)@ + chars@,
{
    let n = chars.len();
    let mut k: usize = 0;
    while k < n
        invariant
            0 <= k <= n,
            n == chars@.len(),
            out@ == old(out)@ + chars@.take(k as int),
        decreases n - k,
    {
        out.push(chars[k]);
        k = k + 1;
        assert(out@ =~= old(out)@ + chars@.take(k as int));
    }
    assert(chars@.take(n as int) =~= chars@);
}

/// Appends the decimal digits of `n`.
pub(crate) fn push_decimal(out: &mut Vec<char>, n: u32)
    ensures
        final(out)@ == old(out)@ + decimal(n as nat),
    decreases n,
{
    if n >= 10 {
        push_decimal(out, n / 10);
    }
    let d: u8 = (n % 10) as u8;
    out.push((48 + d) as char);
    assert(out@ =~= old(out)@ + decimal(n as nat));
}

} // verus!
