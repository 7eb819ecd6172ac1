//! Characters and strings: Unicode white space, the alphanumeric test, and
//! building strings one character at a time.

use vstd::prelude::*;

verus! {

/// Unicode's `White_Space` property.
pub open spec fn is_whitespace(c: char) -> bool {
    let u = c as u32;
    ||| 0x09 <= u <= 0x0d
    ||| u == 0x20
    ||| u == 0x85
    ||| u == 0xa0
    ||| u == 0x1680
    ||| 0x2000 <= u <= 0x200a
    ||| u == 0x2028
    ||| u == 0x2029
    ||| u == 0x202f
    ||| u == 0x205f
    ||| u == 0x3000
}

/// Whether `c` has Unicode's `White_Space` property (as `char::is_whitespace`).
pub fn char_is_whitespace(c: char) -> (r: bool)
    ensures
        r == is_whitespace(c),
{
    let u = c as u32;
    (0x09 <= u && u <= 0x0d) || u == 0x20 || u == 0x85 || u == 0xa0 || u == 0x1680 || (0x2000 <= u
        && u <= 0x200a) || u == 0x2028 || u == 0x2029 || u == 0x202f || u == 0x205f || u == 0x3000
}

/// What `char::is_alphanumeric` answers for a character outside ASCII.
pub uninterp spec fn non_ascii_alphanumeric(c: char) -> bool;

/// An ASCII letter or digit.
pub open spec fn ascii_alphanumeric(c: char) -> bool {
    ||| 'a' <= c <= 'z'
    ||| 'A' <= c <= 'Z'
    ||| '0' <= c <= '9'
}

/// The logical symbols `¬`, `∨`, `⊃` and `→` (mathematical symbols in Unicode).
pub open spec fn logic_symbol(c: char) -> bool {
    c == '\u{ac}' || c == '\u{2228}' || c == '\u{2283}' || c == '\u{2192}'
}

/// What `char::is_alphanumeric` answers for `c`: on ASCII, whether it is a
/// letter or a digit; no white space and no logical symbol is alphanumeric.
pub open spec fn alphanumeric(c: char) -> bool {
    if (c as u32) < 0x80 {
        ascii_alphanumeric(c)
    } else {
        non_ascii_alphanumeric(c) && !is_whitespace(c) && !logic_symbol(c)
    }
}

/// Calls `char::is_alphanumeric`, which answers whether `c` has Unicode's
/// `Alphabetic` property or a numeric general category (Nd, Nl, No).  On
/// ASCII these are the letters and the digits.  White space (categories Zs,
/// Zl, Zp, Cc) and the logical symbols `¬ ∨ ⊃ →` (category Sm) have neither.
/// On the other characters the contract names the answer
/// `non_ascii_alphanumeric(c)` and says nothing more of it.
#[verifier::external_body]
pub fn char_is_alphanumeric(c: char) -> (r: bool)
    ensures
        (c as u32) < 0x80 ==> (r <==> ascii_alphanumeric(c)),
        (c as u32) >= 0x80 ==> r == non_ascii_alphanumeric(c),
        r ==> !is_whitespace(c),
        r ==> !logic_symbol(c),
{
    c.is_alphanumeric()
}

/// Calls `String::push`, which appends `c` to the end of `s`.
#[verifier::external_body]
pub fn push_char(s: &mut String, c: char)
    ensures
        final(s)@ == old(s)@.push(c),
{
    s.push(c);
}

/// The decimal digit for `d`.
pub open spec fn digit_char(d: int) -> char {
    (d + 48) as char
}

/// The decimal numeral of `n`, without leading zeros.
pub open spec fn decimal(n: nat) -> Seq<char>
    decreases n,
{
    if n < 10 {
        seq![digit_char(n as int)]
    } else {
        decimal(n / 10) + seq![digit_char((n % 10) as int)]
    }
}

/// Append the decimal numeral of `n` to `s`.
pub fn push_decimal(s: &mut String, n: u64)
    ensures
        final(s)@ == old(s)@ + decimal(n as nat),
{
    let mut digits: Vec<char> = Vec::new();
    let mut m: u64 = n;
    let ghost mut rest: Seq<char> = Seq::empty();
    // digits holds the numeral of n, least significant digit first, down to m
    while m >= 10
        invariant
            decimal(n as nat) == decimal(m as nat) + rest,
            digits@ == rest.reverse(),
        decreases m,
    {
        let d = (m % 10) as u8;
        let c = (d + 48) as char;
        proof {
            assert(c == digit_char((m % 10) as int));
            assert(decimal(m as nat) == decimal((m / 10) as nat) + seq![c]);
            assert(decimal(n as nat) == decimal((m / 10) as nat) + (seq![c] + rest));
            assert((seq![c] + rest).reverse() =~= rest.reverse().push(c));
            rest = seq![c] + rest;
        }
        digits.push(c);
        m = m / 10;
    }
    let c = ((m as u8) + 48) as char;
    proof {
        assert(decimal(m as nat) == seq![c]);
        assert((seq![c] + rest).reverse() =~= rest.reverse().push(c));
        rest = seq![c] + rest;
    }
    digits.push(c);
    // digits@ == decimal(n).reverse()
    let ghost start = s@;
    let mut i: usize = digits.len();
    while i > 0
        invariant
            i <= digits@.len(),
            digits@ == rest.reverse(),
            rest == decimal(n as nat),
            s@ == start + rest.subrange(0, digits@.len() - i),
        decreases i,
    {
        i = i - 1;
        proof {
            assert(digits@[i as int] == rest[digits@.len() - 1 - i]);
            assert(rest.subrange(0, digits@.len() - i) =~= rest.subrange(0, digits@.len() - 1 - i).push(rest[digits@.len() - 1 - i]));
        }
        push_char(s, digits[i]);
    }
    assert(rest.subrange(0, digits@.len() as int) =~= rest);
}

} // verus!
