//! Renderings of characters, strings and numbers used in messages.
use vstd::prelude::*;

verus! {

/// The decimal digit for `d`.
pub open spec fn digit_char(d: int) -> char {
    if d == 0 {
        '0'
    } else if d == 1 {
        '1'
    } else if d == 2 {
        '2'
    } else if d == 3 {
        '3'
    } else if d == 4 {
        '4'
    } else if d == 5 {
        '5'
    } else if d == 6 {
        '6'
    } else if d == 7 {
        '7'
    } else if d == 8 {
        '8'
    } else {
        '9'
    }
}

/// The decimal numeral of `n`, without leading zeros.
pub open spec fn decimal(n: nat) -> Seq<char>
    decreases n,
{
    if n < 10 {
        seq![digit_char(n as int)]
    } else {
        decimal(n / 10).push(digit_char((n % 10) as int))
    }
}

/// What `{:?}` prints for a character (quoted and escaped).
pub uninterp spec fn char_debug(c: char) -> Seq<char>;

/// What `{:?}` prints for a string (quoted and escaped).
pub uninterp spec fn str_debug(s: Seq<char>) -> Seq<char>;

/// `format!("{:?}", ch)`.
#[verifier::external_body]
pub(crate) fn debug_char(ch: char) -> (r: String)
    ensures
        r@ == char_debug(ch),
{
    format!("{ch:?}")
}

/// `format!("{:?}", s)`.
#[verifier::external_body]
pub(crate) fn debug_str(s: &str) -> (r: String)
    ensures
        r@ == str_debug(s@),
{
    format!("{s:?}")
}

/// The decimal digit character for `d`.
fn digit_of(d: u128) -> (r: char)
    requires
        d < 10,
    ensures
        r == digit_char(d as int),
{
    if d == 0 {
        '0'
    } else if d == 1 {
        '1'
    } else if d == 2 {
        '2'
    } else if d == 3 {
        '3'
    } else if d == 4 {
        '4'
    } else if d == 5 {
        '5'
    } else if d == 6 {
        '6'
    } else if d == 7 {
        '7'
    } else if d == 8 {
        '8'
    } else {
        '9'
    }
}

/// The decimal numeral of a `u128`, as `format!("{}", n)` writes it.
pub(crate) fn display_u128(n: u128) -> (r: String)
    ensures
        r@ == decimal(n as nat),
    decreases n,
{
    if n < 10 {
        char_text(digit_of(n))
    } else {
        let mut out = display_u128(n / 10);
        let last = char_text(digit_of(n % 10));
        out.append(last.as_str());
        proof {
            assert(decimal(n as nat) == decimal((n / 10) as nat).push(digit_char((n % 10) as int)));
            assert(out@ =~= decimal(n as nat));
        }
        out
    }
}

/// The decimal numeral of a `usize`, as `format!("{}", n)` writes it.
pub(crate) fn display_usize(n: usize) -> (r: String)
    ensures
        r@ == decimal(n as nat),
{
    display_u128(n as u128)
}

/// The decimal numeral of a `u64`, as `format!("{}", n)` writes it.
pub(crate) fn display_u64(n: u64) -> (r: String)
    ensures
        r@ == decimal(n as nat),
{
    display_u128(n as u128)
}

/// `char::to_string`: a string holding just `ch`.
#[verifier::external_body]
pub(crate) fn char_text(ch: char) -> (r: String)
    ensures
        r@ == seq![ch],
{
    ch.to_string()
}

/// `a`, then `b`, then `c`.
pub fn concat3(a: &str, b: &str, c: &str) -> (r: String)
    ensures
        r@ == a@ + b@ + c@,
{
    let mut out = a.to_owned();
    out.append(b);
    out.append(c);
    out
}

} // verus!
