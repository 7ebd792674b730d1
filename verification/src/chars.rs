//! Character-level utilities shared by the JSON codec and the date
//! parser: conversions between `String`/`&str` and `Vec<char>`, digit
//! helpers, and decimal rendering of counters.

use vstd::prelude::*;
use vstd::std_specs::iter::IteratorSpec;

verus! {

/// True on the ten ASCII decimal digits.
pub open spec fn is_digit(c: char) -> bool {
    '0' <= c && c <= '9'
}

/// Numeric value of an ASCII decimal digit.
pub open spec fn digit_val(c: char) -> int {
    c as int - '0' as int
}

/// The ASCII digit for a value below ten.
pub open spec fn digit_char(d: int) -> char
    recommends
        0 <= d <= 9,
{
    if d == 0 {
        '0'
    } else if d == 1 {
        '1'
    } else if d == 2 {
        '2'
    } else if d == 3 {
        '3'
    } else if d == 4 {
        '4'
    } else if d == 5 {
        '5'
    } else if d == 6 {
        '6'
    } else if d == 7 {
        '7'
    } else if d == 8 {
        '8'
    } else {
        '9'
    }
}

/// Decimal rendering of a natural number, most significant digit first.
pub open spec fn dec_str(n: nat) -> Seq<char>
    decreases n,
{
    if n < 10 {
        seq![digit_char(n as int)]
    } else {
        dec_str(n / 10).push(digit_char((n % 10) as int))
    }
}

/// Copies the characters of a string slice into a vector.
pub fn str_to_chars(s: &str) -> (r: Vec<char>)
    ensures
        r@ == s@,
{
    let mut it = s.chars();
    let mut r: Vec<char> = Vec::new();
    loop
        invariant
            it.obeys_prophetic_iter_laws(),
            it.decrease() is Some,
            r@ + it.remaining() == s@,
        ensures
            r@ == s@,
        decreases it.decrease()->0,
    {
        match it.next() {
            Some(c) => {
                r.push(c);
                proof {
                    assert(r@ + it.remaining() =~= s@);
                }
            },
            None => {
                proof {
                    assert(r@ =~= s@);
                }
                break ;
            },
        }
    }
    r
}

/// Relies on `String`'s `FromIterator<char>` implementation: collecting
/// an iterator of characters yields the string of exactly those
/// characters, in order.
#[verifier::external_body]
pub fn chars_to_string(v: &Vec<char>) -> (r: String)
    ensures
        r@ == v@,
{
    v.iter().collect()
}

/// Relies on `char::from_u32`: it returns `Some` exactly on Unicode
/// scalar values (code points outside the surrogate range), and the
/// returned character is that code point.
#[verifier::external_body]
pub fn char_from_u32(v: u32) -> (r: Option<char>)
    ensures
        r is Some <==> (v < 0xD800 || (0xE000 <= v && v <= 0x10FFFF)),
        r is Some ==> r->0 as u32 == v,
{
    char::from_u32(v)
}

pub proof fn lemma_digit_code(c: char, d: int)
    requires
        0 <= d <= 9,
        c as u32 == 48 + d,
    ensures
        c == digit_char(d),
{
}

/// Appends the decimal rendering of `n` to a character vector.
pub fn push_dec(out: &mut Vec<char>, n: usize)
    ensures
        final(out)@ == old(out)@ + dec_str(n as nat),
    decreases n,
{
    if n >= 10 {
        push_dec(out, n / 10);
    }
    let d = (n % 10) as u32;
    match char_from_u32(48 + d) {
        Some(c) => {
            proof {
                lemma_digit_code(c, (n % 10) as int);
            }
            out.push(c);
            proof {
                if n < 10 {
                    assert(out@ =~= old(out)@ + dec_str(n as nat));
                } else {
                    assert(out@ =~= old(out)@ + dec_str(n as nat));
                }
            }
        },
        None => {
            proof {
                assert(false);
            }
        },
    }
}

/// Renders a counter in decimal, for the migration summary.
pub fn dec_string(n: usize) -> (r: String)
    ensures
        r@ == dec_str(n as nat),
{
    let mut out: Vec<char> = Vec::new();
    push_dec(&mut out, n);
    proof {
        assert(out@ =~= dec_str(n as nat));
    }
    chars_to_string(&out)
}

} // verus!
