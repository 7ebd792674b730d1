//! The zoom-level preference: a decimal number kept in its own JSON
//! file and held to the closed range `[0.5, 3.0]`.
//!
//! The core never computes with floating point. A zoom value travels
//! as the text of a JSON numeral (the caller renders its number to
//! text and parses text back); the range check, the clamp and the
//! defaulting are verified exactly against the rational value
//! `mantissa * 10^exponent` that the text denotes. Saving rejects
//! text that is not a JSON numeral (which is how a caller's NaN or
//! infinity arrives here), clamps finite values into the range, and
//! keeps in-range values exactly as given. Loading coerces anything
//! unusable — a missing member, a non-number, an out-of-range value —
//! to the default `1.0`; only a file that is not JSON at all is an
//! error.

use vstd::prelude::*;
use vstd::arithmetic::power::{
    pow, lemma_pow_positive, lemma_pow_adds, lemma_pow_strictly_increases, lemma_pow_increases,
};
use crate::StoreError;
use crate::chars::{is_digit, digit_val};
use crate::json::{Json, JsonV, ser_value, parse_text, take_digits, obj_get_last, p_number};
use crate::stamp::digits_val;

verus! {

pub open spec fn pow10(n: nat) -> int {
    pow(10, n)
}

// ------------------------------------------------------------------
// The components of a JSON numeral text
// ------------------------------------------------------------------
pub open spec fn num_neg(t: Seq<char>) -> bool {
    t.len() > 0 && t[0] == '-'
}

pub open spec fn num_body(t: Seq<char>) -> Seq<char> {
    if num_neg(t) {
        t.drop_first()
    } else {
        t
    }
}

pub open spec fn num_int(t: Seq<char>) -> Seq<char> {
    take_digits(num_body(t)).0
}

pub open spec fn num_after_int(t: Seq<char>) -> Seq<char> {
    take_digits(num_body(t)).1
}

pub open spec fn num_frac(t: Seq<char>) -> Seq<char> {
    let a = num_after_int(t);
    if a.len() >= 1 && a[0] == '.' {
        take_digits(a.drop_first()).0
    } else {
        Seq::empty()
    }
}

pub open spec fn num_after_frac(t: Seq<char>) -> Seq<char> {
    let a = num_after_int(t);
    if a.len() >= 1 && a[0] == '.' {
        take_digits(a.drop_first()).1
    } else {
        a
    }
}

/// The written exponent, as a signed integer.
pub open spec fn num_exp(t: Seq<char>) -> int {
    let a = num_after_frac(t);
    if a.len() >= 1 && (a[0] == 'e' || a[0] == 'E') {
        if a.len() >= 2 && a[1] == '-' {
            -digits_val(take_digits(a.skip(2)).0)
        } else if a.len() >= 2 && a[1] == '+' {
            digits_val(take_digits(a.skip(2)).0)
        } else {
            digits_val(take_digits(a.drop_first()).0)
        }
    } else {
        0
    }
}

/// All digits of the numeral, integer part then fraction.
pub open spec fn mantissa(t: Seq<char>) -> Seq<char> {
    num_int(t) + num_frac(t)
}

/// The numeral denotes `digits_val(mantissa(t)) * 10^exp10(t)` (times
/// the sign).
pub open spec fn exp10(t: Seq<char>) -> int {
    num_exp(t) - num_frac(t).len()
}

// ------------------------------------------------------------------
// The range, on the rational value the text denotes
// ------------------------------------------------------------------
/// Is `m * 10^e` at least one half?
pub open spec fn ge_half_val(m: int, e: int) -> bool {
    if e >= 0 {
        2 * m * pow10(e as nat) >= 1
    } else {
        2 * m >= pow10((-e) as nat)
    }
}

/// Is `m * 10^e` at most three?
pub open spec fn le_three_val(m: int, e: int) -> bool {
    if e >= 0 {
        m * pow10(e as nat) <= 3
    } else {
        m <= 3 * pow10((-e) as nat)
    }
}

/// Is the denoted (non-negative) value at least one half?
pub open spec fn zoom_ge_half(t: Seq<char>) -> bool {
    ge_half_val(digits_val(mantissa(t)), exp10(t))
}

/// Is the denoted (non-negative) value at most three?
pub open spec fn zoom_le_three(t: Seq<char>) -> bool {
    le_three_val(digits_val(mantissa(t)), exp10(t))
}

/// Does the numeral denote a value within `[0.5, 3.0]`?
pub open spec fn zoom_text_in_range(t: Seq<char>) -> bool {
    &&& !num_neg(t)
    &&& zoom_ge_half(t)
    &&& zoom_le_three(t)
}

/// The fixed bounds and the default, as canonical numerals.
pub open spec fn min_zoom_text() -> Seq<char> {
    seq!['0', '.', '5']
}

pub open spec fn max_zoom_text() -> Seq<char> {
    seq!['3', '.', '0']
}

pub open spec fn default_zoom_text() -> Seq<char> {
    seq!['1', '.', '0']
}

/// Is the whole text exactly one JSON numeral?
pub open spec fn is_number_text(t: Seq<char>) -> bool {
    p_number(t) == Some((t, Seq::<char>::empty()))
}

/// What saving stores: the text itself when in range, else the nearer
/// bound.
pub open spec fn zoom_clamped(t: Seq<char>) -> Seq<char> {
    if zoom_text_in_range(t) {
        t
    } else if num_neg(t) || !zoom_ge_half(t) {
        min_zoom_text()
    } else {
        max_zoom_text()
    }
}

// ------------------------------------------------------------------
// Digit-value arithmetic
// ------------------------------------------------------------------
/// The leading digit carries a power of ten.
proof fn lemma_digits_decomp(s: Seq<char>)
    requires
        s.len() >= 1,
    ensures
        digits_val(s) == digit_val(s[0]) * pow10((s.len() - 1) as nat) + digits_val(
            s.drop_first(),
        ),
    decreases s.len(),
{
    if s.len() == 1 {
        assert(s.drop_last() =~= Seq::<char>::empty());
        assert(s.drop_first() =~= Seq::<char>::empty());
        assert(pow10(0) == 1) by {
            vstd::arithmetic::power::lemma_pow0(10);
        }
    } else {
        let b = s.drop_last();
        lemma_digits_decomp(b);
        assert(b.drop_first() =~= s.drop_first().drop_last());
        assert(b[0] == s[0]);
        assert(digits_val(s) == digits_val(b) * 10 + digit_val(s.last()));
        assert(digits_val(s.drop_first()) == digits_val(s.drop_first().drop_last()) * 10
            + digit_val(s.drop_first().last()));
        assert(s.drop_first().last() == s.last());
        assert(pow10((s.len() - 1) as nat) == 10 * pow10((s.len() - 2) as nat)) by {
            lemma_pow_adds(10, 1, (s.len() - 2) as nat);
            vstd::arithmetic::power::lemma_pow1(10);
        }
        assert((digit_val(s[0]) * pow10((s.len() - 2) as nat) + digits_val(s.drop_first().drop_last()))
            * 10 == digit_val(s[0]) * (10 * pow10((s.len() - 2) as nat)) + digits_val(
            s.drop_first().drop_last(),
        ) * 10) by (nonlinear_arith);
    }
}

pub open spec fn all_digits(s: Seq<char>) -> bool {
    forall|i: int| 0 <= i < s.len() ==> is_digit(#[trigger] s[i])
}

/// A digit string's value lies below the power of ten of its length.
proof fn lemma_digits_bounds(s: Seq<char>)
    requires
        all_digits(s),
    ensures
        0 <= digits_val(s) < pow10(s.len()),
    decreases s.len(),
{
    if s.len() == 0 {
        assert(pow10(0) == 1) by {
            vstd::arithmetic::power::lemma_pow0(10);
        }
    } else {
        let b = s.drop_last();
        assert(all_digits(b)) by {
            assert(forall|i: int| 0 <= i < b.len() ==> b[i] == s[i]);
        }
        lemma_digits_bounds(b);
        assert(is_digit(s.last()));
        assert(0 <= digit_val(s.last()) <= 9);
        assert(pow10(s.len()) == 10 * pow10((s.len() - 1) as nat)) by {
            lemma_pow_adds(10, 1, (s.len() - 1) as nat);
            vstd::arithmetic::power::lemma_pow1(10);
        }
        assert(digits_val(b) * 10 + digit_val(s.last()) < 10 * pow10((s.len() - 1) as nat)) by (
        nonlinear_arith)
            requires
                0 <= digits_val(b) < pow10((s.len() - 1) as nat),
                0 <= digit_val(s.last()) <= 9,
        ;
    }
}

/// With a nonzero leading digit, the value is pinned between two
/// adjacent multiples of the length's power of ten.
proof fn lemma_digits_lead(s: Seq<char>)
    requires
        all_digits(s),
        s.len() >= 1,
    ensures
        digit_val(s[0]) * pow10((s.len() - 1) as nat) <= digits_val(s) < (digit_val(s[0]) + 1)
            * pow10((s.len() - 1) as nat),
{
    lemma_digits_decomp(s);
    assert(all_digits(s.drop_first())) by {
        assert(forall|i: int| 0 <= i < s.drop_first().len() ==> s.drop_first()[i] == s[i + 1]);
    }
    lemma_digits_bounds(s.drop_first());
    assert((digit_val(s[0]) + 1) * pow10((s.len() - 1) as nat) == digit_val(s[0]) * pow10(
        (s.len() - 1) as nat,
    ) + pow10((s.len() - 1) as nat)) by (nonlinear_arith);
}

/// Leading zeros do not change the value.
proof fn lemma_digits_strip_zeros(s: Seq<char>, k: int)
    requires
        0 <= k <= s.len(),
        forall|i: int| 0 <= i < k ==> s[i] == '0',
    ensures
        digits_val(s) == digits_val(s.skip(k)),
    decreases k,
{
    if k > 0 {
        lemma_digits_decomp(s);
        assert(digit_val(s[0]) == 0);
        assert(digit_val(s[0]) * pow10((s.len() - 1) as nat) == 0) by (nonlinear_arith)
            requires
                digit_val(s[0]) == 0,
        ;
        assert(forall|i: int| 0 <= i < k - 1 ==> s.drop_first()[i] == s[i + 1]);
        lemma_digits_strip_zeros(s.drop_first(), k - 1);
        assert(s.drop_first().skip(k - 1) =~= s.skip(k));
    } else {
        assert(s.skip(0) =~= s);
    }
}

/// A string of zeros has value zero, and conversely.
proof fn lemma_digits_zero(s: Seq<char>)
    requires
        all_digits(s),
    ensures
        (digits_val(s) == 0) == (forall|i: int| 0 <= i < s.len() ==> s[i] == '0'),
    decreases s.len(),
{
    if s.len() > 0 {
        lemma_digits_decomp(s);
        let rest = s.drop_first();
        assert(all_digits(rest)) by {
            assert(forall|i: int| 0 <= i < rest.len() ==> rest[i] == s[i + 1]);
        }
        lemma_digits_zero(rest);
        lemma_digits_bounds(rest);
        lemma_pow_positive(10, (s.len() - 1) as nat);
        assert(digit_val(s[0]) >= 1 ==> digit_val(s[0]) * pow10((s.len() - 1) as nat) >= pow10(
            (s.len() - 1) as nat,
        )) by (nonlinear_arith)
            requires
                pow10((s.len() - 1) as nat) > 0,
        ;
        assert(digit_val(s[0]) == 0 ==> digit_val(s[0]) * pow10((s.len() - 1) as nat) == 0) by (
        nonlinear_arith);
        if digits_val(s) == 0 {
            assert(s[0] == '0');
            assert(forall|i: int| 1 <= i < s.len() ==> s[i] == rest[i - 1]);
        } else {
            if forall|i: int| 0 <= i < s.len() ==> s[i] == '0' {
                assert(s[0] == '0');
                assert(forall|i: int| 0 <= i < rest.len() ==> rest[i] == s[i + 1]);
                assert(digits_val(rest) == 0);
                assert(false);
            }
        }
    }
}

// ------------------------------------------------------------------
// Classifying a value by its leading significant digit
// ------------------------------------------------------------------
/// A value of zero lies below the range.
proof fn lemma_class_zero(e: int)
    ensures
        !ge_half_val(0, e),
{
    if e >= 0 {
        assert(2 * 0 * pow10(e as nat) == 0) by (nonlinear_arith);
    } else {
        lemma_pow_positive(10, (-e) as nat);
    }
}

/// With scientific exponent at least one, the value exceeds three.
proof fn lemma_class_above(sig: Seq<char>, e: int)
    requires
        all_digits(sig),
        sig.len() >= 1,
        digit_val(sig[0]) >= 1,
        sig.len() - 1 + e >= 1,
    ensures
        !le_three_val(digits_val(sig), e),
        ge_half_val(digits_val(sig), e),
{
    let n = sig.len() as int;
    let m = digits_val(sig);
    let p1 = pow10((n - 1) as nat);
    lemma_digits_lead(sig);
    lemma_pow_positive(10, (n - 1) as nat);
    assert(m >= p1) by (nonlinear_arith)
        requires
            m >= digit_val(sig[0]) * p1,
            digit_val(sig[0]) >= 1,
            p1 > 0,
    ;
    if e >= 0 {
        lemma_pow_adds(10, (n - 1) as nat, e as nat);
        lemma_pow_positive(10, e as nat);
        assert(pow10((n - 1 + e) as nat) >= pow10(1)) by {
            if n - 1 + e > 1 {
                lemma_pow_strictly_increases(10, 1, (n - 1 + e) as nat);
            }
        }
        assert(pow10(1) == 10) by {
            vstd::arithmetic::power::lemma_pow1(10);
        }
        assert(m * pow10(e as nat) >= p1 * pow10(e as nat)) by (nonlinear_arith)
            requires
                m >= p1,
                pow10(e as nat) > 0,
        ;
        assert(m * pow10(e as nat) >= 10);
        assert(2 * m * pow10(e as nat) >= 1) by (nonlinear_arith)
            requires
                m * pow10(e as nat) >= 10,
        ;
    } else {
        let q = pow10((-e) as nat);
        lemma_pow_positive(10, (-e) as nat);
        lemma_pow_adds(10, 1, (-e) as nat);
        assert(pow10(1) == 10) by {
            vstd::arithmetic::power::lemma_pow1(10);
        }
        assert(pow10(((-e) + 1) as nat) == 10 * q);
        assert(p1 >= 10 * q) by {
            if n - 1 > -e + 1 {
                lemma_pow_strictly_increases(10, ((-e) + 1) as nat, (n - 1) as nat);
            }
        }
        assert(m > 3 * q) by (nonlinear_arith)
            requires
                m >= p1,
                p1 >= 10 * q,
                q > 0,
        ;
        assert(2 * m >= q) by (nonlinear_arith)
            requires
                m > 3 * q,
                q > 0,
        ;
    }
}

/// With scientific exponent at most minus two, the value falls below
/// one half.
proof fn lemma_class_below(sig: Seq<char>, e: int)
    requires
        all_digits(sig),
        sig.len() >= 1,
        sig.len() - 1 + e <= -2,
    ensures
        !ge_half_val(digits_val(sig), e),
{
    let n = sig.len() as int;
    let m = digits_val(sig);
    lemma_digits_bounds(sig);
    assert(e <= -2 - (n - 1));
    assert(e < 0);
    let q = pow10((-e) as nat);
    lemma_pow_adds(10, 1, n as nat);
    assert(pow10(1) == 10) by {
        vstd::arithmetic::power::lemma_pow1(10);
    }
    assert(pow10((n + 1) as nat) == 10 * pow10(n as nat));
    assert(q >= pow10((n + 1) as nat)) by {
        if -e > n + 1 {
            lemma_pow_strictly_increases(10, (n + 1) as nat, (-e) as nat);
        }
    }
    lemma_pow_positive(10, n as nat);
    assert(2 * m < q) by (nonlinear_arith)
        requires
            0 <= m < pow10(n as nat),
            q >= 10 * pow10(n as nat),
            pow10(n as nat) > 0,
    ;
}

/// With scientific exponent zero, the value is at least one half, and
/// it is at most three exactly when the leading digit says so.
proof fn lemma_class_unit(sig: Seq<char>, e: int)
    requires
        all_digits(sig),
        sig.len() >= 1,
        digit_val(sig[0]) >= 1,
        sig.len() - 1 + e == 0,
    ensures
        ge_half_val(digits_val(sig), e),
        le_three_val(digits_val(sig), e) == (digit_val(sig[0]) < 3 || (digit_val(sig[0]) == 3
            && digits_val(sig.drop_first()) == 0)),
{
    let n = sig.len() as int;
    let m = digits_val(sig);
    let d1 = digit_val(sig[0]);
    let p1 = pow10((n - 1) as nat);
    lemma_digits_decomp(sig);
    assert(all_digits(sig.drop_first())) by {
        assert(forall|i: int| 0 <= i < sig.drop_first().len() ==> sig.drop_first()[i] == sig[i
            + 1]);
    }
    lemma_digits_bounds(sig.drop_first());
    lemma_pow_positive(10, (n - 1) as nat);
    let r = digits_val(sig.drop_first());
    assert(m == d1 * p1 + r);
    if e == 0 {
        assert(n == 1);
        assert(pow10(0) == 1) by {
            vstd::arithmetic::power::lemma_pow0(10);
        }
        assert(sig.drop_first() =~= Seq::<char>::empty());
        assert(m == d1);
        assert(2 * m * pow10(0) == 2 * m) by (nonlinear_arith)
            requires
                pow10(0) == 1,
        ;
        assert(m * pow10(0) == m) by (nonlinear_arith)
            requires
                pow10(0) == 1,
        ;
    } else {
        assert(e == 1 - n < 0);
        assert((-e) as nat == (n - 1) as nat);
        // at least one half: 2m >= 2*p1 >= p1
        assert(2 * m >= p1) by (nonlinear_arith)
            requires
                m == d1 * p1 + r,
                d1 >= 1,
                r >= 0,
                p1 > 0,
        ;
        // at most three <==> leading-digit condition
        if d1 < 3 {
            assert(m <= 3 * p1) by (nonlinear_arith)
                requires
                    m == d1 * p1 + r,
                    d1 <= 2,
                    0 <= r < p1,
                    p1 > 0,
            ;
        } else if d1 == 3 {
            assert((m <= 3 * p1) == (r == 0)) by (nonlinear_arith)
                requires
                    m == 3 * p1 + r,
                    0 <= r < p1,
                    p1 > 0,
            ;
        } else {
            assert(!(m <= 3 * p1)) by (nonlinear_arith)
                requires
                    m == d1 * p1 + r,
                    d1 >= 4,
                    r >= 0,
                    p1 > 0,
            ;
        }
    }
}

/// With scientific exponent minus one, the value is at most three, and
/// it is at least one half exactly when the leading digit is five or
/// more.
proof fn lemma_class_tenth(sig: Seq<char>, e: int)
    requires
        all_digits(sig),
        sig.len() >= 1,
        digit_val(sig[0]) >= 1,
        sig.len() - 1 + e == -1,
    ensures
        le_three_val(digits_val(sig), e),
        ge_half_val(digits_val(sig), e) == (digit_val(sig[0]) >= 5),
{
    let n = sig.len() as int;
    let m = digits_val(sig);
    let d1 = digit_val(sig[0]);
    let p1 = pow10((n - 1) as nat);
    lemma_digits_lead(sig);
    lemma_digits_bounds(sig);
    lemma_pow_positive(10, (n - 1) as nat);
    assert(e == -n < 0);
    let q = pow10(n as nat);
    lemma_pow_adds(10, 1, (n - 1) as nat);
    assert(pow10(1) == 10) by {
        vstd::arithmetic::power::lemma_pow1(10);
    }
    assert(q == 10 * p1);
    // at most three: m < 10*p1 = q <= 3q
    assert(m <= 3 * q) by (nonlinear_arith)
        requires
            0 <= m < q,
            q > 0,
    ;
    if d1 >= 5 {
        assert(2 * m >= q) by (nonlinear_arith)
            requires
                m >= d1 * p1,
                d1 >= 5,
                p1 > 0,
                q == 10 * p1,
        ;
    } else {
        assert(!(2 * m >= q)) by (nonlinear_arith)
            requires
                m < (d1 + 1) * p1,
                d1 <= 4,
                p1 > 0,
                q == 10 * p1,
        ;
    }
}

// ------------------------------------------------------------------
// Executable classification
// ------------------------------------------------------------------
/// First position in `v[a..b]` that is not `'0'`.
fn find_nonzero(v: &Vec<char>, a: usize, b: usize) -> (r: Option<usize>)
    requires
        a <= b <= v@.len(),
    ensures
        match r {
            Some(i) => a <= i < b && v@[i as int] != '0' && (forall|j: int|
                a <= j < i ==> v@[j] == '0'),
            None => forall|j: int| a <= j < b ==> v@[j] == '0',
        },
{
    let mut k: usize = a;
    while k < b
        invariant
            a <= k <= b <= v@.len(),
            forall|j: int| a <= j < k ==> v@[j] == '0',
        decreases b - k,
    {
        if v[k] != '0' {
            return Some(k);
        }
        k = k + 1;
    }
    None
}

/// Value of a short digit run, exactly.
fn digits_value_u128(v: &Vec<char>, a: usize, b: usize) -> (r: u128)
    requires
        a <= b <= v@.len(),
        b - a <= 20,
        forall|i: int| a <= i < b ==> is_digit(#[trigger] v@[i]),
    ensures
        r == digits_val(v@.subrange(a as int, b as int)),
        r < pow10(20),
{
    proof {
        reveal_with_fuel(pow, 21);
        assert(pow10(20) == 100000000000000000000);
    }
    let mut acc: u128 = 0;
    let mut k: usize = a;
    proof {
        assert(v@.subrange(a as int, a as int) =~= Seq::<char>::empty());
        lemma_digits_bounds(v@.subrange(a as int, a as int));
    }
    while k < b
        invariant
            a <= k <= b <= v@.len(),
            b - a <= 20,
            forall|i: int| a <= i < b ==> is_digit(#[trigger] v@[i]),
            acc == digits_val(v@.subrange(a as int, k as int)),
            acc < pow10((k - a) as nat),
            pow10(20) == 100000000000000000000,
        decreases b - k,
    {
        let c = v[k];
        let d = (c as u32) - 48;
        proof {
            let pre = v@.subrange(a as int, k as int);
            let cur = v@.subrange(a as int, k + 1 as int);
            assert(cur.drop_last() =~= pre);
            assert(digits_val(cur) == digits_val(pre) * 10 + digit_val(c));
            assert(all_digits(cur)) by {
                assert(forall|i: int| 0 <= i < cur.len() ==> cur[i] == v@[a + i]);
            }
            lemma_digits_bounds(cur);
            assert(pow10((k + 1 - a) as nat) <= pow10(20)) by {
                lemma_pow_increases(10, (k + 1 - a) as nat, 20);
            }
            assert(cur.len() == k + 1 - a);
        }
        acc = acc * 10 + (d as u128);
        k = k + 1;
    }
    proof {
        assert(pow10((k - a) as nat) <= pow10(20)) by {
            lemma_pow_increases(10, (k - a) as nat, 20);
        }
    }
    acc
}

/// Reads the exponent marker that starts at `f_end`, reporting its
/// sign and its magnitude — exactly when small, or as "at least ten to
/// the twentieth" when written with more significant digits than that.
#[verifier::rlimit(100)]
#[verifier::spinoff_prover]
fn zoom_exponent(v: &Vec<char>, f_end: usize) -> (r: (bool, bool, u128))
    requires
        f_end <= v@.len(),
        num_after_frac(v@) == v@.skip(f_end as int),
    ensures
        ({
            let (neg, sat, val) = r;
            &&& (sat && neg ==> num_exp(v@) <= -pow10(20))
            &&& (sat && !neg ==> num_exp(v@) >= pow10(20))
            &&& (!sat ==> val < pow10(20) && num_exp(v@) == (if neg {
                -(val as int)
            } else {
                val as int
            }))
        }),
{
    let ghost t = v@;
    let ghost a = num_after_frac(t);
    proof {
        reveal_with_fuel(pow, 21);
        assert(pow10(20) == 100000000000000000000);
    }
    if !(f_end < v.len() && {
        let c = v[f_end];
        c == 'e' || c == 'E'
    }) {
        proof {
            if f_end < t.len() {
                assert(a[0] == t[f_end as int]);
            }
            assert(num_exp(t) == 0);
        }
        return (false, false, 0);
    }
    proof {
        assert(a[0] == t[f_end as int]);
    }
    let mut exp_neg = false;
    let mut es: usize = f_end + 1;
    if f_end + 1 < v.len() && v[f_end + 1] == '-' {
        exp_neg = true;
        es = f_end + 2;
        proof {
            assert(a[1] == t[f_end + 1]);
            assert(a.skip(2) =~= t.skip(f_end + 2 as int));
        }
    } else if f_end + 1 < v.len() && v[f_end + 1] == '+' {
        es = f_end + 2;
        proof {
            assert(a[1] == t[f_end + 1]);
            assert(a.skip(2) =~= t.skip(f_end + 2 as int));
        }
    } else {
        proof {
            if f_end + 1 < t.len() {
                assert(a[1] == t[f_end + 1]);
            }
            assert(a.drop_first() =~= t.skip(f_end + 1 as int));
        }
    }
    proof {
        assert(num_exp(t) == (if exp_neg {
            -digits_val(take_digits(t.skip(es as int)).0)
        } else {
            digits_val(take_digits(t.skip(es as int)).0)
        }));
    }
    let ee = crate::json::pe_digits(v, es);
    proof {
        crate::json::lemma_take_digits(t.skip(es as int));
        crate::json::lemma_take_digits_digits(t.skip(es as int));
        assert(take_digits(t.skip(es as int)).0 == t.subrange(es as int, ee as int));
        assert(forall|i: int| es <= i < ee ==> is_digit(#[trigger] t[i])) by {
            assert(forall|i: int|
                es <= i < ee ==> t[i] == take_digits(t.skip(es as int)).0[i - es]);
        }
    }
    match find_nonzero(v, es, ee) {
        None => {
            proof {
                let ed = t.subrange(es as int, ee as int);
                assert(all_digits(ed)) by {
                    assert(forall|i: int| 0 <= i < ed.len() ==> ed[i] == t[es + i]);
                }
                lemma_digits_zero(ed);
                assert(num_exp(t) == 0);
            }
            (exp_neg, false, 0)
        },
        Some(ez) => {
            proof {
                lemma_digits_strip_zeros(t.subrange(es as int, ee as int), ez - es);
                assert(t.subrange(es as int, ee as int).skip(ez - es) =~= t.subrange(
                    ez as int,
                    ee as int,
                ));
            }
            if ee - ez > 20 {
                proof {
                    let edigits = t.subrange(ez as int, ee as int);
                    assert(all_digits(edigits)) by {
                        assert(forall|i: int| 0 <= i < edigits.len() ==> edigits[i] == t[ez + i]);
                    }
                    assert(is_digit(edigits[0]) && edigits[0] != '0');
                    lemma_digits_lead(edigits);
                    lemma_pow_positive(10, (edigits.len() - 1) as nat);
                    assert(digits_val(edigits) >= pow10((edigits.len() - 1) as nat)) by (
                    nonlinear_arith)
                        requires
                            digits_val(edigits) >= digit_val(edigits[0]) * pow10(
                                (edigits.len() - 1) as nat,
                            ),
                            digit_val(edigits[0]) >= 1,
                            pow10((edigits.len() - 1) as nat) > 0,
                    ;
                    assert(pow10((edigits.len() - 1) as nat) >= pow10(20)) by {
                        lemma_pow_increases(10, 20, (edigits.len() - 1) as nat);
                    }
                    assert(digits_val(t.subrange(es as int, ee as int)) >= pow10(20));
                }
                (exp_neg, true, 0)
            } else {
                let val = digits_value_u128(v, ez, ee);
                proof {
                    assert(val == digits_val(t.subrange(es as int, ee as int)));
                }
                (exp_neg, false, val)
            }
        },
    }
}

/// Decides the classification once the significant digits and the
/// scientific exponent are known exactly.
#[verifier::rlimit(100)]
#[verifier::spinoff_prover]
fn classify_exact(mv: &Vec<char>, nz: usize, mm: i128, Ghost(t): Ghost<Seq<char>>, Ghost(e): Ghost<
    int,
>) -> (r: i8)
    requires
        nz < mv@.len(),
        all_digits(mv@),
        mv@[nz as int] != '0',
        !num_neg(t),
        e == exp10(t),
        digits_val(mantissa(t)) == digits_val(mv@.skip(nz as int)),
        mm as int == mv@.len() - nz - 1 + e,
    ensures
        r == 0 || r == 1 || r == -1,
        (r == 0) == zoom_text_in_range(t),
        r != 0 ==> ((r == -1) == (num_neg(t) || !zoom_ge_half(t))),
{
    let ghost sig = mv@.skip(nz as int);
    proof {
        assert(all_digits(sig)) by {
            assert(forall|i: int| 0 <= i < sig.len() ==> sig[i] == mv@[i + nz]);
        }
        assert(sig[0] == mv@[nz as int]);
        assert(digit_val(sig[0]) >= 1);
    }
    let d1 = (mv[nz] as u32) - 48;
    proof {
        assert(digit_val(sig[0]) == d1);
        assert(zoom_ge_half(t) == ge_half_val(digits_val(sig), e));
        assert(zoom_le_three(t) == le_three_val(digits_val(sig), e));
        assert(zoom_text_in_range(t) == (ge_half_val(digits_val(sig), e) && le_three_val(
            digits_val(sig),
            e,
        )));
    }
    if mm >= 1 {
        proof {
            lemma_class_above(sig, e);
            assert(!zoom_text_in_range(t));
            assert(!(num_neg(t) || !zoom_ge_half(t)));
        }
        1
    } else if mm <= -2 {
        proof {
            lemma_class_below(sig, e);
            assert(!zoom_text_in_range(t));
            assert(num_neg(t) || !zoom_ge_half(t));
        }
        -1
    } else if mm == 0 {
        proof {
            lemma_class_unit(sig, e);
            assert(zoom_ge_half(t));
        }
        let m_len = mv.len();
        if d1 < 3 {
            proof {
                assert(zoom_le_three(t));
                assert(zoom_text_in_range(t));
            }
            0
        } else if d1 == 3 {
            proof {
                assert(sig.drop_first() =~= mv@.skip(nz + 1 as int));
                assert(all_digits(sig.drop_first())) by {
                    assert(forall|i: int|
                        0 <= i < sig.drop_first().len() ==> sig.drop_first()[i] == sig[i + 1]);
                }
                lemma_digits_zero(sig.drop_first());
                assert(forall|i: int|
                    0 <= i < sig.drop_first().len() ==> sig.drop_first()[i] == mv@[nz + 1 + i]);
            }
            let rest_zero: bool;
            match find_nonzero(mv, nz + 1, m_len) {
                None => {
                    proof {
                        assert(forall|i: int|
                            0 <= i < sig.drop_first().len() ==> sig.drop_first()[i] == '0');
                        assert(digits_val(sig.drop_first()) == 0);
                    }
                    rest_zero = true;
                },
                Some(w) => {
                    proof {
                        assert(sig.drop_first()[w - nz - 1] == mv@[w as int]);
                        assert(sig.drop_first()[w - nz - 1] != '0');
                        assert(digits_val(sig.drop_first()) != 0);
                    }
                    rest_zero = false;
                },
            }
            proof {
                assert(rest_zero == (digits_val(sig.drop_first()) == 0));
                assert(zoom_le_three(t) == rest_zero);
            }
            if rest_zero {
                proof {
                    assert(zoom_text_in_range(t));
                }
                0
            } else {
                proof {
                    assert(!zoom_text_in_range(t));
                    assert(!(num_neg(t) || !zoom_ge_half(t)));
                }
                1
            }
        } else {
            proof {
                assert(!zoom_le_three(t));
                assert(!zoom_text_in_range(t));
                assert(!(num_neg(t) || !zoom_ge_half(t)));
            }
            1
        }
    } else {
        proof {
            lemma_class_tenth(sig, e);
            assert(zoom_le_three(t));
            assert(zoom_ge_half(t) == (d1 >= 5));
        }
        if d1 >= 5 {
            proof {
                assert(zoom_text_in_range(t));
            }
            0
        } else {
            proof {
                assert(!zoom_text_in_range(t));
                assert(num_neg(t) || !zoom_ge_half(t));
            }
            -1
        }
    }
}

/// Sorts a numeral text against the range: `0` inside, `-1` below (or
/// negative, or with an empty mantissa), `1` above.
#[verifier::rlimit(100)]
#[verifier::spinoff_prover]
pub fn zoom_classify(v: &Vec<char>) -> (r: i8)
    ensures
        r == 0 || r == 1 || r == -1,
        (r == 0) == zoom_text_in_range(v@),
        r != 0 ==> ((r == -1) == (num_neg(v@) || !zoom_ge_half(v@))),
{
    let ghost t = v@;
    if v.len() > 0 && v[0] == '-' {
        return -1;
    }
    proof {
        assert(!num_neg(t));
        assert(num_body(t) =~= t);
        assert(t.skip(0) =~= t);
    }
    // integer digits
    let i_end = crate::json::pe_digits(v, 0);
    proof {
        crate::json::lemma_take_digits(t);
        crate::json::lemma_take_digits_digits(t);
        assert(num_int(t) == t.subrange(0, i_end as int));
        assert(num_after_int(t) == t.skip(i_end as int));
    }
    // fraction digits
    let mut f_start: usize = i_end;
    let mut f_end: usize = i_end;
    if i_end < v.len() && v[i_end] == '.' {
        proof {
            assert(num_after_int(t)[0] == '.');
            assert(num_after_int(t).drop_first() =~= t.skip(i_end + 1 as int));
        }
        f_start = i_end + 1;
        f_end = crate::json::pe_digits(v, f_start);
        proof {
            crate::json::lemma_take_digits(t.skip(f_start as int));
            crate::json::lemma_take_digits_digits(t.skip(f_start as int));
            assert(num_frac(t) == t.subrange(f_start as int, f_end as int));
            assert(num_after_frac(t) == t.skip(f_end as int));
        }
    } else {
        proof {
            if i_end < t.len() {
                assert(num_after_int(t)[0] == t[i_end as int]);
            }
            assert(num_frac(t) =~= t.subrange(f_start as int, f_end as int));
            assert(num_after_frac(t) == t.skip(f_end as int));
        }
    }
    let flen = f_end - f_start;
    proof {
        assert(num_frac(t).len() == flen);
    }
    // the mantissa, as one digit vector
    let mut mv = crate::json::copy_range(v, 0, i_end);
    let fv = crate::json::copy_range(v, f_start, f_end);
    crate::json::push_all(&mut mv, &fv);
    proof {
        assert(mv@ =~= mantissa(t));
        assert(all_digits(mv@)) by {
            assert(forall|i: int|
                0 <= i < num_int(t).len() ==> is_digit(#[trigger] num_int(t)[i]));
            assert(forall|i: int|
                0 <= i < num_frac(t).len() ==> is_digit(#[trigger] num_frac(t)[i]));
            assert(forall|i: int|
                0 <= i < mv@.len() ==> mv@[i] == (if i < num_int(t).len() {
                    num_int(t)[i]
                } else {
                    num_frac(t)[i - num_int(t).len()]
                }));
        }
    }
    let m_len = mv.len();
    // a zero mantissa lies below the range whatever the exponent
    let nz = match find_nonzero(&mv, 0, m_len) {
        None => {
            proof {
                lemma_digits_zero(mv@);
                lemma_class_zero(exp10(t));
            }
            return -1;
        },
        Some(nz) => nz,
    };
    let ghost sig = mv@.skip(nz as int);
    proof {
        lemma_digits_strip_zeros(mv@, nz as int);
        assert(digits_val(mantissa(t)) == digits_val(sig));
        assert(all_digits(sig)) by {
            assert(forall|i: int| 0 <= i < sig.len() ==> sig[i] == mv@[i + nz]);
        }
        assert(sig[0] == mv@[nz as int]);
        assert(digit_val(sig[0]) >= 1);
    }
    // the exponent
    let (exp_neg, exp_sat, exp_val) = zoom_exponent(v, f_end);
    proof {
        reveal_with_fuel(pow, 21);
        assert(pow10(20) == 100000000000000000000);
        assert(usize::MAX <= 0xFFFFFFFFFFFFFFFF);
    }
    let ghost e = exp10(t);
    let ghost big = pow10(20);
    if exp_sat {
        // the magnitude of the exponent dwarfs every length in reach
        if exp_neg {
            proof {
                assert(e <= -big);
                assert(sig.len() - 1 + e <= -2);
                lemma_class_below(sig, e);
            }
            return -1;
        } else {
            proof {
                assert(e >= big - flen);
                assert(sig.len() - 1 + e >= 1);
                lemma_class_above(sig, e);
            }
            return 1;
        }
    }
    // exact scientific exponent
    let e10: i128 = if exp_neg {
        -(exp_val as i128) - (flen as i128)
    } else {
        (exp_val as i128) - (flen as i128)
    };
    proof {
        assert(e10 as int == e);
    }
    let mm: i128 = ((m_len - nz) as i128) - 1 + e10;
    proof {
        assert(mm as int == sig.len() - 1 + e);
    }
    classify_exact(&mv, nz, mm, Ghost(t), Ghost(e))
}

// ------------------------------------------------------------------
// The zoom file
// ------------------------------------------------------------------
pub open spec fn k_zoom() -> Seq<char> {
    seq!['z', 'o', 'o', 'm', '_', 'l', 'e', 'v', 'e', 'l']
}

/// The canonical tree of the zoom file.
pub open spec fn zoom_tree(t: Seq<char>) -> JsonV {
    JsonV::Obj(seq![(k_zoom(), JsonV::Num(t))])
}

/// The canonical content of the zoom file.
pub open spec fn zoom_content(t: Seq<char>) -> Seq<char> {
    ser_value(zoom_tree(t))
}

/// What a zoom file's text means once it parses: the stored numeral if
/// it is one and lies in range, else the default. A missing member, a
/// non-number and an out-of-range value are all coerced, never errors.
pub open spec fn zoom_of_tree(tr: JsonV) -> Seq<char> {
    match tr {
        JsonV::Obj(ms) => match obj_get_last(ms, k_zoom()) {
            Some(JsonV::Num(t)) => if zoom_text_in_range(t) {
                t
            } else {
                default_zoom_text()
            },
            _ => default_zoom_text(),
        },
        _ => default_zoom_text(),
    }
}

pub open spec fn zoom_from_content(c: Seq<char>) -> Option<Seq<char>> {
    match parse_text(c) {
        Some(tr) => Some(zoom_of_tree(tr)),
        None => None,
    }
}

fn key_zoom_exec() -> (r: Vec<char>)
    ensures
        r@ == k_zoom(),
{
    let mut v: Vec<char> = Vec::new();
    v.push('z');
    v.push('o');
    v.push('o');
    v.push('m');
    v.push('_');
    v.push('l');
    v.push('e');
    v.push('v');
    v.push('e');
    v.push('l');
    proof {
        assert(v@ =~= k_zoom());
    }
    v
}

fn min_zoom_vec() -> (r: Vec<char>)
    ensures
        r@ == min_zoom_text(),
{
    let mut v: Vec<char> = Vec::new();
    v.push('0');
    v.push('.');
    v.push('5');
    proof {
        assert(v@ =~= min_zoom_text());
    }
    v
}

fn max_zoom_vec() -> (r: Vec<char>)
    ensures
        r@ == max_zoom_text(),
{
    let mut v: Vec<char> = Vec::new();
    v.push('3');
    v.push('.');
    v.push('0');
    proof {
        assert(v@ =~= max_zoom_text());
    }
    v
}

fn default_zoom_vec() -> (r: Vec<char>)
    ensures
        r@ == default_zoom_text(),
{
    let mut v: Vec<char> = Vec::new();
    v.push('1');
    v.push('.');
    v.push('0');
    proof {
        assert(v@ =~= default_zoom_text());
    }
    v
}

/// The fixed zoom bounds, as numeral texts, for the presentation
/// layer: every range check in and around the store goes through the
/// same two constants.
pub struct ZoomLimits {
    pub min_zoom: String,
    pub max_zoom: String,
}

/// Hands out the bounds of the zoom range.
pub fn get_zoom_limits() -> (r: ZoomLimits)
    ensures
        r.min_zoom@ == min_zoom_text(),
        r.max_zoom@ == max_zoom_text(),
{
    let mn = min_zoom_vec();
    let mx = max_zoom_vec();
    ZoomLimits {
        min_zoom: crate::chars::chars_to_string(&mn),
        max_zoom: crate::chars::chars_to_string(&mx),
    }
}

fn zoom_content_exec(txt: Vec<char>) -> (r: String)
    ensures
        r@ == zoom_content(txt@),
{
    let mut ms: Vec<(Vec<char>, Json)> = Vec::new();
    ms.push((key_zoom_exec(), Json::Num(txt)));
    proof {
        crate::json::lemma_jv_members(ms@);
        assert(crate::json::jv_members(ms@) =~= (zoom_tree(ms@[0].1->Num_0@))->Obj_0);
    }
    let tree = Json::Obj(ms);
    crate::json::to_text(&tree)
}

/// Renders the zoom preference as the content of its file,
/// `zoom_level.json`.
///
/// `zoom_text` is the decimal rendering of the caller's number. Text
/// that is not a JSON numeral — a NaN or an infinity prints that way —
/// is rejected as `InvalidInput`; a finite value is clamped into
/// `[0.5, 3.0]` and in-range values are stored exactly as given.
pub fn save_zoom_preference(zoom_text: &str) -> (r: Result<String, StoreError>)
    ensures
        match r {
            Ok(c) => is_number_text(zoom_text@) && c@ == zoom_content(zoom_clamped(zoom_text@)),
            Err(e) => e matches StoreError::InvalidInput(_) && !is_number_text(zoom_text@),
        },
{
    let v = crate::chars::str_to_chars(zoom_text);
    proof {
        assert(v@.skip(0) =~= v@);
    }
    match crate::json::pe_number(&v, 0) {
        None => Err(StoreError::InvalidInput("Invalid zoom level".to_owned())),
        Some((txt, n)) => {
            if n != v.len() {
                proof {
                    assert(v@.skip(n as int).len() > 0);
                }
                return Err(StoreError::InvalidInput("Invalid zoom level".to_owned()));
            }
            proof {
                assert(v@.skip(n as int) =~= Seq::<char>::empty());
                assert(v@.subrange(0, n as int) =~= v@);
                assert(txt@ =~= v@);
            }
            let cls = zoom_classify(&txt);
            let out = if cls == 0 {
                txt
            } else if cls == -1 {
                min_zoom_vec()
            } else {
                max_zoom_vec()
            };
            proof {
                assert(out@ == zoom_clamped(zoom_text@));
            }
            Ok(zoom_content_exec(out))
        },
    }
}

/// Reads the zoom preference from the content of its file.
///
/// A missing file yields the default `1.0`; so does a file whose
/// `zoom_level` member is missing, not a number, or out of range. Only
/// a file that does not parse as JSON at all is `CorruptData`. The
/// returned numeral text is parsed back to a number by the caller.
pub fn load_zoom_preference(content: Option<&str>) -> (r: Result<String, StoreError>)
    ensures
        match r {
            Ok(z) => match content {
                None => z@ == default_zoom_text(),
                Some(c) => zoom_from_content(c@) == Some(z@),
            },
            Err(e) => {
                &&& e matches StoreError::CorruptData(_)
                &&& content is Some
                &&& zoom_from_content((content->0)@) is None
            },
        },
{
    let c = match content {
        None => {
            let d = default_zoom_vec();
            return Ok(crate::chars::chars_to_string(&d));
        },
        Some(c) => c,
    };
    let tree = match crate::json::from_text(c) {
        Some(t) => t,
        None => {
            return Err(StoreError::CorruptData("Failed to parse zoom preference".to_owned()));
        },
    };
    let ms = match &tree {
        Json::Obj(ms) => ms,
        _ => {
            let d = default_zoom_vec();
            return Ok(crate::chars::chars_to_string(&d));
        },
    };
    let kz = key_zoom_exec();
    match crate::json::obj_rfind(ms, &kz) {
        Some(i) => match &ms[i].1 {
            Json::Num(txt) => {
                if zoom_classify(txt) == 0 {
                    Ok(crate::chars::chars_to_string(txt))
                } else {
                    let d = default_zoom_vec();
                    Ok(crate::chars::chars_to_string(&d))
                }
            },
            _ => {
                let d = default_zoom_vec();
                Ok(crate::chars::chars_to_string(&d))
            },
        },
        None => {
            let d = default_zoom_vec();
            Ok(crate::chars::chars_to_string(&d))
        },
    }
}

// ------------------------------------------------------------------
// The bounds are themselves in range
// ------------------------------------------------------------------
/// Components of a `d.d` numeral.
proof fn lemma_short_decimal(a: char, b: char)
    requires
        is_digit(a),
        is_digit(b),
    ensures
        !num_neg(seq![a, '.', b]),
        mantissa(seq![a, '.', b]) =~= seq![a, b],
        exp10(seq![a, '.', b]) == -1,
        digits_val(seq![a, b]) == digit_val(a) * 10 + digit_val(b),
        is_number_text(seq![a, '.', b]),
{
    let t = seq![a, '.', b];
    reveal_with_fuel(take_digits, 4);
    reveal_with_fuel(digits_val, 4);
    assert(a != '-' && a != '.');
    assert(t[0] == a);
    assert(t.drop_first() =~= seq!['.', b]);
    assert(seq!['.', b].drop_first() =~= seq![b]);
    assert(seq![b].drop_first() =~= Seq::<char>::empty());
    assert(take_digits(Seq::<char>::empty()) == (Seq::<char>::empty(), Seq::<char>::empty()));
    assert(take_digits(seq![b]).0 =~= seq![b]);
    assert(take_digits(seq![b]).1 =~= Seq::<char>::empty());
    assert(take_digits(seq!['.', b]).0 =~= Seq::<char>::empty());
    assert(take_digits(seq!['.', b]).1 =~= seq!['.', b]);
    assert(take_digits(t).0 =~= seq![a]);
    assert(take_digits(t).1 =~= seq!['.', b]);
    assert(num_body(t) =~= t);
    assert(num_int(t) =~= seq![a]);
    assert(num_after_int(t) =~= seq!['.', b]);
    assert(num_frac(t) =~= seq![b]);
    assert(num_after_frac(t) =~= Seq::<char>::empty());
    assert(num_exp(t) == 0);
    assert(mantissa(t) =~= seq![a, b]);
    assert(seq![a, b].drop_last() =~= seq![a]);
    assert(seq![a].drop_last() =~= Seq::<char>::empty());
    assert(digits_val(seq![a, b]) == digit_val(a) * 10 + digit_val(b));
    // the text is one whole numeral
    assert(crate::json::p_frac_exp(seq!['.', b]) == Some((seq!['.'] + seq![b], Seq::<char>::empty())));
    assert(seq!['.'] + seq![b] =~= seq!['.', b]);
    assert(crate::json::p_number(t) is Some);
    assert((crate::json::p_number(t)->0).0 =~= t);
    assert((crate::json::p_number(t)->0).1 =~= Seq::<char>::empty());
    assert(crate::json::p_number(t) == Some((t, Seq::<char>::empty())));
}

/// The two bounds and the default are numerals within the range: the
/// clamp can never produce an out-of-range value, and the limits the
/// store reports are admissible zoom levels themselves.
pub proof fn lemma_zoom_bounds_in_range()
    ensures
        zoom_text_in_range(min_zoom_text()),
        zoom_text_in_range(max_zoom_text()),
        zoom_text_in_range(default_zoom_text()),
        is_number_text(min_zoom_text()),
        is_number_text(max_zoom_text()),
        is_number_text(default_zoom_text()),
{
    lemma_short_decimal('0', '5');
    lemma_short_decimal('3', '0');
    lemma_short_decimal('1', '0');
    assert(pow10(1) == 10) by {
        vstd::arithmetic::power::lemma_pow1(10);
    }
    assert(digits_val(mantissa(min_zoom_text())) == 5);
    assert(digits_val(mantissa(max_zoom_text())) == 30);
    assert(digits_val(mantissa(default_zoom_text())) == 10);
}

/// Whatever text comes in, the stored zoom value lies in range.
pub proof fn lemma_zoom_clamped_in_range(t: Seq<char>)
    ensures
        zoom_text_in_range(zoom_clamped(t)),
{
    lemma_zoom_bounds_in_range();
}

} // verus!
