//! Fresh metadata for new todo items: the creation timestamp and the
//! unique identifier, together with the grammars that describe them.
//!
//! The timestamp grammar is RFC 3339 as chrono writes and reads it:
//! a (possibly signed, at least four digit) year, month, day, `T`,
//! hours, minutes, seconds (60 allowed for leap seconds), an optional
//! fraction, and a `Z` or `+HH:MM`/`-HH:MM` offset. The day store
//! validates stored `created_at` fields against this grammar.

use vstd::prelude::*;
use crate::chars::{is_digit, digit_val};
use crate::date::{spec_days_in_month, spec_is_leap_year};
use crate::json::take_digits;

verus! {

/// Numeric value of a digit string, most significant digit first.
pub open spec fn digits_val(s: Seq<char>) -> int
    decreases s.len(),
{
    if s.len() == 0 {
        0
    } else {
        digits_val(s.drop_last()) * 10 + digit_val(s.last())
    }
}

/// A `Z`, or a `+HH:MM` / `-HH:MM` numeric offset. The hour may read
/// 24: a writer that rounds an offset's seconds to minutes can turn a
/// second shy of a full day into exactly one.
pub open spec fn ts_offset_ok(s: Seq<char>) -> bool {
    if s.len() == 1 {
        s[0] == 'Z'
    } else if s.len() == 6 {
        &&& (s[0] == '+' || s[0] == '-')
        &&& is_digit(s[1]) && is_digit(s[2]) && s[3] == ':' && is_digit(s[4]) && is_digit(s[5])
        &&& digit_val(s[1]) * 10 + digit_val(s[2]) <= 24
        &&& digit_val(s[4]) * 10 + digit_val(s[5]) <= 59
    } else {
        false
    }
}

/// The optional second fraction followed by the offset.
pub open spec fn ts_tail_ok(s: Seq<char>) -> bool {
    if s.len() > 0 && s[0] == '.' {
        let (ds, r) = take_digits(s.drop_first());
        ds.len() >= 1 && ts_offset_ok(r)
    } else {
        ts_offset_ok(s)
    }
}

/// Is `s` a timestamp in the store's RFC 3339 grammar?
pub open spec fn ts_valid(s: Seq<char>) -> bool {
    let has_sign = s.len() > 0 && (s[0] == '+' || s[0] == '-');
    let neg = s.len() > 0 && s[0] == '-';
    let s0 = if has_sign {
        s.drop_first()
    } else {
        s
    };
    let (yd, s1) = take_digits(s0);
    let yv = if neg {
        -digits_val(yd)
    } else {
        digits_val(yd)
    };
    &&& (if has_sign {
        yd.len() >= 4
    } else {
        yd.len() == 4
    })
    &&& s1.len() >= 15
    &&& s1[0] == '-' && is_digit(s1[1]) && is_digit(s1[2])
    &&& s1[3] == '-' && is_digit(s1[4]) && is_digit(s1[5])
    &&& s1[6] == 'T'
    &&& is_digit(s1[7]) && is_digit(s1[8]) && s1[9] == ':'
    &&& is_digit(s1[10]) && is_digit(s1[11]) && s1[12] == ':'
    &&& is_digit(s1[13]) && is_digit(s1[14])
    &&& 1 <= digit_val(s1[1]) * 10 + digit_val(s1[2]) <= 12
    &&& 1 <= digit_val(s1[4]) * 10 + digit_val(s1[5]) <= spec_days_in_month(
        yv,
        digit_val(s1[1]) * 10 + digit_val(s1[2]),
    )
    &&& digit_val(s1[7]) * 10 + digit_val(s1[8]) <= 23
    &&& digit_val(s1[10]) * 10 + digit_val(s1[11]) <= 59
    &&& digit_val(s1[13]) * 10 + digit_val(s1[14]) <= 60
    &&& ts_tail_ok(s1.skip(15))
}

/// The hyphenated lower-case form of a version-4 UUID: thirty-six
/// characters, hyphens at the four fixed positions, hexadecimal digits
/// elsewhere, and `4` in the version position.
pub open spec fn is_uuid_text(s: Seq<char>) -> bool {
    &&& s.len() == 36
    &&& forall|i: int|
        0 <= i < 36 ==> (if i == 8 || i == 13 || i == 18 || i == 23 {
            s[i] == '-'
        } else {
            is_digit(#[trigger] s[i]) || ('a' <= s[i] && s[i] <= 'f')
        })
    &&& s[14] == '4'
}

/// Relies on `chrono::Local::now` and `chrono::DateTime::to_rfc3339`:
/// the rendering is an RFC 3339 date-time of a real calendar instant,
/// with a four-digit (or signed) year, two-digit month, day, hour,
/// minute and second fields in range (seconds may read 60 during a
/// leap second), an optional `.digits` fraction, and a numeric offset.
#[verifier::external_body]
pub fn now_rfc3339() -> (r: String)
    ensures
        ts_valid(r@),
{
    chrono::Local::now().to_rfc3339()
}

/// Relies on `uuid::Uuid::new_v4` and the `Display` implementation of
/// `uuid::Uuid`: the rendering is the hyphenated lower-case hex form,
/// and `new_v4` stamps version 4 into the third group.
#[verifier::external_body]
pub fn new_uuid_string() -> (r: String)
    ensures
        is_uuid_text(r@),
{
    uuid::Uuid::new_v4().to_string()
}

/// Leap years are determined by the year modulo 400, and a negated
/// year is a leap year exactly when the year itself is.
proof fn lemma_leap_mod400(y: int)
    by (nonlinear_arith)
    ensures
        spec_is_leap_year(y) == spec_is_leap_year(y % 400),
{
}

proof fn lemma_leap_neg(y: int)
    by (nonlinear_arith)
    ensures
        spec_is_leap_year(-y) == spec_is_leap_year(y),
{
}

/// Computes the year-digit value modulo 400.
fn year_mod400(v: &Vec<char>, a: usize, b: usize) -> (r: u32)
    requires
        a <= b <= v@.len(),
        forall|i: int| a <= i < b ==> is_digit(#[trigger] v@[i]),
    ensures
        r < 400,
        r == digits_val(v@.subrange(a as int, b as int)) % 400,
        digits_val(v@.subrange(a as int, b as int)) >= 0,
{
    let mut acc: u32 = 0;
    let mut k: usize = a;
    proof {
        assert(v@.subrange(a as int, a as int) =~= Seq::<char>::empty());
    }
    while k < b
        invariant
            a <= k <= b <= v@.len(),
            forall|i: int| a <= i < b ==> is_digit(#[trigger] v@[i]),
            acc < 400,
            acc == digits_val(v@.subrange(a as int, k as int)) % 400,
            digits_val(v@.subrange(a as int, k as int)) >= 0,
        decreases b - k,
    {
        let c = v[k];
        let d = (c as u32) - 48;
        proof {
            let pre = v@.subrange(a as int, k as int);
            let cur = v@.subrange(a as int, k + 1 as int);
            assert(cur.drop_last() =~= pre);
            assert(digits_val(cur) == digits_val(pre) * 10 + digit_val(c));
            assert((digits_val(pre) % 400 * 10 + digit_val(c)) % 400 == (digits_val(pre) * 10
                + digit_val(c)) % 400) by (nonlinear_arith);
        }
        acc = (acc * 10 + d) % 400;
        k = k + 1;
    }
    acc
}

fn digit_pair(v: &Vec<char>, i: usize) -> (r: Option<u32>)
    requires
        i + 1 < v@.len(),
    ensures
        match r {
            Some(d) => is_digit(v@[i as int]) && is_digit(v@[i + 1]) && d == digit_val(
                v@[i as int],
            ) * 10 + digit_val(v@[i + 1]) && d <= 99,
            None => !(is_digit(v@[i as int]) && is_digit(v@[i + 1])),
        },
{
    let _n = v.len();
    let c0 = v[i];
    let c1 = v[i + 1];
    if '0' <= c0 && c0 <= '9' && '0' <= c1 && c1 <= '9' {
        Some(((c0 as u32) - 48) * 10 + ((c1 as u32) - 48))
    } else {
        None
    }
}

/// Checks the offset grammar at position `i`.
fn ts_offset_exec(v: &Vec<char>, i: usize) -> (r: bool)
    requires
        i <= v@.len(),
    ensures
        r == ts_offset_ok(v@.skip(i as int)),
{
    let ghost s = v@.skip(i as int);
    let n = v.len() - i;
    if n == 1 {
        proof {
            assert(s[0] == v@[i as int]);
        }
        v[i] == 'Z'
    } else if n == 6 {
        proof {
            assert(s[0] == v@[i as int] && s[1] == v@[i + 1 as int] && s[2] == v@[i + 2 as int]
                && s[3] == v@[i + 3 as int] && s[4] == v@[i + 4 as int] && s[5] == v@[i
                + 5 as int]);
        }
        if !(v[i] == '+' || v[i] == '-') {
            return false;
        }
        if v[i + 3] != ':' {
            return false;
        }
        let h = match digit_pair(v, i + 1) {
            Some(h) => h,
            None => {
                return false;
            },
        };
        let m = match digit_pair(v, i + 4) {
            Some(m) => m,
            None => {
                return false;
            },
        };
        h <= 24 && m <= 59
    } else {
        false
    }
}

/// Checks the fraction-and-offset grammar at position `i`.
fn ts_tail_exec(v: &Vec<char>, i: usize) -> (r: bool)
    requires
        i <= v@.len(),
    ensures
        r == ts_tail_ok(v@.skip(i as int)),
{
    let ghost s = v@.skip(i as int);
    if i < v.len() && v[i] == '.' {
        proof {
            assert(s[0] == '.');
            assert(s.drop_first() =~= v@.skip(i + 1 as int));
        }
        let n = crate::json::pe_digits(v, i + 1);
        proof {
            crate::json::lemma_take_digits(v@.skip(i + 1 as int));
        }
        if n == i + 1 {
            return false;
        }
        ts_offset_exec(v, n)
    } else {
        proof {
            if i < v@.len() {
                assert(s[0] == v@[i as int]);
            }
        }
        ts_offset_exec(v, i)
    }
}

/// Checks the full timestamp grammar.
#[verifier::rlimit(60)]
pub fn ts_valid_exec(v: &Vec<char>) -> (r: bool)
    ensures
        r == ts_valid(v@),
{
    let has_sign = v.len() > 0 && (v[0] == '+' || v[0] == '-');
    let neg = v.len() > 0 && v[0] == '-';
    let n0: usize = if has_sign {
        1
    } else {
        0
    };
    let ghost s0 = if has_sign {
        v@.drop_first()
    } else {
        v@
    };
    proof {
        assert(s0 =~= v@.skip(n0 as int));
    }
    let yend = crate::json::pe_digits(v, n0);
    let ghost yd = take_digits(s0).0;
    let ghost s1 = take_digits(s0).1;
    proof {
        crate::json::lemma_take_digits(v@.skip(n0 as int));
        crate::json::lemma_take_digits_digits(v@.skip(n0 as int));
        assert(yd == v@.subrange(n0 as int, yend as int));
        assert(s1 == v@.skip(yend as int));
        assert(forall|i: int| n0 <= i < yend ==> is_digit(#[trigger] v@[i])) by {
            assert(forall|i: int|
                n0 <= i < yend ==> v@[i] == take_digits(v@.skip(n0 as int)).0[i - n0]);
        }
    }
    if has_sign {
        if yend - n0 < 4 {
            return false;
        }
    } else {
        if yend - n0 != 4 {
            return false;
        }
    }
    if v.len() - yend < 15 {
        return false;
    }
    proof {
        assert(forall|k: int| 0 <= k < 15 ==> #[trigger] s1[k] == v@[yend + k]);
    }
    if !(v[yend] == '-' && v[yend + 3] == '-' && v[yend + 6] == 'T' && v[yend + 9] == ':' && v[yend
        + 12] == ':') {
        return false;
    }
    let mo = match digit_pair(v, yend + 1) {
        Some(mo) => mo,
        None => {
            return false;
        },
    };
    let dy = match digit_pair(v, yend + 4) {
        Some(dy) => dy,
        None => {
            return false;
        },
    };
    let hh = match digit_pair(v, yend + 7) {
        Some(hh) => hh,
        None => {
            return false;
        },
    };
    let mi = match digit_pair(v, yend + 10) {
        Some(mi) => mi,
        None => {
            return false;
        },
    };
    let ss = match digit_pair(v, yend + 13) {
        Some(ss) => ss,
        None => {
            return false;
        },
    };
    if mo < 1 || mo > 12 {
        return false;
    }
    let m400 = year_mod400(v, n0, yend);
    let leap = m400 % 4 == 0 && (m400 % 100 != 0 || m400 == 0);
    let ghost yv: int = if neg {
        -digits_val(yd)
    } else {
        digits_val(yd)
    };
    proof {
        lemma_leap_mod400(digits_val(yd));
        if neg {
            lemma_leap_neg(digits_val(yd));
        }
        assert(m400 % 400 == m400 as int);
        assert(spec_is_leap_year(yv) == leap);
    }
    let dmax: u32 = if mo == 2 {
        if leap {
            29
        } else {
            28
        }
    } else if mo == 4 || mo == 6 || mo == 9 || mo == 11 {
        30
    } else {
        31
    };
    proof {
        assert(dmax == spec_days_in_month(yv, mo as int));
    }
    if dy < 1 || dy > dmax {
        return false;
    }
    if hh > 23 || mi > 59 || ss > 60 {
        return false;
    }
    proof {
        assert(s1.skip(15) =~= v@.skip(yend + 15 as int));
    }
    ts_tail_exec(v, yend + 15)
}

} // verus!
