//! A small JSON codec, verified end to end.
//!
//! The store keeps every record as JSON text, so the codec is part of
//! the core and is specified precisely: `ser_value` is the canonical
//! (compact) rendering and `p_value` is a recursive-descent parser for
//! the full JSON grammar (any whitespace, any member order, escape
//! sequences including surrogate pairs). Numbers are kept as raw text:
//! no record in this store carries a number that the core itself has
//! to evaluate, except the zoom level, which gets its own analysis.

use vstd::prelude::*;
use crate::chars::{is_digit, digit_val};

verus! {

/// Mathematical JSON tree: what contracts and laws speak about.
pub enum JsonV {
    Null,
    Bool(bool),
    Num(Seq<char>),
    Str(Seq<char>),
    Arr(Seq<JsonV>),
    Obj(Seq<(Seq<char>, JsonV)>),
}

/// Executable JSON tree. Strings are kept as character vectors; the
/// number variant holds the raw text of the numeral.
pub enum Json {
    Null,
    Bool(bool),
    Num(Vec<char>),
    Str(Vec<char>),
    Arr(Vec<Json>),
    Obj(Vec<(Vec<char>, Json)>),
}

impl Json {
    /// The mathematical tree this executable tree stands for.
    pub open spec fn jv(self) -> JsonV
        decreases self,
    {
        match self {
            Json::Null => JsonV::Null,
            Json::Bool(b) => JsonV::Bool(b),
            Json::Num(s) => JsonV::Num(s@),
            Json::Str(s) => JsonV::Str(s@),
            Json::Arr(v) => JsonV::Arr(jv_seq(v@)),
            Json::Obj(v) => JsonV::Obj(jv_members(v@)),
        }
    }
}

pub open spec fn jv_seq(s: Seq<Json>) -> Seq<JsonV>
    decreases s,
{
    if s.len() == 0 {
        Seq::empty()
    } else {
        jv_seq(s.drop_last()).push(s.last().jv())
    }
}

pub open spec fn jv_members(s: Seq<(Vec<char>, Json)>) -> Seq<(Seq<char>, JsonV)>
    decreases s,
{
    if s.len() == 0 {
        Seq::empty()
    } else {
        jv_members(s.drop_last()).push((s.last().0@, s.last().1.jv()))
    }
}

pub broadcast proof fn lemma_jv_seq(s: Seq<Json>)
    ensures
        (#[trigger] jv_seq(s)).len() == s.len(),
        forall|i: int| 0 <= i < s.len() ==> jv_seq(s)[i] == s[i].jv(),
    decreases s,
{
    if s.len() > 0 {
        lemma_jv_seq(s.drop_last());
    }
}

pub broadcast proof fn lemma_jv_members(s: Seq<(Vec<char>, Json)>)
    ensures
        (#[trigger] jv_members(s)).len() == s.len(),
        forall|i: int|
            0 <= i < s.len() ==> jv_members(s)[i] == (s[i].0@, s[i].1.jv()),
    decreases s,
{
    if s.len() > 0 {
        lemma_jv_members(s.drop_last());
    }
}

// ------------------------------------------------------------------
// Canonical serialization
// ------------------------------------------------------------------
/// Hexadecimal digit (lower case) for a value below sixteen.
pub open spec fn hex_char(d: int) -> char
    recommends
        0 <= d <= 15,
{
    if d == 10 {
        'a'
    } else if d == 11 {
        'b'
    } else if d == 12 {
        'c'
    } else if d == 13 {
        'd'
    } else if d == 14 {
        'e'
    } else if d == 15 {
        'f'
    } else {
        crate::chars::digit_char(d)
    }
}

/// How one character of string content is written inside quotes:
/// the two JSON metacharacters get a short escape, the common control
/// characters get their mnemonic escape, the rest of the control range
/// is written as `\u00XX`, and everything else stands for itself.
pub open spec fn esc_char(c: char) -> Seq<char> {
    if c == '"' {
        seq!['\\', '"']
    } else if c == '\\' {
        seq!['\\', '\\']
    } else if c == '\n' {
        seq!['\\', 'n']
    } else if c == '\r' {
        seq!['\\', 'r']
    } else if c == '\t' {
        seq!['\\', 't']
    } else if c == '\u{8}' {
        seq!['\\', 'b']
    } else if c == '\u{c}' {
        seq!['\\', 'f']
    } else if (c as u32) < 0x20 {
        seq!['\\', 'u', '0', '0', hex_char(c as u32 as int / 16), hex_char(c as u32 as int % 16)]
    } else {
        seq![c]
    }
}

pub open spec fn esc_str(s: Seq<char>) -> Seq<char>
    decreases s.len(),
{
    if s.len() == 0 {
        Seq::empty()
    } else {
        esc_char(s[0]) + esc_str(s.drop_first())
    }
}

/// Canonical rendering of a string: quotes around escaped content.
pub open spec fn ser_string(s: Seq<char>) -> Seq<char> {
    seq!['"'] + esc_str(s) + seq!['"']
}

/// Canonical (compact) rendering of a JSON tree.
pub open spec fn ser_value(j: JsonV) -> Seq<char>
    decreases j, 1int,
{
    match j {
        JsonV::Null => seq!['n', 'u', 'l', 'l'],
        JsonV::Bool(b) => if b {
            seq!['t', 'r', 'u', 'e']
        } else {
            seq!['f', 'a', 'l', 's', 'e']
        },
        JsonV::Num(s) => s,
        JsonV::Str(s) => ser_string(s),
        JsonV::Arr(elems) => seq!['['] + ser_elems(elems) + seq![']'],
        JsonV::Obj(ms) => seq!['{'] + ser_members(ms) + seq!['}'],
    }
}

pub open spec fn ser_elems(s: Seq<JsonV>) -> Seq<char>
    decreases s, 0int,
{
    if s.len() == 0 {
        Seq::empty()
    } else if s.len() == 1 {
        ser_value(s[0])
    } else {
        ser_value(s[0]) + seq![','] + ser_elems(s.drop_first())
    }
}

pub open spec fn ser_members(s: Seq<(Seq<char>, JsonV)>) -> Seq<char>
    decreases s, 0int,
{
    if s.len() == 0 {
        Seq::empty()
    } else if s.len() == 1 {
        ser_string(s[0].0) + seq![':'] + ser_value(s[0].1)
    } else {
        ser_string(s[0].0) + seq![':'] + ser_value(s[0].1) + seq![','] + ser_members(s.drop_first())
    }
}

// ------------------------------------------------------------------
// The parser, at the specification level
// ------------------------------------------------------------------
/// The four JSON whitespace characters.
pub open spec fn is_ws(c: char) -> bool {
    c == ' ' || c == '\n' || c == '\r' || c == '\t'
}

pub open spec fn skip_ws(s: Seq<char>) -> Seq<char>
    decreases s.len(),
{
    if s.len() > 0 && is_ws(s[0]) {
        skip_ws(s.drop_first())
    } else {
        s
    }
}

pub proof fn lemma_skip_ws_len(s: Seq<char>)
    ensures
        skip_ws(s).len() <= s.len(),
    decreases s.len(),
{
    if s.len() > 0 && is_ws(s[0]) {
        lemma_skip_ws_len(s.drop_first());
    }
}

/// Value of a four-character hexadecimal escape, or -1 if a character
/// is not a hexadecimal digit.
pub open spec fn hex_val(c: char) -> int {
    if is_digit(c) {
        digit_val(c)
    } else if 'a' <= c && c <= 'f' {
        c as int - 'a' as int + 10
    } else if 'A' <= c && c <= 'F' {
        c as int - 'A' as int + 10
    } else {
        -1
    }
}

pub open spec fn hex4_val(s: Seq<char>) -> int
    recommends
        s.len() == 4,
{
    if hex_val(s[0]) >= 0 && hex_val(s[1]) >= 0 && hex_val(s[2]) >= 0 && hex_val(s[3]) >= 0 {
        hex_val(s[0]) * 0x1000 + hex_val(s[1]) * 0x100 + hex_val(s[2]) * 0x10 + hex_val(s[3])
    } else {
        -1
    }
}

/// Does the character carry this code point?
pub open spec fn has_code(c: char, v: int) -> bool {
    c as int == v
}

/// The character with the given code point (meaningful only on scalar
/// values, where such a character exists).
pub open spec fn char_of(v: int) -> char {
    choose|c: char| has_code(c, v)
}

/// On the code point of an actual character, `char_of` returns that
/// character.
pub broadcast proof fn lemma_char_of(c: char)
    ensures
        #[trigger] char_of(c as int) == c,
{
    assert(has_code(c, c as int));
    assert(exists|c2: char| has_code(c2, c as int));
}

/// Parses the body of a string literal (after the opening quote) up to
/// and including the closing quote. Returns the decoded content and
/// the rest of the input.
pub open spec fn p_string_body(s: Seq<char>) -> Option<(Seq<char>, Seq<char>)>
    decreases s.len(), 1int,
{
    if s.len() == 0 {
        None
    } else if s[0] == '"' {
        Some((Seq::empty(), s.drop_first()))
    } else if s[0] == '\\' {
        p_escape(s)
    } else if (s[0] as u32) < 0x20 {
        None
    } else {
        p_str_cons(s[0], s.drop_first())
    }
}

/// Helper: prepend one decoded character to the parse of the remaining
/// string body.
pub open spec fn p_str_cons(c: char, rest: Seq<char>) -> Option<(Seq<char>, Seq<char>)>
    decreases rest.len(), 2int,
{
    match p_string_body(rest) {
        Some((cs, r)) => Some((seq![c] + cs, r)),
        None => None,
    }
}

/// Parses one escape sequence at the head of `s` (which starts with a
/// backslash), then the remainder of the string body.
pub open spec fn p_escape(s: Seq<char>) -> Option<(Seq<char>, Seq<char>)>
    decreases s.len(), 0int,
{
    if s.len() < 2 {
        None
    } else {
        let e = s[1];
        if e == '"' || e == '\\' || e == '/' {
            p_str_cons(e, s.skip(2))
        } else if e == 'n' {
            p_str_cons('\n', s.skip(2))
        } else if e == 't' {
            p_str_cons('\t', s.skip(2))
        } else if e == 'r' {
            p_str_cons('\r', s.skip(2))
        } else if e == 'b' {
            p_str_cons('\u{8}', s.skip(2))
        } else if e == 'f' {
            p_str_cons('\u{c}', s.skip(2))
        } else if e == 'u' {
            if s.len() < 6 {
                None
            } else {
                let v = hex4_val(s.subrange(2, 6));
                if v < 0 {
                    None
                } else if 0xD800 <= v < 0xDC00 {
                    // High surrogate: must be followed by a low one.
                    if s.len() < 12 || s[6] != '\\' || s[7] != 'u' {
                        None
                    } else {
                        let w = hex4_val(s.subrange(8, 12));
                        if 0xDC00 <= w < 0xE000 {
                            p_str_cons(
                                char_of(0x10000 + (v - 0xD800) * 0x400 + (w - 0xDC00)),
                                s.skip(12),
                            )
                        } else {
                            None
                        }
                    }
                } else if 0xDC00 <= v < 0xE000 {
                    None
                } else {
                    p_str_cons(char_of(v), s.skip(6))
                }
            }
        } else {
            None
        }
    }
}

/// Longest digit prefix and the rest.
pub open spec fn take_digits(s: Seq<char>) -> (Seq<char>, Seq<char>)
    decreases s.len(),
{
    if s.len() > 0 && is_digit(s[0]) {
        let (ds, rest) = take_digits(s.drop_first());
        (seq![s[0]] + ds, rest)
    } else {
        (Seq::empty(), s)
    }
}

pub proof fn lemma_take_digits(s: Seq<char>)
    ensures
        take_digits(s).0 + take_digits(s).1 =~= s,
        take_digits(s).1.len() <= s.len(),
        take_digits(s).0.len() + take_digits(s).1.len() == s.len(),
    decreases s.len(),
{
    if s.len() > 0 && is_digit(s[0]) {
        lemma_take_digits(s.drop_first());
        assert(take_digits(s).0 + take_digits(s).1 =~= seq![s[0]] + (take_digits(s.drop_first()).0
            + take_digits(s.drop_first()).1));
    }
}

/// Every character taken by `take_digits` is a digit.
pub proof fn lemma_take_digits_digits(s: Seq<char>)
    ensures
        forall|i: int|
            0 <= i < take_digits(s).0.len() ==> is_digit(#[trigger] take_digits(s).0[i]),
    decreases s.len(),
{
    if s.len() > 0 && is_digit(s[0]) {
        lemma_take_digits_digits(s.drop_first());
        assert forall|i: int|
            0 <= i < take_digits(s).0.len() implies is_digit(#[trigger] take_digits(s).0[i]) by {
            if i > 0 {
                assert(take_digits(s).0[i] == take_digits(s.drop_first()).0[i - 1]);
            }
        }
    }
}

/// Parses the optional fraction and exponent after the integer part,
/// returning their text and the rest.
pub open spec fn p_frac_exp(s: Seq<char>) -> Option<(Seq<char>, Seq<char>)> {
    let fo: Option<(Seq<char>, Seq<char>)> = if s.len() >= 2 && s[0] == '.' && is_digit(s[1]) {
        let (ds, r) = take_digits(s.drop_first());
        Some((seq!['.'] + ds, r))
    } else if s.len() >= 1 && s[0] == '.' {
        None
    } else {
        Some((Seq::empty(), s))
    };
    match fo {
        None => None,
        Some((frac, s1)) => {
            if s1.len() >= 1 && (s1[0] == 'e' || s1[0] == 'E') {
                let (sgn, s2): (Seq<char>, Seq<char>) = if s1.len() >= 2 && (s1[1] == '+' || s1[1]
                    == '-') {
                    (seq![s1[0], s1[1]], s1.skip(2))
                } else {
                    (seq![s1[0]], s1.drop_first())
                };
                let (ds, s3) = take_digits(s2);
                if ds.len() == 0 {
                    None
                } else {
                    Some((frac + sgn + ds, s3))
                }
            } else {
                Some((frac, s1))
            }
        },
    }
}

/// Parses a JSON numeral at the head of `s`; returns its raw text and
/// the rest of the input.
pub open spec fn p_number(s: Seq<char>) -> Option<(Seq<char>, Seq<char>)> {
    let (sgn, s1): (Seq<char>, Seq<char>) = if s.len() > 0 && s[0] == '-' {
        (seq!['-'], s.drop_first())
    } else {
        (Seq::empty(), s)
    };
    let (ds, s2) = take_digits(s1);
    if ds.len() == 0 {
        None
    } else if ds.len() > 1 && ds[0] == '0' {
        None
    } else {
        match p_frac_exp(s2) {
            Some((fe, s3)) => Some((sgn + ds + fe, s3)),
            None => None,
        }
    }
}

/// Does `s` start like a numeral?
pub open spec fn starts_number(s: Seq<char>) -> bool {
    s.len() > 0 && (s[0] == '-' || is_digit(s[0]))
}

/// Parses one JSON value, preceded by optional whitespace. Returns the
/// value and the unconsumed rest (which may begin with whitespace).
pub open spec fn p_value(s: Seq<char>) -> Option<(JsonV, Seq<char>)>
    decreases s.len(), 0int,
{
    proof {
        lemma_skip_ws_len(s);
    }
    let t = skip_ws(s);
    if t.len() == 0 {
        None
    } else if t[0] == 'n' {
        if t.len() >= 4 && t[1] == 'u' && t[2] == 'l' && t[3] == 'l' {
            Some((JsonV::Null, t.skip(4)))
        } else {
            None
        }
    } else if t[0] == 't' {
        if t.len() >= 4 && t[1] == 'r' && t[2] == 'u' && t[3] == 'e' {
            Some((JsonV::Bool(true), t.skip(4)))
        } else {
            None
        }
    } else if t[0] == 'f' {
        if t.len() >= 5 && t[1] == 'a' && t[2] == 'l' && t[3] == 's' && t[4] == 'e' {
            Some((JsonV::Bool(false), t.skip(5)))
        } else {
            None
        }
    } else if t[0] == '"' {
        match p_string_body(t.drop_first()) {
            Some((cs, rest)) => Some((JsonV::Str(cs), rest)),
            None => None,
        }
    } else if t[0] == '[' {
        let u = skip_ws(t.drop_first());
        if u.len() > 0 && u[0] == ']' {
            Some((JsonV::Arr(Seq::empty()), u.drop_first()))
        } else {
            proof {
                lemma_skip_ws_len(t.drop_first());
            }
            match p_elems(t.drop_first()) {
                Some((vs, rest)) => Some((JsonV::Arr(vs), rest)),
                None => None,
            }
        }
    } else if t[0] == '{' {
        let u = skip_ws(t.drop_first());
        if u.len() > 0 && u[0] == '}' {
            Some((JsonV::Obj(Seq::empty()), u.drop_first()))
        } else {
            match p_members(t.drop_first()) {
                Some((ms, rest)) => Some((JsonV::Obj(ms), rest)),
                None => None,
            }
        }
    } else if starts_number(t) {
        match p_number(t) {
            Some((num, rest)) => Some((JsonV::Num(num), rest)),
            None => None,
        }
    } else {
        None
    }
}

/// Parses a comma-separated list of values followed by `]`.
pub open spec fn p_elems(s: Seq<char>) -> Option<(Seq<JsonV>, Seq<char>)>
    decreases s.len(), 1int,
{
    match p_value(s) {
        None => None,
        Some((v, r1)) => {
            proof {
                lemma_skip_ws_len(r1);
            }
            let r2 = skip_ws(r1);
            if r2.len() == 0 {
                None
            } else if r2[0] == ']' {
                Some((seq![v], r2.drop_first()))
            } else if r2[0] == ',' && r2.len() - 1 < s.len() {
                match p_elems(r2.drop_first()) {
                    Some((vs, r3)) => Some((seq![v] + vs, r3)),
                    None => None,
                }
            } else {
                None
            }
        },
    }
}

/// Parses a comma-separated list of `"key": value` members followed by
/// `}`.
pub open spec fn p_members(s: Seq<char>) -> Option<(Seq<(Seq<char>, JsonV)>, Seq<char>)>
    decreases s.len(), 1int,
{
    proof {
        lemma_skip_ws_len(s);
    }
    let t = skip_ws(s);
    if t.len() == 0 || t[0] != '"' {
        None
    } else {
        match p_string_body(t.drop_first()) {
            None => None,
            Some((key, r1)) => {
                proof {
                    lemma_skip_ws_len(r1);
                }
                let r2 = skip_ws(r1);
                if r2.len() == 0 || r2[0] != ':' {
                    None
                } else if !(r2.len() - 1 < s.len()) {
                    None
                } else {
                    match p_value(r2.drop_first()) {
                        None => None,
                        Some((v, r3)) => {
                            proof {
                                lemma_skip_ws_len(r3);
                            }
                            let r4 = skip_ws(r3);
                            if r4.len() == 0 {
                                None
                            } else if r4[0] == '}' {
                                Some((seq![(key, v)], r4.drop_first()))
                            } else if r4[0] == ',' && r4.len() - 1 < s.len() {
                                match p_members(r4.drop_first()) {
                                    Some((ms, r5)) => Some((seq![(key, v)] + ms, r5)),
                                    None => None,
                                }
                            } else {
                                None
                            }
                        },
                    }
                }
            },
        }
    }
}

/// Parses a complete JSON document: one value and nothing but
/// whitespace after it.
pub open spec fn parse_text(s: Seq<char>) -> Option<JsonV> {
    match p_value(s) {
        Some((j, rest)) => if skip_ws(rest).len() == 0 {
            Some(j)
        } else {
            None
        },
        None => None,
    }
}

// ------------------------------------------------------------------
// Executable serializer
// ------------------------------------------------------------------
/// Appends all characters of `v` to `out`.
pub fn push_all(out: &mut Vec<char>, v: &Vec<char>)
    ensures
        final(out)@ == old(out)@ + v@,
{
    let mut k: usize = 0;
    while k < v.len()
        invariant
            k <= v@.len(),
            out@ == old(out)@ + v@.take(k as int),
        decreases v@.len() - k,
    {
        out.push(v[k]);
        k = k + 1;
        proof {
            assert(out@ =~= old(out)@ + v@.take(k as int));
        }
    }
    proof {
        assert(out@ =~= old(out)@ + v@);
    }
}

fn hex_char_exec(d: u32) -> (r: char)
    requires
        d <= 15,
    ensures
        r == hex_char(d as int),
{
    if d == 10 {
        'a'
    } else if d == 11 {
        'b'
    } else if d == 12 {
        'c'
    } else if d == 13 {
        'd'
    } else if d == 14 {
        'e'
    } else if d == 15 {
        'f'
    } else {
        match crate::chars::char_from_u32(48 + d) {
            Some(c) => {
                proof {
                    crate::chars::lemma_digit_code(c, d as int);
                }
                c
            },
            None => {
                proof {
                    assert(false);
                }
                ' '
            },
        }
    }
}

/// `esc_str` distributes over concatenation.
pub proof fn lemma_esc_str_app(a: Seq<char>, b: Seq<char>)
    ensures
        esc_str(a + b) == esc_str(a) + esc_str(b),
    decreases a.len(),
{
    if a.len() == 0 {
        assert(a + b =~= b);
        assert(esc_str(a) + esc_str(b) =~= esc_str(b));
    } else {
        lemma_esc_str_app(a.drop_first(), b);
        assert((a + b).drop_first() =~= a.drop_first() + b);
        assert(esc_char(a[0]) + (esc_str(a.drop_first()) + esc_str(b)) =~= (esc_char(a[0])
            + esc_str(a.drop_first())) + esc_str(b));
    }
}

/// Appends the escaped form of one character.
fn emit_esc_char(c: char, out: &mut Vec<char>)
    ensures
        final(out)@ == old(out)@ + esc_char(c),
{
    if c == '"' {
        out.push('\\');
        out.push('"');
    } else if c == '\\' {
        out.push('\\');
        out.push('\\');
    } else if c == '\n' {
        out.push('\\');
        out.push('n');
    } else if c == '\r' {
        out.push('\\');
        out.push('r');
    } else if c == '\t' {
        out.push('\\');
        out.push('t');
    } else if c == '\u{8}' {
        out.push('\\');
        out.push('b');
    } else if c == '\u{c}' {
        out.push('\\');
        out.push('f');
    } else if (c as u32) < 0x20 {
        out.push('\\');
        out.push('u');
        out.push('0');
        out.push('0');
        out.push(hex_char_exec((c as u32) / 16));
        out.push(hex_char_exec((c as u32) % 16));
    } else {
        out.push(c);
    }
    proof {
        assert(out@ =~= old(out)@ + esc_char(c));
    }
}

/// Appends the canonical rendering of a string: quotes and escapes.
pub fn emit_string(s: &Vec<char>, out: &mut Vec<char>)
    ensures
        final(out)@ == old(out)@ + ser_string(s@),
{
    out.push('"');
    let mut k: usize = 0;
    while k < s.len()
        invariant
            k <= s@.len(),
            out@ == old(out)@ + seq!['"'] + esc_str(s@.take(k as int)),
        decreases s@.len() - k,
    {
        emit_esc_char(s[k], out);
        proof {
            let cseq = seq![s@[k as int]];
            assert(s@.take(k + 1 as int) =~= s@.take(k as int) + cseq);
            lemma_esc_str_app(s@.take(k as int), cseq);
            assert(cseq.drop_first() =~= Seq::<char>::empty());
            assert(esc_str(Seq::<char>::empty()) =~= Seq::<char>::empty());
            assert(esc_str(cseq) == esc_char(cseq[0]) + esc_str(cseq.drop_first()));
            assert(esc_str(cseq) =~= esc_char(s@[k as int]));
            assert(out@ =~= old(out)@ + seq!['"'] + esc_str(s@.take(k + 1 as int)));
        }
        k = k + 1;
    }
    out.push('"');
    proof {
        assert(s@.take(s@.len() as int) =~= s@);
        assert(out@ =~= old(out)@ + ser_string(s@));
    }
}

/// Appends the canonical rendering of a JSON tree.
pub fn emit_value(j: &Json, out: &mut Vec<char>)
    ensures
        final(out)@ == old(out)@ + ser_value(j.jv()),
    decreases *j, 0int, 0int,
{
    broadcast use {lemma_jv_seq, lemma_jv_members};

    match j {
        Json::Null => {
            out.push('n');
            out.push('u');
            out.push('l');
            out.push('l');
            proof {
                assert(out@ =~= old(out)@ + ser_value(j.jv()));
            }
        },
        Json::Bool(b) => {
            if *b {
                out.push('t');
                out.push('r');
                out.push('u');
                out.push('e');
            } else {
                out.push('f');
                out.push('a');
                out.push('l');
                out.push('s');
                out.push('e');
            }
            proof {
                assert(out@ =~= old(out)@ + ser_value(j.jv()));
            }
        },
        Json::Num(s) => {
            push_all(out, s);
        },
        Json::Str(s) => {
            emit_string(s, out);
        },
        Json::Arr(v) => {
            out.push('[');
            if v.len() > 0 {
                emit_elems(v, 0, out);
            }
            out.push(']');
            proof {
                if v@.len() == 0 {
                    assert(jv_seq(v@) =~= Seq::<JsonV>::empty());
                } else {
                    assert(jv_seq(v@).skip(0) =~= jv_seq(v@));
                }
                assert(ser_value(j.jv()) == seq!['['] + ser_elems(jv_seq(v@)) + seq![']']);
                assert(out@ =~= old(out)@ + (seq!['['] + ser_elems(jv_seq(v@)) + seq![']']));
            }
        },
        Json::Obj(v) => {
            out.push('{');
            if v.len() > 0 {
                emit_members(v, 0, out);
            }
            out.push('}');
            proof {
                if v@.len() == 0 {
                    assert(jv_members(v@) =~= Seq::<(Seq<char>, JsonV)>::empty());
                } else {
                    assert(jv_members(v@).skip(0) =~= jv_members(v@));
                }
                assert(ser_value(j.jv()) == seq!['{'] + ser_members(jv_members(v@)) + seq!['}']);
                assert(out@ =~= old(out)@ + (seq!['{'] + ser_members(jv_members(v@)) + seq!['}']));
            }
        },
    }
}

/// Appends the elements of an array from position `k` on, separated by
/// commas.
fn emit_elems(v: &Vec<Json>, k: usize, out: &mut Vec<char>)
    requires
        k < v@.len(),
    ensures
        final(out)@ == old(out)@ + ser_elems(jv_seq(v@).skip(k as int)),
    decreases v@, v@.len() - k, 1int,
{
    broadcast use lemma_jv_seq;

    proof {
        assert(jv_seq(v@).skip(k as int)[0] == v@[k as int].jv());
    }
    emit_value(&v[k], out);
    if k < v.len() - 1 {
        out.push(',');
        emit_elems(v, k + 1, out);
        proof {
            assert(jv_seq(v@).skip(k as int).drop_first() =~= jv_seq(v@).skip(k + 1 as int));
            assert(out@ =~= old(out)@ + ser_elems(jv_seq(v@).skip(k as int)));
        }
    } else {
        proof {
            assert(jv_seq(v@).skip(k as int).len() == 1);
            assert(out@ =~= old(out)@ + ser_elems(jv_seq(v@).skip(k as int)));
        }
    }
}

/// Appends the members of an object from position `k` on.
fn emit_members(v: &Vec<(Vec<char>, Json)>, k: usize, out: &mut Vec<char>)
    requires
        k < v@.len(),
    ensures
        final(out)@ == old(out)@ + ser_members(jv_members(v@).skip(k as int)),
    decreases v@, v@.len() - k, 1int,
{
    broadcast use lemma_jv_members;

    proof {
        assert(jv_members(v@).skip(k as int)[0] == (v@[k as int].0@, v@[k as int].1.jv()));
    }
    emit_string(&v[k].0, out);
    out.push(':');
    emit_value(&v[k].1, out);
    if k < v.len() - 1 {
        out.push(',');
        emit_members(v, k + 1, out);
        proof {
            assert(jv_members(v@).skip(k as int).drop_first() =~= jv_members(v@).skip(
                k + 1 as int,
            ));
            assert(out@ =~= old(out)@ + ser_members(jv_members(v@).skip(k as int)));
        }
    } else {
        proof {
            assert(jv_members(v@).skip(k as int).len() == 1);
            assert(out@ =~= old(out)@ + ser_members(jv_members(v@).skip(k as int)));
        }
    }
}

/// Renders a JSON tree as text.
pub fn to_text(j: &Json) -> (r: String)
    ensures
        r@ == ser_value(j.jv()),
{
    let mut out: Vec<char> = Vec::new();
    emit_value(j, &mut out);
    proof {
        assert(out@ =~= ser_value(j.jv()));
    }
    crate::chars::chars_to_string(&out)
}

// ------------------------------------------------------------------
// Executable parser
// ------------------------------------------------------------------
fn is_digit_exec(c: char) -> (r: bool)
    ensures
        r == is_digit(c),
{
    '0' <= c && c <= '9'
}

fn is_ws_exec(c: char) -> (r: bool)
    ensures
        r == is_ws(c),
{
    c == ' ' || c == '\n' || c == '\r' || c == '\t'
}

/// Index just past the whitespace that starts at `i`.
fn pe_ws(v: &Vec<char>, i: usize) -> (n: usize)
    requires
        i <= v@.len(),
    ensures
        i <= n <= v@.len(),
        skip_ws(v@.skip(i as int)) == v@.skip(n as int),
{
    let mut n: usize = i;
    loop
        invariant
            i <= n <= v@.len(),
            skip_ws(v@.skip(i as int)) == skip_ws(v@.skip(n as int)),
        ensures
            n <= v@.len(),
            skip_ws(v@.skip(i as int)) == v@.skip(n as int),
        decreases v@.len() - n,
    {
        if n < v.len() && is_ws_exec(v[n]) {
            proof {
                assert(v@.skip(n as int).drop_first() =~= v@.skip(n + 1 as int));
            }
            n = n + 1;
        } else {
            proof {
                if n < v@.len() {
                    assert(!is_ws(v@.skip(n as int)[0]));
                } else {
                    assert(v@.skip(n as int).len() == 0);
                }
                assert(skip_ws(v@.skip(n as int)) == v@.skip(n as int));
            }
            break ;
        }
    }
    n
}

/// Parses a string body starting at `i` (just after the opening
/// quote), appending the decoded content to `out`.
fn pe_string_body(v: &Vec<char>, i: usize, out: &mut Vec<char>) -> (r: Option<usize>)
    requires
        i <= v@.len(),
    ensures
        match r {
            Some(n) => {
                &&& i <= n <= v@.len()
                &&& p_string_body(v@.skip(i as int)) is Some
                &&& (p_string_body(v@.skip(i as int))->0).1 == v@.skip(n as int)
                &&& final(out)@ == old(out)@ + (p_string_body(v@.skip(i as int))->0).0
            },
            None => p_string_body(v@.skip(i as int)) is None,
        },
    decreases v@.len() - i, 1int,
{
    if i >= v.len() {
        return None;
    }
    let c = v[i];
    proof {
        assert(v@.skip(i as int)[0] == c);
        assert(v@.skip(i as int).drop_first() =~= v@.skip(i + 1 as int));
    }
    if c == '"' {
        proof {
            assert(old(out)@ + Seq::<char>::empty() =~= old(out)@);
        }
        Some(i + 1)
    } else if c == '\\' {
        pe_escape(v, i, out)
    } else if (c as u32) < 0x20 {
        None
    } else {
        out.push(c);
        let ghost mid = out@;
        let r = pe_string_body(v, i + 1, out);
        match r {
            Some(n) => {
                proof {
                    let tail = p_string_body(v@.skip(i + 1 as int));
                    assert(out@ =~= old(out)@ + (seq![c] + (tail->0).0));
                }
                Some(n)
            },
            None => None,
        }
    }
}

fn hex_val_exec(c: char) -> (r: i32)
    ensures
        r as int == hex_val(c),
{
    let u = c as u32;
    if 48 <= u && u <= 57 {
        (u - 48) as i32
    } else if 97 <= u && u <= 102 {
        (u - 97 + 10) as i32
    } else if 65 <= u && u <= 70 {
        (u - 65 + 10) as i32
    } else {
        proof {
            assert(!is_digit(c) && !('a' <= c && c <= 'f') && !('A' <= c && c <= 'F'));
        }
        -1
    }
}

/// Parses the escape sequence at `i` (which holds a backslash) and the
/// rest of the string body after it.
#[verifier::rlimit(60)]
fn pe_escape(v: &Vec<char>, i: usize, out: &mut Vec<char>) -> (r: Option<usize>)
    requires
        i < v@.len(),
        v@[i as int] == '\\',
    ensures
        match r {
            Some(n) => {
                &&& i <= n <= v@.len()
                &&& p_escape(v@.skip(i as int)) is Some
                &&& (p_escape(v@.skip(i as int))->0).1 == v@.skip(n as int)
                &&& final(out)@ == old(out)@ + (p_escape(v@.skip(i as int))->0).0
            },
            None => p_escape(v@.skip(i as int)) is None,
        },
    decreases v@.len() - i, 0int,
{
    let ghost s = v@.skip(i as int);
    if v.len() - i < 2 {
        return None;
    }
    let e = v[i + 1];
    proof {
        assert(s[1] == e);
        assert(s.skip(2) =~= v@.skip(i + 2 as int));
    }
    let dec: char;
    let mut after: usize = i + 2;
    if e == '"' || e == '\\' || e == '/' {
        dec = e;
    } else if e == 'n' {
        dec = '\n';
    } else if e == 't' {
        dec = '\t';
    } else if e == 'r' {
        dec = '\r';
    } else if e == 'b' {
        dec = '\u{8}';
    } else if e == 'f' {
        dec = '\u{c}';
    } else if e == 'u' {
        if v.len() - i < 6 {
            return None;
        }
        let h0 = hex_val_exec(v[i + 2]);
        let h1 = hex_val_exec(v[i + 3]);
        let h2 = hex_val_exec(v[i + 4]);
        let h3 = hex_val_exec(v[i + 5]);
        proof {
            assert(s.subrange(2, 6)[0] == v@[i + 2 as int]);
            assert(s.subrange(2, 6)[1] == v@[i + 3 as int]);
            assert(s.subrange(2, 6)[2] == v@[i + 4 as int]);
            assert(s.subrange(2, 6)[3] == v@[i + 5 as int]);
        }
        if h0 < 0 || h1 < 0 || h2 < 0 || h3 < 0 {
            proof {
                assert(hex4_val(s.subrange(2, 6)) < 0);
            }
            return None;
        }
        proof {
            assert(hex_val(s.subrange(2, 6)[0]) <= 15 && hex_val(s.subrange(2, 6)[1]) <= 15
                && hex_val(s.subrange(2, 6)[2]) <= 15 && hex_val(s.subrange(2, 6)[3]) <= 15);
        }
        let code: u32 = (h0 as u32) * 0x1000 + (h1 as u32) * 0x100 + (h2 as u32) * 0x10 + (
        h3 as u32);
        proof {
            assert(code as int == hex4_val(s.subrange(2, 6)));
        }
        if 0xD800 <= code && code < 0xDC00 {
            // High surrogate: a low surrogate escape must follow.
            if v.len() - i < 12 {
                return None;
            }
            if !(v[i + 6] == '\\' && v[i + 7] == 'u') {
                proof {
                    assert(s[6] == v@[i + 6 as int] && s[7] == v@[i + 7 as int]);
                }
                return None;
            }
            proof {
                assert(s[6] == v@[i + 6 as int] && s[7] == v@[i + 7 as int]);
            }
            let g0 = hex_val_exec(v[i + 8]);
            let g1 = hex_val_exec(v[i + 9]);
            let g2 = hex_val_exec(v[i + 10]);
            let g3 = hex_val_exec(v[i + 11]);
            proof {
                assert(s.subrange(8, 12)[0] == v@[i + 8 as int]);
                assert(s.subrange(8, 12)[1] == v@[i + 9 as int]);
                assert(s.subrange(8, 12)[2] == v@[i + 10 as int]);
                assert(s.subrange(8, 12)[3] == v@[i + 11 as int]);
            }
            if g0 < 0 || g1 < 0 || g2 < 0 || g3 < 0 {
                proof {
                    assert(hex4_val(s.subrange(8, 12)) < 0);
                }
                return None;
            }
            proof {
                assert(hex_val(s.subrange(8, 12)[0]) <= 15 && hex_val(s.subrange(8, 12)[1]) <= 15
                    && hex_val(s.subrange(8, 12)[2]) <= 15 && hex_val(s.subrange(8, 12)[3]) <= 15);
            }
            let low: u32 = (g0 as u32) * 0x1000 + (g1 as u32) * 0x100 + (g2 as u32) * 0x10 + (
            g3 as u32);
            proof {
                assert(low as int == hex4_val(s.subrange(8, 12)));
            }
            if !(0xDC00 <= low && low < 0xE000) {
                return None;
            }
            let cp: u32 = 0x10000 + (code - 0xD800) * 0x400 + (low - 0xDC00);
            match crate::chars::char_from_u32(cp) {
                Some(c) => {
                    proof {
                        lemma_char_of(c);
                        assert(char_of(cp as int) == c);
                        assert(s.skip(12) =~= v@.skip(i + 12 as int));
                    }
                    dec = c;
                    after = i + 12;
                },
                None => {
                    proof {
                        assert(false);
                    }
                    return None;
                },
            }
        } else if 0xDC00 <= code && code < 0xE000 {
            return None;
        } else {
            match crate::chars::char_from_u32(code) {
                Some(c) => {
                    proof {
                        lemma_char_of(c);
                        assert(char_of(code as int) == c);
                        assert(s.skip(6) =~= v@.skip(i + 6 as int));
                    }
                    dec = c;
                    after = i + 6;
                },
                None => {
                    proof {
                        assert(false);
                    }
                    return None;
                },
            }
        }
    } else {
        return None;
    }
    out.push(dec);
    let r = pe_string_body(v, after, out);
    match r {
        Some(n) => {
            proof {
                let tail = p_string_body(v@.skip(after as int));
                assert(out@ =~= old(out)@ + (seq![dec] + (tail->0).0));
            }
            Some(n)
        },
        None => None,
    }
}

/// Copies `v[a..b]` into a fresh vector.
pub(crate) fn copy_range(v: &Vec<char>, a: usize, b: usize) -> (r: Vec<char>)
    requires
        a <= b <= v@.len(),
    ensures
        r@ == v@.subrange(a as int, b as int),
{
    let mut r: Vec<char> = Vec::new();
    let mut k: usize = a;
    while k < b
        invariant
            a <= k <= b <= v@.len(),
            r@ == v@.subrange(a as int, k as int),
        decreases b - k,
    {
        r.push(v[k]);
        k = k + 1;
        proof {
            assert(r@ =~= v@.subrange(a as int, k as int));
        }
    }
    r
}

/// Index just past the digits that start at `i`.
pub(crate) fn pe_digits(v: &Vec<char>, i: usize) -> (n: usize)
    requires
        i <= v@.len(),
    ensures
        i <= n <= v@.len(),
        take_digits(v@.skip(i as int)).0 == v@.subrange(i as int, n as int),
        take_digits(v@.skip(i as int)).1 == v@.skip(n as int),
    decreases v@.len() - i,
{
    if i < v.len() {
        let c = v[i];
        if is_digit_exec(c) {
            proof {
                assert(is_digit(v@.skip(i as int)[0]));
                assert(v@.skip(i as int).drop_first() =~= v@.skip(i + 1 as int));
            }
            let n = pe_digits(v, i + 1);
            proof {
                assert(take_digits(v@.skip(i as int)).0 =~= v@.subrange(i as int, n as int));
            }
            return n;
        }
        proof {
            assert(!is_digit(v@.skip(i as int)[0]));
            assert(take_digits(v@.skip(i as int)).0 =~= v@.subrange(i as int, i as int));
        }
    } else {
        proof {
            assert(v@.skip(i as int).len() == 0);
            assert(take_digits(v@.skip(i as int)).0 =~= v@.subrange(i as int, i as int));
        }
    }
    i
}

/// Parses the optional fraction and exponent that start at `i`,
/// returning the index just past them.
#[verifier::rlimit(60)]
fn pe_frac_exp(v: &Vec<char>, i: usize) -> (r: Option<usize>)
    requires
        i <= v@.len(),
    ensures
        match r {
            Some(n) => {
                &&& i <= n <= v@.len()
                &&& p_frac_exp(v@.skip(i as int)) is Some
                &&& (p_frac_exp(v@.skip(i as int))->0).0 == v@.subrange(i as int, n as int)
                &&& (p_frac_exp(v@.skip(i as int))->0).1 == v@.skip(n as int)
            },
            None => p_frac_exp(v@.skip(i as int)) is None,
        },
{
    let ghost s = v@.skip(i as int);
    let mut p: usize = i;
    if i < v.len() && v[i] == '.' && i + 1 < v.len() && is_digit_exec(v[i + 1]) {
        proof {
            assert(s[0] == '.' && is_digit(s[1]));
            assert(s.drop_first() =~= v@.skip(i + 1 as int));
        }
        p = pe_digits(v, i + 1);
        proof {
            crate::json::lemma_take_digits(v@.skip(i + 1 as int));
            assert(seq!['.'] + take_digits(v@.skip(i + 1 as int)).0 =~= v@.subrange(
                i as int,
                p as int,
            ));
        }
    } else if i < v.len() && v[i] == '.' {
        proof {
            assert(s.len() >= 1 && s[0] == '.');
            assert(!(s.len() >= 2 && is_digit(s[1]))) by {
                if s.len() >= 2 {
                    assert(s[1] == v@[i + 1 as int]);
                }
            }
        }
        return None;
    } else {
        proof {
            assert(!(s.len() >= 1 && s[0] == '.')) by {
                if s.len() >= 1 {
                    assert(s[0] == v@[i as int]);
                }
            }
            assert(v@.subrange(i as int, i as int) =~= Seq::<char>::empty());
        }
    }
    let ghost frac = v@.subrange(i as int, p as int);
    let ghost s1 = v@.skip(p as int);
    if p < v.len() && (v[p] == 'e' || v[p] == 'E') {
        proof {
            assert(s1[0] == v@[p as int]);
        }
        let mut es: usize = p + 1;
        if p + 1 < v.len() && (v[p + 1] == '+' || v[p + 1] == '-') {
            proof {
                assert(s1[1] == v@[p + 1 as int]);
                assert(s1.skip(2) =~= v@.skip(p + 2 as int));
                assert(seq![s1[0], s1[1]] =~= v@.subrange(p as int, p + 2 as int));
            }
            es = p + 2;
        } else {
            proof {
                assert(s1.drop_first() =~= v@.skip(p + 1 as int));
                assert(seq![s1[0]] =~= v@.subrange(p as int, p + 1 as int));
            }
        }
        let n = pe_digits(v, es);
        proof {
            crate::json::lemma_take_digits(v@.skip(es as int));
        }
        if n == es {
            proof {
                assert(take_digits(v@.skip(es as int)).0.len() == 0);
            }
            return None;
        }
        proof {
            assert(take_digits(v@.skip(es as int)).0.len() > 0);
            assert(frac + v@.subrange(p as int, es as int) + v@.subrange(es as int, n as int)
                =~= v@.subrange(i as int, n as int));
        }
        Some(n)
    } else {
        proof {
            assert(!(s1.len() >= 1 && (s1[0] == 'e' || s1[0] == 'E'))) by {
                if s1.len() >= 1 {
                    assert(s1[0] == v@[p as int]);
                }
            }
        }
        Some(p)
    }
}

/// Parses a JSON numeral that starts at `i`, returning its raw text
/// and the index just past it.
#[verifier::rlimit(60)]
pub(crate) fn pe_number(v: &Vec<char>, i: usize) -> (r: Option<(Vec<char>, usize)>)
    requires
        i <= v@.len(),
    ensures
        match r {
            Some(p) => {
                &&& i <= p.1 <= v@.len()
                &&& p_number(v@.skip(i as int)) is Some
                &&& (p_number(v@.skip(i as int))->0).0 == p.0@
                &&& p.0@ == v@.subrange(i as int, p.1 as int)
                &&& (p_number(v@.skip(i as int))->0).1 == v@.skip(p.1 as int)
            },
            None => p_number(v@.skip(i as int)) is None,
        },
{
    let ghost s = v@.skip(i as int);
    let mut n: usize = i;
    if i < v.len() && v[i] == '-' {
        proof {
            assert(s[0] == '-');
            assert(s.drop_first() =~= v@.skip(i + 1 as int));
        }
        n = i + 1;
    } else {
        proof {
            assert(!(s.len() > 0 && s[0] == '-')) by {
                if s.len() > 0 {
                    assert(s[0] == v@[i as int]);
                }
            }
        }
    }
    let ghost sgn_end = n;
    let d_end = pe_digits(v, n);
    proof {
        crate::json::lemma_take_digits(v@.skip(n as int));
    }
    if d_end == n {
        proof {
            assert(take_digits(v@.skip(n as int)).0.len() == 0);
        }
        return None;
    }
    if d_end > n + 1 && v[n] == '0' {
        proof {
            assert(take_digits(v@.skip(n as int)).0[0] == v@[n as int]);
        }
        return None;
    }
    proof {
        let ds = take_digits(v@.skip(n as int)).0;
        assert(ds.len() > 0);
        assert(!(ds.len() > 1 && ds[0] == '0')) by {
            if ds.len() > 1 {
                assert(ds[0] == v@[n as int]);
            }
        }
    }
    match pe_frac_exp(v, d_end) {
        None => None,
        Some(end) => {
            let text = copy_range(v, i, end);
            proof {
                let sgn: Seq<char> = if s.len() > 0 && s[0] == '-' {
                    seq!['-']
                } else {
                    Seq::empty()
                };
                assert(sgn =~= v@.subrange(i as int, sgn_end as int));
                assert(sgn + v@.subrange(sgn_end as int, d_end as int) + v@.subrange(
                    d_end as int,
                    end as int,
                ) =~= v@.subrange(i as int, end as int));
            }
            Some((text, end))
        },
    }
}


/// Parses one JSON value beginning at `i` (whitespace allowed first).
#[verifier::rlimit(80)]
fn pe_value(v: &Vec<char>, i: usize) -> (r: Option<(Json, usize)>)
    requires
        i <= v@.len(),
    ensures
        match r {
            Some(p) => i <= p.1 <= v@.len() && p_value(v@.skip(i as int)) == Some(
                (p.0.jv(), v@.skip(p.1 as int)),
            ),
            None => p_value(v@.skip(i as int)) is None,
        },
    decreases v@.len() - i, 0int,
{
    let ghost s = v@.skip(i as int);
    let ti = pe_ws(v, i);
    let ghost t = skip_ws(s);
    proof {
        assert(t == v@.skip(ti as int));
    }
    if ti >= v.len() {
        return None;
    }
    let c = v[ti];
    proof {
        assert(t[0] == c);
        assert(t.len() == v@.len() - ti);
    }
    if c == 'n' {
        if v.len() - ti >= 4 && v[ti + 1] == 'u' && v[ti + 2] == 'l' && v[ti + 3] == 'l' {
            proof {
                assert(t[1] == v@[ti + 1 as int] && t[2] == v@[ti + 2 as int] && t[3] == v@[ti
                    + 3 as int]);
                assert(t.skip(4) =~= v@.skip(ti + 4 as int));
            }
            Some((Json::Null, ti + 4))
        } else {
            proof {
                if t.len() >= 4 {
                    assert(t[1] == v@[ti + 1 as int] && t[2] == v@[ti + 2 as int] && t[3] == v@[ti
                        + 3 as int]);
                }
            }
            None
        }
    } else if c == 't' {
        if v.len() - ti >= 4 && v[ti + 1] == 'r' && v[ti + 2] == 'u' && v[ti + 3] == 'e' {
            proof {
                assert(t[1] == v@[ti + 1 as int] && t[2] == v@[ti + 2 as int] && t[3] == v@[ti
                    + 3 as int]);
                assert(t.skip(4) =~= v@.skip(ti + 4 as int));
            }
            Some((Json::Bool(true), ti + 4))
        } else {
            proof {
                if t.len() >= 4 {
                    assert(t[1] == v@[ti + 1 as int] && t[2] == v@[ti + 2 as int] && t[3] == v@[ti
                        + 3 as int]);
                }
            }
            None
        }
    } else if c == 'f' {
        if v.len() - ti >= 5 && v[ti + 1] == 'a' && v[ti + 2] == 'l' && v[ti + 3] == 's' && v[ti
            + 4] == 'e' {
            proof {
                assert(t[1] == v@[ti + 1 as int] && t[2] == v@[ti + 2 as int] && t[3] == v@[ti
                    + 3 as int] && t[4] == v@[ti + 4 as int]);
                assert(t.skip(5) =~= v@.skip(ti + 5 as int));
            }
            Some((Json::Bool(false), ti + 5))
        } else {
            proof {
                if t.len() >= 5 {
                    assert(t[1] == v@[ti + 1 as int] && t[2] == v@[ti + 2 as int] && t[3] == v@[ti
                        + 3 as int] && t[4] == v@[ti + 4 as int]);
                }
            }
            None
        }
    } else if c == '"' {
        proof {
            assert(t.drop_first() =~= v@.skip(ti + 1 as int));
        }
        let mut sv: Vec<char> = Vec::new();
        match pe_string_body(v, ti + 1, &mut sv) {
            Some(n) => {
                proof {
                    assert(sv@ =~= (p_string_body(v@.skip(ti + 1 as int))->0).0);
                }
                Some((Json::Str(sv), n))
            },
            None => None,
        }
    } else if c == '[' {
        proof {
            assert(t.drop_first() =~= v@.skip(ti + 1 as int));
        }
        let ui = pe_ws(v, ti + 1);
        let ghost u = skip_ws(t.drop_first());
        proof {
            assert(u == v@.skip(ui as int));
        }
        if ui < v.len() && v[ui] == ']' {
            proof {
                assert(u.len() > 0 && u[0] == ']');
                assert(u.drop_first() =~= v@.skip(ui + 1 as int));
            }
            let acc: Vec<Json> = Vec::new();
            proof {
                assert(jv_seq(acc@) =~= Seq::<JsonV>::empty());
            }
            Some((Json::Arr(acc), ui + 1))
        } else {
            proof {
                assert(!(u.len() > 0 && u[0] == ']')) by {
                    if ui < v@.len() {
                        assert(u[0] == v@[ui as int]);
                    }
                }
            }
            let mut acc: Vec<Json> = Vec::new();
            match pe_elems(v, ti + 1, &mut acc) {
                Some(n) => {
                    proof {
                        assert(jv_seq(acc@) =~= (p_elems(v@.skip(ti + 1 as int))->0).0);
                    }
                    Some((Json::Arr(acc), n))
                },
                None => None,
            }
        }
    } else if c == '{' {
        proof {
            assert(t.drop_first() =~= v@.skip(ti + 1 as int));
        }
        let ui = pe_ws(v, ti + 1);
        let ghost u = skip_ws(t.drop_first());
        proof {
            assert(u == v@.skip(ui as int));
        }
        if ui < v.len() && v[ui] == '}' {
            proof {
                assert(u.len() > 0 && u[0] == '}');
                assert(u.drop_first() =~= v@.skip(ui + 1 as int));
            }
            let acc: Vec<(Vec<char>, Json)> = Vec::new();
            proof {
                assert(jv_members(acc@) =~= Seq::<(Seq<char>, JsonV)>::empty());
            }
            Some((Json::Obj(acc), ui + 1))
        } else {
            proof {
                assert(!(u.len() > 0 && u[0] == '}')) by {
                    if ui < v@.len() {
                        assert(u[0] == v@[ui as int]);
                    }
                }
            }
            let mut acc: Vec<(Vec<char>, Json)> = Vec::new();
            match pe_members(v, ti + 1, &mut acc) {
                Some(n) => {
                    proof {
                        assert(jv_members(acc@) =~= (p_members(v@.skip(ti + 1 as int))->0).0);
                    }
                    Some((Json::Obj(acc), n))
                },
                None => None,
            }
        }
    } else if c == '-' || is_digit_exec(c) {
        proof {
            assert(starts_number(t));
        }
        match pe_number(v, ti) {
            Some((txt, n)) => Some((Json::Num(txt), n)),
            None => None,
        }
    } else {
        proof {
            assert(!starts_number(t));
        }
        None
    }
}

/// Parses `value (, value)* ]` beginning at `i`, pushing the values
/// onto `acc`.
#[verifier::rlimit(60)]
fn pe_elems(v: &Vec<char>, i: usize, acc: &mut Vec<Json>) -> (r: Option<usize>)
    requires
        i <= v@.len(),
    ensures
        match r {
            Some(n) => {
                &&& i <= n <= v@.len()
                &&& p_elems(v@.skip(i as int)) is Some
                &&& (p_elems(v@.skip(i as int))->0).1 == v@.skip(n as int)
                &&& jv_seq(final(acc)@) == jv_seq(old(acc)@) + (p_elems(v@.skip(i as int))->0).0
            },
            None => p_elems(v@.skip(i as int)) is None,
        },
    decreases v@.len() - i, 1int,
{
    let ghost s = v@.skip(i as int);
    match pe_value(v, i) {
        None => None,
        Some((j, n1)) => {
            acc.push(j);
            proof {
                assert(acc@.drop_last() =~= old(acc)@);
                assert(jv_seq(acc@) == jv_seq(old(acc)@).push(j.jv()));
            }
            let ghost mid = acc@;
            let n2 = pe_ws(v, n1);
            let ghost r2 = skip_ws(v@.skip(n1 as int));
            proof {
                assert(r2 == v@.skip(n2 as int));
            }
            if n2 < v.len() && v[n2] == ']' {
                proof {
                    assert(r2[0] == ']');
                    assert(r2.drop_first() =~= v@.skip(n2 + 1 as int));
                    assert(jv_seq(acc@) =~= jv_seq(old(acc)@) + seq![j.jv()]);
                }
                Some(n2 + 1)
            } else if n2 < v.len() && v[n2] == ',' {
                proof {
                    assert(r2[0] == ',');
                    assert(r2.len() - 1 < s.len());
                    assert(r2.drop_first() =~= v@.skip(n2 + 1 as int));
                }
                match pe_elems(v, n2 + 1, acc) {
                    Some(n3) => {
                        proof {
                            let vs = (p_elems(v@.skip(n2 + 1 as int))->0).0;
                            assert(jv_seq(acc@) =~= jv_seq(old(acc)@) + (seq![j.jv()] + vs));
                        }
                        Some(n3)
                    },
                    None => None,
                }
            } else {
                proof {
                    if n2 < v@.len() {
                        assert(r2[0] == v@[n2 as int]);
                    } else {
                        assert(r2.len() == 0);
                    }
                }
                None
            }
        },
    }
}

/// Parses `"key": value (, "key": value)* }` beginning at `i`,
/// pushing the members onto `acc`.
#[verifier::rlimit(60)]
fn pe_members(v: &Vec<char>, i: usize, acc: &mut Vec<(Vec<char>, Json)>) -> (r: Option<usize>)
    requires
        i <= v@.len(),
    ensures
        match r {
            Some(n) => {
                &&& i <= n <= v@.len()
                &&& p_members(v@.skip(i as int)) is Some
                &&& (p_members(v@.skip(i as int))->0).1 == v@.skip(n as int)
                &&& jv_members(final(acc)@) == jv_members(old(acc)@) + (p_members(
                    v@.skip(i as int),
                )->0).0
            },
            None => p_members(v@.skip(i as int)) is None,
        },
    decreases v@.len() - i, 1int,
{
    let ghost s = v@.skip(i as int);
    let ti = pe_ws(v, i);
    let ghost t = skip_ws(s);
    proof {
        assert(t == v@.skip(ti as int));
    }
    if ti >= v.len() || v[ti] != '"' {
        proof {
            if ti < v@.len() {
                assert(t[0] == v@[ti as int]);
            }
        }
        return None;
    }
    proof {
        assert(t[0] == '"');
        assert(t.drop_first() =~= v@.skip(ti + 1 as int));
    }
    let mut key: Vec<char> = Vec::new();
    let n1 = match pe_string_body(v, ti + 1, &mut key) {
        Some(n1) => n1,
        None => {
            return None;
        },
    };
    proof {
        assert(key@ =~= (p_string_body(v@.skip(ti + 1 as int))->0).0);
    }
    let n2 = pe_ws(v, n1);
    let ghost r2 = skip_ws(v@.skip(n1 as int));
    proof {
        assert(r2 == v@.skip(n2 as int));
    }
    if n2 >= v.len() || v[n2] != ':' {
        proof {
            if n2 < v@.len() {
                assert(r2[0] == v@[n2 as int]);
            }
        }
        return None;
    }
    proof {
        assert(r2[0] == ':');
        assert(r2.len() - 1 < s.len());
        assert(r2.drop_first() =~= v@.skip(n2 + 1 as int));
    }
    let (j, n3) = match pe_value(v, n2 + 1) {
        Some(p) => p,
        None => {
            return None;
        },
    };
    acc.push((key, j));
    proof {
        assert(acc@.drop_last() =~= old(acc)@);
        assert(jv_members(acc@) == jv_members(old(acc)@).push((acc@.last().0@, acc@.last().1.jv())));
    }
    let n4 = pe_ws(v, n3);
    let ghost r4 = skip_ws(v@.skip(n3 as int));
    proof {
        assert(r4 == v@.skip(n4 as int));
    }
    if n4 < v.len() && v[n4] == '}' {
        proof {
            assert(r4[0] == '}');
            assert(r4.drop_first() =~= v@.skip(n4 + 1 as int));
            assert(jv_members(acc@) =~= jv_members(old(acc)@) + (p_members(s)->0).0);
        }
        Some(n4 + 1)
    } else if n4 < v.len() && v[n4] == ',' {
        proof {
            assert(r4[0] == ',');
            assert(r4.len() - 1 < s.len());
            assert(r4.drop_first() =~= v@.skip(n4 + 1 as int));
        }
        match pe_members(v, n4 + 1, acc) {
            Some(n5) => {
                proof {
                    let ms = (p_members(v@.skip(n4 + 1 as int))->0).0;
                    let kj = (key@, j.jv());
                    assert(jv_members(acc@) =~= jv_members(old(acc)@) + (seq![kj] + ms));
                }
                Some(n5)
            },
            None => None,
        }
    } else {
        proof {
            if n4 < v@.len() {
                assert(r4[0] == v@[n4 as int]);
            } else {
                assert(r4.len() == 0);
            }
        }
        None
    }
}

/// Parses a complete JSON document from text.
pub fn from_text(s: &str) -> (r: Option<Json>)
    ensures
        match r {
            Some(j) => parse_text(s@) == Some(j.jv()),
            None => parse_text(s@) is None,
        },
{
    let v = crate::chars::str_to_chars(s);
    proof {
        assert(v@.skip(0) =~= s@);
    }
    match pe_value(&v, 0) {
        Some((j, n)) => {
            let n2 = pe_ws(&v, n);
            if n2 == v.len() {
                proof {
                    assert(skip_ws(v@.skip(n as int)).len() == 0);
                }
                Some(j)
            } else {
                proof {
                    assert(skip_ws(v@.skip(n as int)).len() > 0);
                }
                None
            }
        },
        None => None,
    }
}

// ------------------------------------------------------------------
// Object member lookup
// ------------------------------------------------------------------
/// How many members carry this key.
pub open spec fn count_key(ms: Seq<(Seq<char>, JsonV)>, k: Seq<char>) -> int
    decreases ms.len(),
{
    if ms.len() == 0 {
        0
    } else {
        (if ms[0].0 == k {
            1int
        } else {
            0int
        }) + count_key(ms.drop_first(), k)
    }
}

/// The value of the first member with this key.
pub open spec fn obj_get(ms: Seq<(Seq<char>, JsonV)>, k: Seq<char>) -> Option<JsonV>
    decreases ms.len(),
{
    if ms.len() == 0 {
        None
    } else if ms[0].0 == k {
        Some(ms[0].1)
    } else {
        obj_get(ms.drop_first(), k)
    }
}

/// A key occurs in an object exactly when the lookup succeeds.
pub proof fn lemma_count_get(ms: Seq<(Seq<char>, JsonV)>, k: Seq<char>)
    ensures
        (count_key(ms, k) > 0) == (obj_get(ms, k) is Some),
        count_key(ms, k) >= 0,
    decreases ms.len(),
{
    if ms.len() > 0 {
        lemma_count_get(ms.drop_first(), k);
    }
}

/// Compares two character vectors.
pub fn chars_eq(a: &Vec<char>, b: &Vec<char>) -> (r: bool)
    ensures
        r == (a@ == b@),
{
    if a.len() != b.len() {
        return false;
    }
    let mut k: usize = 0;
    while k < a.len()
        invariant
            k <= a@.len(),
            a@.len() == b@.len(),
            forall|i: int| 0 <= i < k ==> a@[i] == b@[i],
        decreases a@.len() - k,
    {
        if a[k] != b[k] {
            return false;
        }
        k = k + 1;
    }
    proof {
        assert(a@ =~= b@);
    }
    true
}

/// Counts the members of `ms` whose key is `k`.
pub fn obj_count(ms: &Vec<(Vec<char>, Json)>, k: &Vec<char>) -> (r: usize)
    ensures
        r == count_key(jv_members(ms@), k@),
{
    broadcast use lemma_jv_members;

    let ghost full = jv_members(ms@);
    proof {
        assert(full.skip(0) =~= full);
    }
    let mut acc: usize = 0;
    let mut i: usize = 0;
    while i < ms.len()
        invariant
            i <= ms@.len(),
            acc <= i,
            full == jv_members(ms@),
            acc + count_key(full.skip(i as int), k@) == count_key(full, k@),
        decreases ms@.len() - i,
    {
        proof {
            lemma_jv_members(ms@);
            assert(full[i as int] == (ms@[i as int].0@, ms@[i as int].1.jv()));
            assert(full.skip(i as int)[0] == full[i as int]);
            assert(full.skip(i as int).drop_first() =~= full.skip(i + 1 as int));
        }
        if chars_eq(&ms[i].0, k) {
            acc = acc + 1;
        }
        i = i + 1;
    }
    proof {
        assert(full.skip(ms@.len() as int) =~= Seq::<(Seq<char>, JsonV)>::empty());
        lemma_count_get(full, k@);
    }
    acc
}

/// Finds the first member of `ms` whose key is `k`.
pub fn obj_find(ms: &Vec<(Vec<char>, Json)>, k: &Vec<char>) -> (r: Option<usize>)
    ensures
        match r {
            Some(i) => i < ms@.len() && ms@[i as int].0@ == k@ && obj_get(jv_members(ms@), k@)
                == Some(ms@[i as int].1.jv()),
            None => obj_get(jv_members(ms@), k@) is None,
        },
{
    broadcast use lemma_jv_members;

    let ghost full = jv_members(ms@);
    proof {
        assert(full.skip(0) =~= full);
    }
    let mut i: usize = 0;
    while i < ms.len()
        invariant
            i <= ms@.len(),
            full == jv_members(ms@),
            obj_get(full.skip(i as int), k@) == obj_get(full, k@),
        decreases ms@.len() - i,
    {
        proof {
            lemma_jv_members(ms@);
            assert(full[i as int] == (ms@[i as int].0@, ms@[i as int].1.jv()));
            assert(full.skip(i as int)[0] == full[i as int]);
            assert(full.skip(i as int).drop_first() =~= full.skip(i + 1 as int));
        }
        if chars_eq(&ms[i].0, k) {
            return Some(i);
        }
        i = i + 1;
    }
    proof {
        assert(full.skip(ms@.len() as int) =~= Seq::<(Seq<char>, JsonV)>::empty());
    }
    None
}

// ------------------------------------------------------------------
// The serializer parses back: completeness of the parser on canonical
// output
// ------------------------------------------------------------------
/// Trees the canonical serializer is proved to round-trip: any
/// strings, booleans, nulls, arrays and objects. (The store's records
/// never carry numbers; the zoom file's number is handled by its own
/// module.)
pub open spec fn tree_wf(j: JsonV) -> bool
    decreases j, 1int,
{
    match j {
        JsonV::Null => true,
        JsonV::Bool(_) => true,
        JsonV::Num(_) => false,
        JsonV::Str(_) => true,
        JsonV::Arr(elems) => trees_wf(elems),
        JsonV::Obj(ms) => members_wf(ms),
    }
}

pub open spec fn trees_wf(s: Seq<JsonV>) -> bool
    decreases s, 0int,
{
    forall|i: int| 0 <= i < s.len() ==> tree_wf(#[trigger] s[i])
}

pub open spec fn members_wf(s: Seq<(Seq<char>, JsonV)>) -> bool
    decreases s, 0int,
{
    forall|i: int| 0 <= i < s.len() ==> tree_wf(#[trigger] (s[i].1))
}

/// `hex_char` renders are read back by `hex_val`.
proof fn lemma_hex_roundtrip(d: int)
    requires
        0 <= d <= 15,
    ensures
        hex_val(hex_char(d)) == d,
{
}

/// The escaped form of one character, followed by the rest of a string
/// body, parses back to that character before the rest.
proof fn lemma_escape_roundtrip(c: char, tail: Seq<char>)
    ensures
        ({
            let s = esc_char(c) + tail;
            if c == '"' || c == '\\' || (c as u32) < 0x20 {
                p_escape(s) == p_str_cons(c, tail)
            } else {
                s[0] == c && !((c as u32) < 0x20) && s.drop_first() == tail
            }
        }),
{
    let s = esc_char(c) + tail;
    if c == '"' || c == '\\' {
        assert(s[0] == '\\' && s[1] == c);
        assert(s.skip(2) =~= tail);
    } else if c == '\n' || c == '\r' || c == '\t' || c == '\u{8}' || c == '\u{c}' {
        assert(s.skip(2) =~= tail);
    } else if (c as u32) < 0x20 {
        let v = c as u32 as int;
        assert(s[0] == '\\' && s[1] == 'u');
        assert(s.len() >= 6);
        assert(s.subrange(2, 6) =~= seq!['0', '0', hex_char(v / 16), hex_char(v % 16)]);
        lemma_hex_roundtrip(v / 16);
        lemma_hex_roundtrip(v % 16);
        assert(hex_val('0') == 0);
        assert(hex4_val(s.subrange(2, 6)) == v / 16 * 0x10 + v % 16);
        assert(v / 16 * 0x10 + v % 16 == v);
        assert(hex4_val(s.subrange(2, 6)) == v);
        assert(0 <= v < 0xD800);
        lemma_char_of(c);
        assert(char_of(v) == c);
        assert(s.skip(6) =~= tail);
    } else {
        assert(esc_char(c) =~= seq![c]);
        assert(s[0] == c);
        assert(s.drop_first() =~= tail);
    }
}

/// The escaped content of a string, a closing quote and anything after
/// parse back to the content and that rest.
#[verifier::rlimit(100)]
#[verifier::spinoff_prover]
proof fn lemma_string_roundtrip(s: Seq<char>, rest: Seq<char>)
    ensures
        p_string_body(esc_str(s) + seq!['"'] + rest) == Some((s, rest)),
    decreases s.len(),
{
    let input = esc_str(s) + seq!['"'] + rest;
    if s.len() == 0 {
        assert(input =~= seq!['"'] + rest);
        assert(input[0] == '"');
        assert(input.drop_first() =~= rest);
        assert(p_string_body(input) == Some((Seq::<char>::empty(), rest)));
        assert(s =~= Seq::<char>::empty());
    } else {
        let c = s[0];
        let tail = esc_str(s.drop_first()) + seq!['"'] + rest;
        assert(esc_str(s) == esc_char(c) + esc_str(s.drop_first()));
        assert(input =~= esc_char(c) + tail);
        lemma_escape_roundtrip(c, tail);
        lemma_string_roundtrip(s.drop_first(), rest);
        if c == '"' || c == '\\' || (c as u32) < 0x20 {
            assert(input[0] == '\\');
            assert(p_string_body(input) == p_escape(input));
            assert(p_escape(esc_char(c) + tail) == p_str_cons(c, tail));
            assert(p_str_cons(c, tail) == Some((seq![c] + s.drop_first(), rest)));
            assert(seq![c] + s.drop_first() =~= s);
        } else {
            assert(input[0] == c);
            assert(c != '"' && c != '\\' && !((c as u32) < 0x20));
            assert(p_string_body(input) == p_str_cons(c, input.drop_first()));
            assert(input.drop_first() =~= tail);
            assert(p_str_cons(c, tail) == Some((seq![c] + s.drop_first(), rest)));
            assert(seq![c] + s.drop_first() =~= s);
        }
    }
}

/// The canonical rendering of a well-formed tree starts with its
/// value's first character, which is never whitespace nor a closing
/// delimiter nor a comma.
proof fn lemma_ser_head(j: JsonV)
    requires
        tree_wf(j),
    ensures
        ser_value(j).len() >= 1,
        !is_ws(ser_value(j)[0]),
        ser_value(j)[0] != ']' && ser_value(j)[0] != '}' && ser_value(j)[0] != ',',
        ser_value(j)[0] == 'n' || ser_value(j)[0] == 't' || ser_value(j)[0] == 'f' || ser_value(
            j,
        )[0] == '"' || ser_value(j)[0] == '[' || ser_value(j)[0] == '{',
{
    match j {
        JsonV::Null => {},
        JsonV::Bool(b) => {},
        JsonV::Num(_) => {},
        JsonV::Str(s) => {
            assert(ser_value(j)[0] == '"');
        },
        JsonV::Arr(elems) => {
            assert(ser_value(j)[0] == '[');
        },
        JsonV::Obj(ms) => {
            assert(ser_value(j)[0] == '{');
        },
    }
}

/// Skipping whitespace is the identity on text that does not start
/// with whitespace.
proof fn lemma_skip_ws_noop(s: Seq<char>)
    requires
        s.len() == 0 || !is_ws(s[0]),
    ensures
        skip_ws(s) == s,
{
}

/// The canonical rendering of a well-formed tree, followed by
/// anything, parses back to the tree and that rest.
#[verifier::rlimit(100)]
#[verifier::spinoff_prover]
pub proof fn lemma_parse_after_ser(j: JsonV, rest: Seq<char>)
    requires
        tree_wf(j),
    ensures
        p_value(ser_value(j) + rest) == Some((j, rest)),
    decreases j, 1int,
{
    let input = ser_value(j) + rest;
    lemma_ser_head(j);
    lemma_skip_ws_noop(input);
    assert(skip_ws(input) == input);
    match j {
        JsonV::Null => {
            assert(ser_value(j) == seq!['n', 'u', 'l', 'l']);
            assert(input.len() >= 4);
            assert(input[0] == 'n' && input[1] == 'u' && input[2] == 'l' && input[3] == 'l');
            assert(input.skip(4) =~= rest);
            assert(p_value(input) == Some((JsonV::Null, input.skip(4))));
            assert(p_value(ser_value(j) + rest) == Some((j, rest)));
        },
        JsonV::Bool(b) => {
            if b {
                assert(ser_value(j) == seq!['t', 'r', 'u', 'e']);
                assert(input.len() >= 4);
                assert(input[0] == 't' && input[1] == 'r' && input[2] == 'u' && input[3] == 'e');
                assert(input.skip(4) =~= rest);
                assert(p_value(input) == Some((JsonV::Bool(true), input.skip(4))));
                assert(p_value(ser_value(j) + rest) == Some((j, rest)));
            } else {
                assert(ser_value(j) == seq!['f', 'a', 'l', 's', 'e']);
                assert(input.len() >= 5);
                assert(input[0] == 'f' && input[1] == 'a' && input[2] == 'l' && input[3] == 's'
                    && input[4] == 'e');
                assert(input.skip(5) =~= rest);
                assert(p_value(input) == Some((JsonV::Bool(false), input.skip(5))));
                assert(p_value(ser_value(j) + rest) == Some((j, rest)));
            }
        },
        JsonV::Num(_) => {
            assert(false);
        },
        JsonV::Str(s) => {
            assert(input[0] == '"');
            assert(input.drop_first() =~= esc_str(s) + seq!['"'] + rest);
            lemma_string_roundtrip(s, rest);
            assert(p_value(ser_value(j) + rest) == Some((j, rest)));
        },
        JsonV::Arr(elems) => {
            assert(input[0] == '[');
            if elems.len() == 0 {
                assert(ser_elems(elems) =~= Seq::<char>::empty());
                assert(input.drop_first() =~= seq![']'] + rest);
                lemma_skip_ws_noop(input.drop_first());
                let u = skip_ws(input.drop_first());
                assert(u == input.drop_first());
                assert(u.len() > 0 && u[0] == ']');
                assert(u.drop_first() =~= rest);
                assert(elems =~= Seq::<JsonV>::empty());
                assert(p_value(input) == Some((JsonV::Arr(Seq::empty()), u.drop_first())));
                assert(p_value(ser_value(j) + rest) == Some((j, rest)));
            } else {
                let u0 = ser_elems(elems) + seq![']'] + rest;
                assert(input.drop_first() =~= u0);
                lemma_elems_roundtrip(elems, rest);
                lemma_ser_head(elems[0]);
                assert(u0[0] == ser_value(elems[0])[0]) by {
                    if elems.len() == 1 {
                        assert(ser_elems(elems) == ser_value(elems[0]));
                    } else {
                        assert(ser_elems(elems) == ser_value(elems[0]) + seq![','] + ser_elems(
                            elems.drop_first(),
                        ));
                    }
                }
                lemma_skip_ws_noop(u0);
                let u = skip_ws(input.drop_first());
                assert(u == u0);
                assert(!(u.len() > 0 && u[0] == ']'));
                assert(p_elems(input.drop_first()) == Some((elems, rest)));
                assert(p_value(input) == Some((JsonV::Arr(elems), rest)));
                assert(p_value(ser_value(j) + rest) == Some((j, rest)));
            }
        },
        JsonV::Obj(ms) => {
            assert(input[0] == '{');
            if ms.len() == 0 {
                assert(ser_members(ms) =~= Seq::<char>::empty());
                assert(input.drop_first() =~= seq!['}'] + rest);
                lemma_skip_ws_noop(input.drop_first());
                let u = skip_ws(input.drop_first());
                assert(u == input.drop_first());
                assert(u.len() > 0 && u[0] == '}');
                assert(u.drop_first() =~= rest);
                assert(ms =~= Seq::<(Seq<char>, JsonV)>::empty());
                assert(p_value(input) == Some((JsonV::Obj(Seq::empty()), u.drop_first())));
                assert(p_value(ser_value(j) + rest) == Some((j, rest)));
            } else {
                let u0 = ser_members(ms) + seq!['}'] + rest;
                assert(input.drop_first() =~= u0);
                lemma_members_roundtrip(ms, rest);
                assert(u0[0] == '"') by {
                    if ms.len() == 1 {
                        assert(ser_members(ms) == ser_string(ms[0].0) + seq![':'] + ser_value(
                            ms[0].1,
                        ));
                    } else {
                        assert(ser_members(ms) == ser_string(ms[0].0) + seq![':'] + ser_value(
                            ms[0].1,
                        ) + seq![','] + ser_members(ms.drop_first()));
                    }
                    assert(ser_string(ms[0].0)[0] == '"');
                }
                lemma_skip_ws_noop(u0);
                let u = skip_ws(input.drop_first());
                assert(u == u0);
                assert(!(u.len() > 0 && u[0] == '}'));
                assert(p_members(input.drop_first()) == Some((ms, rest)));
                assert(p_value(input) == Some((JsonV::Obj(ms), rest)));
                assert(p_value(ser_value(j) + rest) == Some((j, rest)));
            }
        },
    }
}

/// The canonical rendering of a nonempty element list, a closing
/// bracket and anything after parse back to the elements and that
/// rest.
#[verifier::rlimit(100)]
#[verifier::spinoff_prover]
proof fn lemma_elems_roundtrip(elems: Seq<JsonV>, rest: Seq<char>)
    requires
        trees_wf(elems),
        elems.len() >= 1,
    ensures
        p_elems(ser_elems(elems) + seq![']'] + rest) == Some((elems, rest)),
    decreases elems, 0int,
{
    let input = ser_elems(elems) + seq![']'] + rest;
    let e0 = elems[0];
    assert(tree_wf(e0));
    lemma_ser_head(e0);
    if elems.len() == 1 {
        assert(ser_elems(elems) == ser_value(e0));
        let after = seq![']'] + rest;
        assert(input =~= ser_value(e0) + after);
        lemma_parse_after_ser(e0, after);
        assert(p_value(input) == Some((e0, after)));
        lemma_skip_ws_noop(after);
        assert(after[0] == ']');
        assert(after.drop_first() =~= rest);
        assert(seq![e0] =~= elems);
    } else {
        let tail = elems.drop_first();
        assert(trees_wf(tail)) by {
            assert(forall|i: int| 0 <= i < tail.len() ==> tail[i] == elems[i + 1]);
        }
        assert(ser_elems(elems) == ser_value(e0) + seq![','] + ser_elems(tail));
        let after = seq![','] + (ser_elems(tail) + seq![']'] + rest);
        assert(input =~= ser_value(e0) + after);
        lemma_parse_after_ser(e0, after);
        assert(p_value(input) == Some((e0, after)));
        lemma_skip_ws_noop(after);
        assert(after[0] == ',');
        assert(after.len() - 1 < input.len());
        assert(after.drop_first() =~= ser_elems(tail) + seq![']'] + rest);
        lemma_elems_roundtrip(tail, rest);
        assert(p_elems(after.drop_first()) == Some((tail, rest)));
        assert(seq![e0] + tail =~= elems);
    }
}

/// The canonical rendering of a nonempty member list, a closing brace
/// and anything after parse back to the members and that rest.
#[verifier::rlimit(100)]
#[verifier::spinoff_prover]
proof fn lemma_members_roundtrip(ms: Seq<(Seq<char>, JsonV)>, rest: Seq<char>)
    requires
        members_wf(ms),
        ms.len() >= 1,
    ensures
        p_members(ser_members(ms) + seq!['}'] + rest) == Some((ms, rest)),
    decreases ms, 0int,
{
    let input = ser_members(ms) + seq!['}'] + rest;
    let key = ms[0].0;
    let v0 = ms[0].1;
    assert(tree_wf(v0));
    lemma_skip_ws_noop(input);
    assert(input[0] == '"');
    if ms.len() == 1 {
        assert(ser_members(ms) == ser_string(key) + seq![':'] + ser_value(v0));
        let after_key = seq![':'] + ser_value(v0) + seq!['}'] + rest;
        assert(input.drop_first() =~= esc_str(key) + seq!['"'] + after_key);
        lemma_string_roundtrip(key, after_key);
        lemma_skip_ws_noop(after_key);
        assert(after_key[0] == ':');
        assert(after_key.len() - 1 < input.len());
        let after_colon = ser_value(v0) + (seq!['}'] + rest);
        assert(after_key.drop_first() =~= after_colon);
        lemma_parse_after_ser(v0, seq!['}'] + rest);
        lemma_skip_ws_noop(seq!['}'] + rest);
        assert((seq!['}'] + rest)[0] == '}');
        assert((seq!['}'] + rest).drop_first() =~= rest);
        assert(seq![(key, v0)] =~= ms);
    } else {
        let tail = ms.drop_first();
        assert(members_wf(tail)) by {
            assert(forall|i: int| 0 <= i < tail.len() ==> tail[i] == ms[i + 1]);
        }
        assert(ser_members(ms) == ser_string(key) + seq![':'] + ser_value(v0) + seq![',']
            + ser_members(tail));
        let after_key = seq![':'] + ser_value(v0) + seq![','] + (ser_members(tail) + seq!['}']
            + rest);
        assert(input.drop_first() =~= esc_str(key) + seq!['"'] + after_key);
        lemma_string_roundtrip(key, after_key);
        lemma_skip_ws_noop(after_key);
        assert(after_key[0] == ':');
        assert(after_key.len() - 1 < input.len());
        let comma_on = seq![','] + (ser_members(tail) + seq!['}'] + rest);
        assert(after_key.drop_first() =~= ser_value(v0) + comma_on);
        lemma_parse_after_ser(v0, comma_on);
        lemma_skip_ws_noop(comma_on);
        assert(comma_on[0] == ',');
        assert(comma_on.len() - 1 < input.len());
        assert(comma_on.drop_first() =~= ser_members(tail) + seq!['}'] + rest);
        lemma_members_roundtrip(tail, rest);
        assert(seq![(key, v0)] + tail =~= ms);
    }
}

/// A whole canonical document parses back to its tree.
pub proof fn lemma_parse_text_roundtrip(j: JsonV)
    requires
        tree_wf(j),
    ensures
        parse_text(ser_value(j)) == Some(j),
{
    assert(ser_value(j) + Seq::<char>::empty() =~= ser_value(j));
    lemma_parse_after_ser(j, Seq::empty());
    assert(skip_ws(Seq::<char>::empty()).len() == 0);
}

/// The value of the last member with this key: JSON readers in the
/// style of a value tree let a later duplicate override an earlier
/// one.
pub open spec fn obj_get_last(ms: Seq<(Seq<char>, JsonV)>, k: Seq<char>) -> Option<JsonV>
    decreases ms.len(),
{
    if ms.len() == 0 {
        None
    } else if ms.last().0 == k {
        Some(ms.last().1)
    } else {
        obj_get_last(ms.drop_last(), k)
    }
}

/// Finds the last member of `ms` whose key is `k`.
pub fn obj_rfind(ms: &Vec<(Vec<char>, Json)>, k: &Vec<char>) -> (r: Option<usize>)
    ensures
        match r {
            Some(i) => i < ms@.len() && ms@[i as int].0@ == k@ && obj_get_last(jv_members(ms@), k@)
                == Some(ms@[i as int].1.jv()),
            None => obj_get_last(jv_members(ms@), k@) is None,
        },
{
    let ghost full = jv_members(ms@);
    proof {
        lemma_jv_members(ms@);
        assert(full.take(ms@.len() as int) =~= full);
    }
    let mut i: usize = ms.len();
    while i > 0
        invariant
            i <= ms@.len(),
            full == jv_members(ms@),
            obj_get_last(full.take(i as int), k@) == obj_get_last(full, k@),
        decreases i,
    {
        proof {
            lemma_jv_members(ms@);
            assert(full[i - 1] == (ms@[i - 1].0@, ms@[i - 1].1.jv()));
            assert(full.take(i as int).last() == full[i - 1]);
            assert(full.take(i as int).drop_last() =~= full.take(i - 1));
        }
        if chars_eq(&ms[i - 1].0, k) {
            return Some(i - 1);
        }
        i = i - 1;
    }
    proof {
        assert(full.take(0) =~= Seq::<(Seq<char>, JsonV)>::empty());
    }
    None
}

// ------------------------------------------------------------------
// Numeral completeness: a numeral that lexes on its own also lexes at
// the head of a longer text, as long as no numeral character follows
// ------------------------------------------------------------------
/// Could this character extend a numeral to its right?
pub open spec fn num_cont(c: char) -> bool {
    is_digit(c) || c == '.' || c == 'e' || c == 'E'
}

/// How `take_digits` treats a concatenation.
proof fn lemma_take_digits_concat(s: Seq<char>, rest: Seq<char>)
    ensures
        take_digits(s + rest) == (if take_digits(s).1.len() > 0 {
            (take_digits(s).0, take_digits(s).1 + rest)
        } else {
            (take_digits(s).0 + take_digits(rest).0, take_digits(rest).1)
        }),
    decreases s.len(),
{
    if s.len() == 0 {
        assert(s + rest =~= rest);
        assert(take_digits(s).0 =~= Seq::<char>::empty());
        assert(take_digits(s).0 + take_digits(rest).0 =~= take_digits(rest).0);
    } else if is_digit(s[0]) {
        assert((s + rest)[0] == s[0]);
        assert((s + rest).drop_first() =~= s.drop_first() + rest);
        lemma_take_digits_concat(s.drop_first(), rest);
        if take_digits(s.drop_first()).1.len() > 0 {
            assert(take_digits(s + rest).0 =~= take_digits(s).0);
        } else {
            assert(seq![s[0]] + (take_digits(s.drop_first()).0 + take_digits(rest).0) =~= (seq![
                s[0],
            ] + take_digits(s.drop_first()).0) + take_digits(rest).0);
            assert(take_digits(s + rest).0 =~= take_digits(s).0 + take_digits(rest).0);
        }
    } else {
        assert((s + rest)[0] == s[0]);
        assert(take_digits(s + rest) == (Seq::<char>::empty(), s + rest));
        assert(take_digits(s) == (Seq::<char>::empty(), s));
        assert(take_digits(s).1 + rest =~= s + rest);
    }
}

/// The fraction-and-exponent lexer extends from a complete text to a
/// longer one when no numeral character follows.
proof fn lemma_p_frac_exp_extends(s: Seq<char>, rest: Seq<char>)
    requires
        p_frac_exp(s) is Some,
        (p_frac_exp(s)->0).1 == Seq::<char>::empty(),
        rest.len() > 0 ==> !num_cont(rest[0]),
    ensures
        p_frac_exp(s + rest) == Some(((p_frac_exp(s)->0).0, rest)),
{
    let fe = (p_frac_exp(s)->0).0;
    if s.len() >= 2 && s[0] == '.' && is_digit(s[1]) {
        assert((s + rest)[0] == s[0] && (s + rest)[1] == s[1]);
        assert((s + rest).drop_first() =~= s.drop_first() + rest);
        lemma_take_digits_concat(s.drop_first(), rest);
        lemma_take_digits(s.drop_first());
        let fd = take_digits(s.drop_first()).0;
        let s1 = take_digits(s.drop_first()).1;
        if s1.len() > 0 {
            // an exponent follows the fraction
            assert(s1[0] == 'e' || s1[0] == 'E');
            assert(take_digits((s + rest).drop_first()) == (fd, s1 + rest));
            assert((s1 + rest)[0] == s1[0]);
            lemma_exp_extends(s1, rest, seq!['.'] + fd, fe);
        } else {
            // the fraction ends the numeral
            assert(take_digits((s + rest).drop_first()) == (fd + take_digits(rest).0,
            take_digits(rest).1));
            if rest.len() > 0 {
                assert(!is_digit(rest[0]));
            }
            assert(take_digits(rest) == (Seq::<char>::empty(), rest));
            assert(fd + Seq::<char>::empty() =~= fd);
            if rest.len() > 0 {
                assert(rest[0] != 'e' && rest[0] != 'E');
            }
            assert(p_frac_exp(s + rest) == Some((seq!['.'] + fd, rest)));
            assert(fe =~= seq!['.'] + fd);
        }
    } else {
        assert(s.len() >= 1 ==> s[0] != '.') by {
            if s.len() >= 1 && s[0] == '.' {
                assert(p_frac_exp(s) is None);
            }
        }
        if s.len() == 0 {
            assert(s + rest =~= rest);
            assert(fe =~= Seq::<char>::empty());
            if rest.len() > 0 {
                assert(rest[0] != '.' && rest[0] != 'e' && rest[0] != 'E');
            }
            assert(p_frac_exp(rest) == Some((Seq::<char>::empty(), rest)));
        } else {
            assert((s + rest)[0] == s[0]);
            assert(s[0] == 'e' || s[0] == 'E' || !(s[0] == '.' || s[0] == 'e' || s[0] == 'E'));
            if s[0] == 'e' || s[0] == 'E' {
                lemma_exp_extends(s, rest, Seq::empty(), fe);
            } else {
                // no fraction, no exponent: the numeral ended at `s`'s head,
                // which contradicts the empty remainder unless s is empty
                assert((p_frac_exp(s)->0).1 == s);
                assert(false);
            }
        }
    }
}

/// Helper for the exponent part: `s1` starts with its marker.
proof fn lemma_exp_extends(s1: Seq<char>, rest: Seq<char>, frac: Seq<char>, fe: Seq<char>)
    requires
        s1.len() >= 1 && (s1[0] == 'e' || s1[0] == 'E'),
        rest.len() > 0 ==> !num_cont(rest[0]),
        ({
            let (sgn, s2): (Seq<char>, Seq<char>) = if s1.len() >= 2 && (s1[1] == '+' || s1[1]
                == '-') {
                (seq![s1[0], s1[1]], s1.skip(2))
            } else {
                (seq![s1[0]], s1.drop_first())
            };
            &&& take_digits(s2).0.len() > 0
            &&& take_digits(s2).1.len() == 0
            &&& fe == frac + sgn + take_digits(s2).0
        }),
    ensures
        ({
            let t1 = s1 + rest;
            let (sgn, s2): (Seq<char>, Seq<char>) = if t1.len() >= 2 && (t1[1] == '+' || t1[1]
                == '-') {
                (seq![t1[0], t1[1]], t1.skip(2))
            } else {
                (seq![t1[0]], t1.drop_first())
            };
            &&& take_digits(s2).0.len() > 0
            &&& take_digits(s2).1 == rest
            &&& fe == frac + sgn + take_digits(s2).0
        }),
{
    let t1 = s1 + rest;
    assert(t1[0] == s1[0]);
    if s1.len() >= 2 && (s1[1] == '+' || s1[1] == '-') {
        assert(t1[1] == s1[1]);
        assert(t1.skip(2) =~= s1.skip(2) + rest);
        lemma_take_digits_concat(s1.skip(2), rest);
        if rest.len() > 0 {
            assert(!is_digit(rest[0]));
        }
        assert(take_digits(rest) == (Seq::<char>::empty(), rest));
        assert(take_digits(s1.skip(2)).0 + Seq::<char>::empty() =~= take_digits(s1.skip(2)).0);
    } else {
        // s1 has at least one digit after the marker, so s1[1] exists
        // and is a digit
        lemma_take_digits(s1.drop_first());
        assert(s1.len() >= 2) by {
            if s1.len() == 1 {
                assert(s1.drop_first() =~= Seq::<char>::empty());
                assert(take_digits(s1.drop_first()).0.len() == 0);
            }
        }
        assert(is_digit(s1[1])) by {
            if !is_digit(s1[1]) {
                assert(s1.drop_first()[0] == s1[1]);
                assert(take_digits(s1.drop_first()).0.len() == 0);
            }
        }
        assert(t1.len() >= 2 && t1[1] == s1[1]);
        assert(!(t1[1] == '+' || t1[1] == '-'));
        assert(t1.drop_first() =~= s1.drop_first() + rest);
        lemma_take_digits_concat(s1.drop_first(), rest);
        if rest.len() > 0 {
            assert(!is_digit(rest[0]));
        }
        assert(take_digits(rest) == (Seq::<char>::empty(), rest));
        assert(take_digits(s1.drop_first()).0 + Seq::<char>::empty() =~= take_digits(
            s1.drop_first(),
        ).0);
    }
}

/// A complete numeral still lexes, unchanged, at the head of a longer
/// text whose next character cannot extend it.
pub proof fn lemma_p_number_extends(t: Seq<char>, rest: Seq<char>)
    requires
        p_number(t) == Some((t, Seq::<char>::empty())),
        rest.len() > 0 ==> !num_cont(rest[0]),
    ensures
        p_number(t + rest) == Some((t, rest)),
{
    let w = t + rest;
    let neg = t.len() > 0 && t[0] == '-';
    assert(t.len() > 0) by {
        if t.len() == 0 {
            assert(take_digits(t).0.len() == 0);
        }
    }
    assert(w[0] == t[0]);
    let s1 = if neg {
        t.drop_first()
    } else {
        t
    };
    let w1 = if neg {
        w.drop_first()
    } else {
        w
    };
    assert(w1 =~= s1 + rest);
    lemma_take_digits_concat(s1, rest);
    lemma_take_digits(s1);
    let ds = take_digits(s1).0;
    let s2 = take_digits(s1).1;
    assert(ds.len() > 0);
    if s2.len() > 0 {
        assert(take_digits(w1) == (ds, s2 + rest));
        lemma_p_frac_exp_extends(s2, rest);
        assert((p_frac_exp(s2)->0).1 == Seq::<char>::empty());
        assert(p_frac_exp(s2 + rest) == Some(((p_frac_exp(s2)->0).0, rest)));
    } else {
        if rest.len() > 0 {
            assert(!is_digit(rest[0]));
        }
        assert(take_digits(rest) == (Seq::<char>::empty(), rest));
        assert(take_digits(w1) == (ds + Seq::<char>::empty(), rest));
        assert(ds + Seq::<char>::empty() =~= ds);
        assert(s2 =~= Seq::<char>::empty());
        lemma_p_frac_exp_extends(s2, rest);
    }
}

/// A one-member object holding a numeral parses back whole: the shape
/// of the store's numeric preference files.
#[verifier::rlimit(100)]
#[verifier::spinoff_prover]
pub proof fn lemma_num_obj_roundtrip(key: Seq<char>, t: Seq<char>)
    requires
        p_number(t) == Some((t, Seq::<char>::empty())),
    ensures
        parse_text(ser_value(JsonV::Obj(seq![(key, JsonV::Num(t))]))) == Some(
            JsonV::Obj(seq![(key, JsonV::Num(t))]),
        ),
{
    let ms = seq![(key, JsonV::Num(t))];
    let j = JsonV::Obj(ms);
    let input = ser_value(j);
    // the numeral starts with a sign or a digit
    lemma_take_digits(if t.len() > 0 && t[0] == '-' {
        t.drop_first()
    } else {
        t
    });
    crate::json::lemma_take_digits_digits(
        if t.len() > 0 && t[0] == '-' {
            t.drop_first()
        } else {
            t
        },
    );
    assert(t.len() > 0) by {
        if t.len() == 0 {
            assert(take_digits(t).0.len() == 0);
        }
    }
    assert(starts_number(t)) by {
        if !(t[0] == '-') {
            assert(take_digits(t).0.len() > 0);
            assert(take_digits(t).0[0] == t[0]);
        }
    }
    assert(ser_members(ms) == ser_string(key) + seq![':'] + ser_value(ms[0].1));
    assert(ser_value(ms[0].1) == t);
    assert(input == seq!['{'] + ser_members(ms) + seq!['}']);
    assert(input[0] == '{');
    lemma_skip_ws_noop(input);
    let inner = ser_members(ms) + seq!['}'] + Seq::<char>::empty();
    assert(input.drop_first() =~= inner);
    assert(inner[0] == '"') by {
        assert(ser_string(key)[0] == '"');
    }
    lemma_skip_ws_noop(inner);
    // the member: key string, colon, numeral, closing brace
    let after_key = seq![':'] + t + seq!['}'];
    assert(inner.drop_first() =~= esc_str(key) + seq!['"'] + after_key);
    lemma_string_roundtrip(key, after_key);
    lemma_skip_ws_noop(after_key);
    assert(after_key[0] == ':');
    assert(after_key.len() - 1 < inner.len());
    let numeral_on = t + seq!['}'];
    assert(after_key.drop_first() =~= numeral_on);
    // the numeral itself
    assert(!is_ws(numeral_on[0]) && numeral_on[0] != 'n' && numeral_on[0] != 't' && numeral_on[0]
        != 'f' && numeral_on[0] != '"' && numeral_on[0] != '[' && numeral_on[0] != '{');
    lemma_skip_ws_noop(numeral_on);
    lemma_p_number_extends(t, seq!['}']);
    assert(starts_number(numeral_on));
    assert(p_value(numeral_on) == Some((JsonV::Num(t), seq!['}'])));
    lemma_skip_ws_noop(seq!['}']);
    assert((seq!['}']).drop_first() =~= Seq::<char>::empty());
    assert(p_members(inner) == Some((ms, Seq::<char>::empty())));
    assert(skip_ws(inner)[0] != '}');
    assert(p_value(input) == Some((j, Seq::<char>::empty())));
    assert(skip_ws(Seq::<char>::empty()).len() == 0);
}

} // verus!
