//! The persistence format, as mathematics.  `render_device` says exactly
//! which character sequence a session is stored as: a pretty-printed JSON
//! object with one line per field.  `parse_device` says exactly which inputs
//! deserialization accepts: any JSON object carrying the five correctly
//! typed fields, member order and insignificant whitespace notwithstanding,
//! and what session such a document denotes.

use vstd::prelude::*;
use vstd::arithmetic::div_mod::{lemma_div_denominator, lemma_fundamental_div_mod, lemma_mod_bound};
use crate::device::DeviceView;

verus! {

// ---------------------------------------------------------------------------
// Characters, digits, whitespace
// ---------------------------------------------------------------------------

/// Value of a decimal digit character, or -1 for any other character.
pub open spec fn digit_val(c: char) -> int {
    if c == '0' { 0 }
    else if c == '1' { 1 }
    else if c == '2' { 2 }
    else if c == '3' { 3 }
    else if c == '4' { 4 }
    else if c == '5' { 5 }
    else if c == '6' { 6 }
    else if c == '7' { 7 }
    else if c == '8' { 8 }
    else if c == '9' { 9 }
    else { -1 }
}

pub open spec fn is_digit(c: char) -> bool {
    digit_val(c) >= 0
}

/// The decimal digit character for a value below ten.
pub open spec fn digit_char(d: int) -> char {
    if d == 0 { '0' }
    else if d == 1 { '1' }
    else if d == 2 { '2' }
    else if d == 3 { '3' }
    else if d == 4 { '4' }
    else if d == 5 { '5' }
    else if d == 6 { '6' }
    else if d == 7 { '7' }
    else if d == 8 { '8' }
    else { '9' }
}

/// Value of a hexadecimal digit character, either case, or -1.
pub open spec fn hex_val(c: char) -> int {
    if c == 'a' || c == 'A' { 10 }
    else if c == 'b' || c == 'B' { 11 }
    else if c == 'c' || c == 'C' { 12 }
    else if c == 'd' || c == 'D' { 13 }
    else if c == 'e' || c == 'E' { 14 }
    else if c == 'f' || c == 'F' { 15 }
    else { digit_val(c) }
}

pub open spec fn is_hex(c: char) -> bool {
    hex_val(c) >= 0
}

/// The lowercase hexadecimal digit character for a value below sixteen.
pub open spec fn hex_char(d: int) -> char {
    if d == 10 { 'a' }
    else if d == 11 { 'b' }
    else if d == 12 { 'c' }
    else if d == 13 { 'd' }
    else if d == 14 { 'e' }
    else if d == 15 { 'f' }
    else { digit_char(d) }
}

/// JSON insignificant whitespace.
pub open spec fn is_ws(c: char) -> bool {
    c == ' ' || c == '\t' || c == '\n' || c == '\r'
}

/// Drops leading insignificant whitespace.
pub open spec fn skip_ws(s: Seq<char>) -> Seq<char>
    decreases s.len(),
{
    if s.len() >= 1 && is_ws(s[0]) {
        skip_ws(s.skip(1))
    } else {
        s
    }
}

/// A control character, which JSON forbids raw inside a string.
pub open spec fn is_ctl(c: char) -> bool {
    (c as u32) < 0x20
}

/// A Unicode scalar value: a code point that is not a surrogate.
pub open spec fn scalar_ok(n: int) -> bool {
    (0 <= n < 0xD800) || (0xE000 <= n <= 0x10FFFF)
}

// ---------------------------------------------------------------------------
// Strings
// ---------------------------------------------------------------------------

/// How one character appears inside a rendered JSON string: quote, backslash,
/// newline, carriage return and tab take their short escapes, every other
/// control character a `\u00..` escape, and every remaining character stands
/// for itself.
pub open spec fn esc_char(c: char) -> Seq<char> {
    if c == '"' { seq!['\\', '"'] }
    else if c == '\\' { seq!['\\', '\\'] }
    else if c == '\n' { seq!['\\', 'n'] }
    else if c == '\r' { seq!['\\', 'r'] }
    else if c == '\t' { seq!['\\', 't'] }
    else if is_ctl(c) {
        seq!['\\', 'u', '0', '0', hex_char((c as u32) as int / 16), hex_char((c as u32) as int % 16)]
    }
    else { seq![c] }
}

/// The character a one-letter escape sequence `\c` stands for, if `c` is a
/// recognized JSON escape.
pub open spec fn unesc_char(c: char) -> Option<char> {
    if c == '"' { Some('"') }
    else if c == '\\' { Some('\\') }
    else if c == '/' { Some('/') }
    else if c == 'b' { Some('\u{0008}') }
    else if c == 'f' { Some('\u{000C}') }
    else if c == 'n' { Some('\n') }
    else if c == 'r' { Some('\r') }
    else if c == 't' { Some('\t') }
    else { None }
}

pub open spec fn escape(s: Seq<char>) -> Seq<char>
    decreases s.len(),
{
    if s.len() == 0 {
        Seq::empty()
    } else {
        esc_char(s[0]) + escape(s.skip(1))
    }
}

/// A rendered JSON string: the escaped body between double quotes.
pub open spec fn render_string(s: Seq<char>) -> Seq<char> {
    seq!['"'] + escape(s) + seq!['"']
}

/// Body of a JSON string after the opening quote: characters up to the
/// closing quote, unescaping as it goes.  One-letter escapes and `\u`
/// scalar escapes are decoded; raw control characters are refused.
/// Yields the decoded body and what follows the closing quote.
pub open spec fn parse_string_body(s: Seq<char>) -> Option<(Seq<char>, Seq<char>)>
    decreases s.len(),
{
    if s.len() == 0 {
        None
    } else if s[0] == '"' {
        Some((Seq::empty(), s.skip(1)))
    } else if s[0] == '\\' {
        if s.len() >= 2 && s[1] == 'u' {
            if s.len() >= 6 && is_hex(s[2]) && is_hex(s[3]) && is_hex(s[4]) && is_hex(s[5]) {
                let n = hex_val(s[2]) * 4096 + hex_val(s[3]) * 256 + hex_val(s[4]) * 16
                    + hex_val(s[5]);
                if scalar_ok(n) {
                    match parse_string_body(s.skip(6)) {
                        Some(p) => Some((seq![n as char] + p.0, p.1)),
                        None => None,
                    }
                } else {
                    None
                }
            } else {
                None
            }
        } else if s.len() >= 2 {
            match unesc_char(s[1]) {
                Some(c) => match parse_string_body(s.skip(2)) {
                    Some(p) => Some((seq![c] + p.0, p.1)),
                    None => None,
                },
                None => None,
            }
        } else {
            None
        }
    } else if is_ctl(s[0]) {
        None
    } else {
        match parse_string_body(s.skip(1)) {
            Some(p) => Some((seq![s[0]] + p.0, p.1)),
            None => None,
        }
    }
}

pub open spec fn parse_string(s: Seq<char>) -> Option<(Seq<char>, Seq<char>)> {
    if s.len() >= 1 && s[0] == '"' {
        parse_string_body(s.skip(1))
    } else {
        None
    }
}

// ---------------------------------------------------------------------------
// Bytes
// ---------------------------------------------------------------------------

/// A byte as its shortest decimal rendering.
pub open spec fn render_byte(n: u8) -> Seq<char> {
    if n < 10 {
        seq![digit_char(n as int)]
    } else if n < 100 {
        seq![digit_char(n as int / 10), digit_char(n as int % 10)]
    } else {
        seq![
            digit_char(n as int / 100),
            digit_char((n as int / 10) % 10),
            digit_char(n as int % 10),
        ]
    }
}

/// A decimal byte: one to three digits, no leading zero (as JSON numbers
/// have none), value at most 255.  Yields the byte and what follows its
/// last digit.
pub open spec fn parse_byte(s: Seq<char>) -> Option<(u8, Seq<char>)> {
    if s.len() >= 1 && is_digit(s[0]) {
        let d0 = digit_val(s[0]);
        if s.len() >= 2 && is_digit(s[1]) {
            let d1 = digit_val(s[1]);
            if s.len() >= 3 && is_digit(s[2]) {
                let d2 = digit_val(s[2]);
                if s.len() >= 4 && is_digit(s[3]) {
                    None
                } else if d0 >= 1 && d0 * 100 + d1 * 10 + d2 <= 255 {
                    Some(((d0 * 100 + d1 * 10 + d2) as u8, s.skip(3)))
                } else {
                    None
                }
            } else if d0 >= 1 {
                Some(((d0 * 10 + d1) as u8, s.skip(2)))
            } else {
                None
            }
        } else {
            Some((d0 as u8, s.skip(1)))
        }
    } else {
        None
    }
}

pub open spec fn render_bytes_rest(bs: Seq<u8>) -> Seq<char>
    decreases bs.len(),
{
    if bs.len() == 0 {
        Seq::empty()
    } else {
        seq![',', ' '] + render_byte(bs[0]) + render_bytes_rest(bs.skip(1))
    }
}

/// The opaque handle as a JSON array of decimal bytes.
pub open spec fn render_bytes(bs: Seq<u8>) -> Seq<char> {
    if bs.len() == 0 {
        seq!['[', ']']
    } else {
        seq!['['] + render_byte(bs[0]) + render_bytes_rest(bs.skip(1)) + seq![']']
    }
}

/// Elements after the first: whitespace, then either the closing bracket or
/// a comma and one more byte.
pub open spec fn parse_bytes_rest(s: Seq<char>) -> Option<(Seq<u8>, Seq<char>)>
    decreases s.len(),
{
    let t = skip_ws(s);
    if t.len() >= 1 && t[0] == ']' {
        Some((Seq::empty(), t.skip(1)))
    } else if t.len() >= 1 && t[0] == ',' {
        match parse_byte(skip_ws(t.skip(1))) {
            Some(p) => if p.1.len() < s.len() {
                match parse_bytes_rest(p.1) {
                    Some(q) => Some((seq![p.0] + q.0, q.1)),
                    None => None,
                }
            } else {
                None
            },
            None => None,
        }
    } else {
        None
    }
}

pub open spec fn parse_bytes(s: Seq<char>) -> Option<(Seq<u8>, Seq<char>)> {
    if s.len() >= 1 && s[0] == '[' {
        let t = skip_ws(s.skip(1));
        if t.len() >= 1 && t[0] == ']' {
            Some((Seq::empty(), t.skip(1)))
        } else {
            match parse_byte(t) {
                Some(p) => if p.1.len() < s.len() {
                    match parse_bytes_rest(p.1) {
                        Some(q) => Some((seq![p.0] + q.0, q.1)),
                        None => None,
                    }
                } else {
                    None
                },
                None => None,
            }
        }
    } else {
        None
    }
}

// ---------------------------------------------------------------------------
// The method table
// ---------------------------------------------------------------------------

/// One method-table entry: `"name": "signature"`.
pub open spec fn render_pair(p: (Seq<char>, Seq<char>)) -> Seq<char> {
    render_string(p.0) + seq![':', ' '] + render_string(p.1)
}

pub open spec fn parse_pair(s: Seq<char>) -> Option<((Seq<char>, Seq<char>), Seq<char>)> {
    match parse_string(s) {
        Some(k) => {
            let t = skip_ws(k.1);
            if t.len() >= 1 && t[0] == ':' {
                match parse_string(skip_ws(t.skip(1))) {
                    Some(v) => Some(((k.0, v.0), v.1)),
                    None => None,
                }
            } else {
                None
            }
        },
        None => None,
    }
}

pub open spec fn render_methods_rest(ms: Seq<(Seq<char>, Seq<char>)>) -> Seq<char>
    decreases ms.len(),
{
    if ms.len() == 0 {
        Seq::empty()
    } else {
        seq![',', ' '] + render_pair(ms[0]) + render_methods_rest(ms.skip(1))
    }
}

/// The method table as a JSON object, entries in snapshot order.
pub open spec fn render_methods(ms: Seq<(Seq<char>, Seq<char>)>) -> Seq<char> {
    if ms.len() == 0 {
        seq!['{', '}']
    } else {
        seq!['{'] + render_pair(ms[0]) + render_methods_rest(ms.skip(1)) + seq!['}']
    }
}

pub open spec fn parse_methods_rest(s: Seq<char>) -> Option<
    (Seq<(Seq<char>, Seq<char>)>, Seq<char>),
>
    decreases s.len(),
{
    let t = skip_ws(s);
    if t.len() >= 1 && t[0] == '}' {
        Some((Seq::empty(), t.skip(1)))
    } else if t.len() >= 1 && t[0] == ',' {
        match parse_pair(skip_ws(t.skip(1))) {
            Some(p) => if p.1.len() < s.len() {
                match parse_methods_rest(p.1) {
                    Some(q) => Some((seq![p.0] + q.0, q.1)),
                    None => None,
                }
            } else {
                None
            },
            None => None,
        }
    } else {
        None
    }
}

pub open spec fn parse_methods(s: Seq<char>) -> Option<(Seq<(Seq<char>, Seq<char>)>, Seq<char>)> {
    if s.len() >= 1 && s[0] == '{' {
        let t = skip_ws(s.skip(1));
        if t.len() >= 1 && t[0] == '}' {
            Some((Seq::empty(), t.skip(1)))
        } else {
            match parse_pair(t) {
                Some(p) => if p.1.len() < s.len() {
                    match parse_methods_rest(p.1) {
                        Some(q) => Some((seq![p.0] + q.0, q.1)),
                        None => None,
                    }
                } else {
                    None
                },
                None => None,
            }
        }
    } else {
        None
    }
}

// ---------------------------------------------------------------------------
// The whole document
// ---------------------------------------------------------------------------

pub open spec fn key_device_type() -> Seq<char> {
    "device_type"@
}

pub open spec fn key_ip() -> Seq<char> {
    "ip"@
}

pub open spec fn key_token() -> Seq<char> {
    "token"@
}

pub open spec fn key_handle() -> Seq<char> {
    "serialized_py_object"@
}

pub open spec fn key_methods() -> Seq<char> {
    "callable_methods"@
}

/// The lead-in of one member line of the canonical rendering: a newline,
/// two-space indent, the quoted key, a colon and a space.
pub open spec fn render_member_prefix(key: Seq<char>) -> Seq<char> {
    seq!['\n', ' ', ' '] + render_string(key) + seq![':', ' ']
}

/// One member line of the canonical rendering: the lead-in, then the
/// rendered value.
pub open spec fn render_member(key: Seq<char>, val: Seq<char>) -> Seq<char> {
    render_member_prefix(key) + val
}

/// The canonical stored form of a session: a pretty-printed JSON object
/// with one line per field, in fixed order.
pub open spec fn render_device(v: DeviceView) -> Seq<char> {
    seq!['{'] + render_member(key_device_type(), render_string(v.device_type))
        + seq![','] + render_member(key_ip(), render_string(v.ip))
        + seq![','] + render_member(key_token(), render_string(v.token))
        + seq![','] + render_member(key_handle(), render_bytes(v.serialized_py_object))
        + seq![','] + render_member(key_methods(), render_methods(v.callable_methods))
        + seq!['\n', '}']
}

/// Object members from just after `{` or a separating comma: one key of the
/// five with its correctly typed value, each field at most once, then either
/// `}` (all five must by then be present) or a comma and further members.
/// Yields the session the members denote and what follows the `}`.
pub open spec fn parse_members(
    s: Seq<char>,
    dt: Option<Seq<char>>,
    ip: Option<Seq<char>>,
    tok: Option<Seq<char>>,
    by: Option<Seq<u8>>,
    ms: Option<Seq<(Seq<char>, Seq<char>)>>,
) -> Option<(DeviceView, Seq<char>)>
    decreases s.len(), 1int,
{
    let t = skip_ws(s);
    match parse_string(t) {
        Some(k) => {
            let t2 = skip_ws(k.1);
            if t2.len() >= 1 && t2[0] == ':' {
                let t3 = skip_ws(t2.skip(1));
                if k.0 == key_device_type() {
                    if dt is Some {
                        None
                    } else {
                        match parse_string(t3) {
                            Some(v) => if v.1.len() < s.len() {
                                parse_members_tail(v.1, Some(v.0), ip, tok, by, ms)
                            } else {
                                None
                            },
                            None => None,
                        }
                    }
                } else if k.0 == key_ip() {
                    if ip is Some {
                        None
                    } else {
                        match parse_string(t3) {
                            Some(v) => if v.1.len() < s.len() {
                                parse_members_tail(v.1, dt, Some(v.0), tok, by, ms)
                            } else {
                                None
                            },
                            None => None,
                        }
                    }
                } else if k.0 == key_token() {
                    if tok is Some {
                        None
                    } else {
                        match parse_string(t3) {
                            Some(v) => if v.1.len() < s.len() {
                                parse_members_tail(v.1, dt, ip, Some(v.0), by, ms)
                            } else {
                                None
                            },
                            None => None,
                        }
                    }
                } else if k.0 == key_handle() {
                    if by is Some {
                        None
                    } else {
                        match parse_bytes(t3) {
                            Some(v) => if v.1.len() < s.len() {
                                parse_members_tail(v.1, dt, ip, tok, Some(v.0), ms)
                            } else {
                                None
                            },
                            None => None,
                        }
                    }
                } else if k.0 == key_methods() {
                    if ms is Some {
                        None
                    } else {
                        match parse_methods(t3) {
                            Some(v) => if v.1.len() < s.len() {
                                parse_members_tail(v.1, dt, ip, tok, by, Some(v.0))
                            } else {
                                None
                            },
                            None => None,
                        }
                    }
                } else {
                    None
                }
            } else {
                None
            }
        },
        None => None,
    }
}

/// After a member's value: whitespace, then `}` closes the object (all five
/// fields must be present and the method table must denote a mapping) or a
/// comma continues with further members.
pub open spec fn parse_members_tail(
    s: Seq<char>,
    dt: Option<Seq<char>>,
    ip: Option<Seq<char>>,
    tok: Option<Seq<char>>,
    by: Option<Seq<u8>>,
    ms: Option<Seq<(Seq<char>, Seq<char>)>>,
) -> Option<(DeviceView, Seq<char>)>
    decreases s.len(), 0int,
{
    let t = skip_ws(s);
    if t.len() >= 1 && t[0] == '}' {
        if dt is Some && ip is Some && tok is Some && by is Some && ms is Some {
            let v = DeviceView {
                device_type: dt.unwrap(),
                ip: ip.unwrap(),
                token: tok.unwrap(),
                serialized_py_object: by.unwrap(),
                callable_methods: ms.unwrap(),
            };
            if v.wf() {
                Some((v, t.skip(1)))
            } else {
                None
            }
        } else {
            None
        }
    } else if t.len() >= 1 && t[0] == ',' {
        if t.skip(1).len() < s.len() {
            parse_members(t.skip(1), dt, ip, tok, by, ms)
        } else {
            None
        }
    } else {
        None
    }
}

/// What deserialization accepts: a whole JSON object with exactly the five
/// correctly typed fields, in any member order and with any insignificant
/// whitespace, whose method table denotes a mapping - yielding the session
/// it denotes.
pub open spec fn parse_device(s: Seq<char>) -> Option<DeviceView> {
    let t = skip_ws(s);
    if t.len() >= 1 && t[0] == '{' {
        match parse_members(t.skip(1), None, None, None, None, None) {
            Some(p) => if skip_ws(p.1).len() == 0 {
                Some(p.0)
            } else {
                None
            },
            None => None,
        }
    } else {
        None
    }
}

// ---------------------------------------------------------------------------
// Round-trip lemmas: parsing undoes rendering
// ---------------------------------------------------------------------------

proof fn lemma_skip_ws_nop(t: Seq<char>)
    requires
        t.len() == 0 || !is_ws(t[0]),
    ensures
        skip_ws(t) == t,
{
}

proof fn lemma_skip_ws_prefix(p: Seq<char>, t: Seq<char>)
    requires
        forall|i: int| 0 <= i < p.len() ==> is_ws(#[trigger] p[i]),
        t.len() == 0 || !is_ws(t[0]),
    ensures
        skip_ws(p + t) == t,
    decreases p.len(),
{
    if p.len() == 0 {
        assert(p + t =~= t);
        lemma_skip_ws_nop(t);
    } else {
        assert((p + t)[0] == p[0]);
        assert((p + t).skip(1) =~= p.skip(1) + t);
        lemma_skip_ws_prefix(p.skip(1), t);
    }
}

proof fn lemma_digit_facts()
    ensures
        forall|d: int| 0 <= d < 10 ==> #[trigger] digit_val(digit_char(d)) == d,
        forall|d: int| 0 <= d < 10 ==> is_digit(#[trigger] digit_char(d)),
        forall|c: char| is_digit(c) ==> !#[trigger] is_ws(c),
        forall|d: int| 0 <= d < 16 ==> #[trigger] hex_val(hex_char(d)) == d,
        forall|d: int| 0 <= d < 16 ==> is_hex(#[trigger] hex_char(d)),
{
}

proof fn lemma_parse_string_body(t: Seq<char>, rest: Seq<char>)
    ensures
        parse_string_body(escape(t) + seq!['"'] + rest) == Some((t, rest)),
    decreases t.len(),
{
    let s = escape(t) + seq!['"'] + rest;
    if t.len() == 0 {
        assert(escape(t) =~= Seq::<char>::empty());
        assert(s =~= seq!['"'] + rest);
        assert(s[0] == '"');
        assert(s.skip(1) =~= rest);
        assert(t =~= Seq::<char>::empty());
    } else {
        let c = t[0];
        let e = esc_char(c);
        assert(escape(t) == e + escape(t.skip(1)));
        lemma_parse_string_body(t.skip(1), rest);
        if c == '"' || c == '\\' || c == '\n' || c == '\r' || c == '\t' {
            assert(e.len() == 2 && e[0] == '\\' && e[1] != 'u' && unesc_char(e[1]) == Some(c));
            assert(s[0] == '\\');
            assert(s.len() >= 2 && s[1] == e[1]);
            assert(s.skip(2) =~= escape(t.skip(1)) + seq!['"'] + rest);
            assert(seq![c] + t.skip(1) =~= t);
        } else if is_ctl(c) {
            lemma_digit_facts();
            let n0 = (c as u32) as int;
            lemma_fundamental_div_mod(n0, 16);
            lemma_mod_bound(n0, 16);
            let h = n0 / 16;
            let l = n0 % 16;
            assert(0 <= n0 && n0 < 0x20);
            assert(n0 == 16 * h + l);
            assert(0 <= l < 16);
            assert(0 <= h < 2);
            assert(e == seq!['\\', 'u', '0', '0', hex_char(h), hex_char(l)]);
            assert(s[0] == '\\' && s[1] == 'u');
            assert(s.len() >= 6);
            assert(s[2] == '0' && s[3] == '0' && s[4] == hex_char(h) && s[5] == hex_char(l));
            assert(hex_val(s[2]) == 0 && hex_val(s[3]) == 0);
            assert(hex_val(s[4]) == h && hex_val(s[5]) == l);
            let n = hex_val(s[2]) * 4096 + hex_val(s[3]) * 256 + hex_val(s[4]) * 16
                + hex_val(s[5]);
            assert(n == n0);
            assert(scalar_ok(n));
            vstd::utf8::char_u32_cast(c, c as u32);
            assert((n as char) == c);
            assert(s.skip(6) =~= escape(t.skip(1)) + seq!['"'] + rest);
            assert(seq![c] + t.skip(1) =~= t);
        } else {
            assert(e =~= seq![c]);
            assert(s[0] == c && c != '"' && c != '\\' && !is_ctl(c));
            assert(s.skip(1) =~= escape(t.skip(1)) + seq!['"'] + rest);
            assert(seq![s[0]] + t.skip(1) =~= t);
        }
    }
}

proof fn lemma_parse_render_string(t: Seq<char>, rest: Seq<char>)
    ensures
        parse_string(render_string(t) + rest) == Some((t, rest)),
        render_string(t).len() >= 2,
        render_string(t)[0] == '"',
{
    let s = render_string(t) + rest;
    assert(s[0] == '"');
    assert(s.skip(1) =~= escape(t) + seq!['"'] + rest);
    lemma_parse_string_body(t, rest);
}

proof fn lemma_parse_render_byte(n: u8, rest: Seq<char>)
    requires
        rest.len() == 0 || !is_digit(rest[0]),
    ensures
        parse_byte(render_byte(n) + rest) == Some((n, rest)),
        render_byte(n).len() >= 1,
        is_digit(render_byte(n)[0]),
        !is_ws(render_byte(n)[0]),
{
    lemma_digit_facts();
    let s = render_byte(n) + rest;
    if n < 10 {
        assert(s[0] == digit_char(n as int));
        assert(digit_val(s[0]) == n as int);
        if s.len() >= 2 {
            assert(s[1] == rest[0]);
        }
        assert(s.skip(1) =~= rest);
    } else if n < 100 {
        lemma_fundamental_div_mod(n as int, 10);
        lemma_mod_bound(n as int, 10);
        let d0 = n as int / 10;
        let d1 = n as int % 10;
        assert(n as int == 10 * d0 + d1);
        assert(1 <= d0 < 10);
        assert(s[0] == digit_char(d0) && s[1] == digit_char(d1));
        assert(digit_val(s[0]) == d0 && digit_val(s[1]) == d1);
        if s.len() >= 3 {
            assert(s[2] == rest[0]);
        }
        assert(d0 * 10 + d1 == n as int);
        assert(s.skip(2) =~= rest);
    } else {
        lemma_fundamental_div_mod(n as int, 10);
        lemma_mod_bound(n as int, 10);
        let q = n as int / 10;
        let d2 = n as int % 10;
        lemma_fundamental_div_mod(q, 10);
        lemma_mod_bound(q, 10);
        lemma_div_denominator(n as int, 10, 10);
        let d0 = n as int / 100;
        let d1 = q % 10;
        assert(q / 10 == d0);
        assert(q == 10 * d0 + d1);
        assert(n as int == 10 * (10 * d0 + d1) + d2);
        assert(1 <= d0 < 10);
        assert(s[0] == digit_char(d0) && s[1] == digit_char(d1) && s[2] == digit_char(d2));
        assert(digit_val(s[0]) == d0 && digit_val(s[1]) == d1 && digit_val(s[2]) == d2);
        if s.len() >= 4 {
            assert(s[3] == rest[0]);
        }
        assert(d0 * 100 + d1 * 10 + d2 == n as int);
        assert(s.skip(3) =~= rest);
    }
}

#[verifier::rlimit(100)]
proof fn lemma_parse_render_bytes_rest(bs: Seq<u8>, rest: Seq<char>)
    ensures
        parse_bytes_rest(render_bytes_rest(bs) + seq![']'] + rest) == Some((bs, rest)),
    decreases bs.len(),
{
    let s = render_bytes_rest(bs) + seq![']'] + rest;
    if bs.len() == 0 {
        assert(render_bytes_rest(bs) =~= Seq::<char>::empty());
        assert(s[0] == ']');
        lemma_skip_ws_nop(s);
        assert(s.skip(1) =~= rest);
        assert(bs =~= Seq::<u8>::empty());
    } else {
        let tail = render_bytes_rest(bs.skip(1)) + seq![']'] + rest;
        assert(render_bytes_rest(bs) == seq![',', ' '] + render_byte(bs[0])
            + render_bytes_rest(bs.skip(1)));
        assert(s[0] == ',');
        lemma_skip_ws_nop(s);
        if bs.skip(1).len() == 0 {
            assert(render_bytes_rest(bs.skip(1)) =~= Seq::<char>::empty());
            assert(tail[0] == ']');
            assert(!is_digit(tail[0]));
        } else {
            assert(render_bytes_rest(bs.skip(1))[0] == ',');
            assert(tail[0] == ',');
            assert(!is_digit(tail[0]));
        }
        lemma_parse_render_byte(bs[0], tail);
        assert(s.skip(1) =~= seq![' '] + (render_byte(bs[0]) + tail));
        assert((render_byte(bs[0]) + tail)[0] == render_byte(bs[0])[0]);
        lemma_skip_ws_prefix(seq![' '], render_byte(bs[0]) + tail);
        assert(skip_ws(s.skip(1)) == render_byte(bs[0]) + tail);
        assert(tail.len() < s.len());
        lemma_parse_render_bytes_rest(bs.skip(1), rest);
        assert(seq![bs[0]] + bs.skip(1) =~= bs);
    }
}

proof fn lemma_parse_render_bytes(bs: Seq<u8>, rest: Seq<char>)
    ensures
        parse_bytes(render_bytes(bs) + rest) == Some((bs, rest)),
        render_bytes(bs).len() >= 2,
        render_bytes(bs)[0] == '[',
{
    let s = render_bytes(bs) + rest;
    assert(s[0] == '[');
    if bs.len() == 0 {
        assert(s.skip(1) =~= seq![']'] + rest);
        assert(s.skip(1)[0] == ']');
        lemma_skip_ws_nop(s.skip(1));
        assert(s.skip(1).skip(1) =~= rest);
        assert(bs =~= Seq::<u8>::empty());
    } else {
        let tail = render_bytes_rest(bs.skip(1)) + seq![']'] + rest;
        assert(s.skip(1) =~= render_byte(bs[0]) + tail);
        if bs.skip(1).len() == 0 {
            assert(render_bytes_rest(bs.skip(1)) =~= Seq::<char>::empty());
            assert(tail[0] == ']');
        } else {
            assert(render_bytes_rest(bs.skip(1))[0] == ',');
            assert(tail[0] == ',');
        }
        assert(!is_digit(tail[0]));
        lemma_parse_render_byte(bs[0], tail);
        assert((render_byte(bs[0]) + tail)[0] == render_byte(bs[0])[0]);
        assert(is_digit(s.skip(1)[0]));
        lemma_skip_ws_nop(s.skip(1));
        assert(s.skip(1)[0] != ']');
        assert(tail.len() < s.len());
        lemma_parse_render_bytes_rest(bs.skip(1), rest);
        assert(seq![bs[0]] + bs.skip(1) =~= bs);
    }
}

proof fn lemma_parse_render_pair(p: (Seq<char>, Seq<char>), rest: Seq<char>)
    ensures
        parse_pair(render_pair(p) + rest) == Some((p, rest)),
        (render_pair(p) + rest)[0] == '"',
{
    let s = render_pair(p) + rest;
    let mid = seq![':', ' '] + render_string(p.1) + rest;
    assert(s =~= render_string(p.0) + mid);
    lemma_parse_render_string(p.0, mid);
    assert(parse_string(s) == Some((p.0, mid)));
    assert(mid[0] == ':');
    lemma_skip_ws_nop(mid);
    assert(mid.skip(1) =~= seq![' '] + (render_string(p.1) + rest));
    assert((render_string(p.1) + rest)[0] == '"');
    lemma_skip_ws_prefix(seq![' '], render_string(p.1) + rest);
    lemma_parse_render_string(p.1, rest);
    assert((p.0, p.1) == p);
    assert(s[0] == render_string(p.0)[0]);
}

proof fn lemma_parse_render_methods_rest(ms: Seq<(Seq<char>, Seq<char>)>, rest: Seq<char>)
    ensures
        parse_methods_rest(render_methods_rest(ms) + seq!['}'] + rest) == Some((ms, rest)),
    decreases ms.len(),
{
    let s = render_methods_rest(ms) + seq!['}'] + rest;
    if ms.len() == 0 {
        assert(render_methods_rest(ms) =~= Seq::<char>::empty());
        assert(s[0] == '}');
        lemma_skip_ws_nop(s);
        assert(s.skip(1) =~= rest);
        assert(ms =~= Seq::<(Seq<char>, Seq<char>)>::empty());
    } else {
        let tail = render_methods_rest(ms.skip(1)) + seq!['}'] + rest;
        assert(render_methods_rest(ms) == seq![',', ' '] + render_pair(ms[0])
            + render_methods_rest(ms.skip(1)));
        assert(s[0] == ',');
        lemma_skip_ws_nop(s);
        lemma_parse_render_pair(ms[0], tail);
        assert(s.skip(1) =~= seq![' '] + (render_pair(ms[0]) + tail));
        lemma_skip_ws_prefix(seq![' '], render_pair(ms[0]) + tail);
        assert(skip_ws(s.skip(1)) == render_pair(ms[0]) + tail);
        assert(tail.len() < s.len());
        lemma_parse_render_methods_rest(ms.skip(1), rest);
        assert(seq![ms[0]] + ms.skip(1) =~= ms);
    }
}

#[verifier::rlimit(100)]
proof fn lemma_parse_render_methods(ms: Seq<(Seq<char>, Seq<char>)>, rest: Seq<char>)
    ensures
        parse_methods(render_methods(ms) + rest) == Some((ms, rest)),
        render_methods(ms).len() >= 2,
        render_methods(ms)[0] == '{',
{
    let s = render_methods(ms) + rest;
    assert(s[0] == '{');
    if ms.len() == 0 {
        assert(s.skip(1) =~= seq!['}'] + rest);
        assert(s.skip(1)[0] == '}');
        lemma_skip_ws_nop(s.skip(1));
        assert(s.skip(1).skip(1) =~= rest);
        assert(ms =~= Seq::<(Seq<char>, Seq<char>)>::empty());
    } else {
        let tail = render_methods_rest(ms.skip(1)) + seq!['}'] + rest;
        assert(s.skip(1) =~= render_pair(ms[0]) + tail);
        lemma_parse_render_pair(ms[0], tail);
        assert(s.skip(1)[0] == '"');
        lemma_skip_ws_nop(s.skip(1));
        assert(s.skip(1)[0] != '}');
        assert(tail.len() < s.len());
        lemma_parse_render_methods_rest(ms.skip(1), rest);
        assert(seq![ms[0]] + ms.skip(1) =~= ms);
    }
}

/// The five canonical keys are pairwise distinct (their lengths differ).
proof fn lemma_keys_distinct()
    ensures
        key_ip() != key_device_type(),
        key_token() != key_device_type(),
        key_token() != key_ip(),
        key_handle() != key_device_type(),
        key_handle() != key_ip(),
        key_handle() != key_token(),
        key_methods() != key_device_type(),
        key_methods() != key_ip(),
        key_methods() != key_token(),
        key_methods() != key_handle(),
{
    reveal_strlit("device_type");
    reveal_strlit("ip");
    reveal_strlit("token");
    reveal_strlit("serialized_py_object");
    reveal_strlit("callable_methods");
    assert(key_device_type().len() == 11);
    assert(key_ip().len() == 2);
    assert(key_token().len() == 5);
    assert(key_handle().len() == 20);
    assert(key_methods().len() == 16);
}

/// Common shape of one canonical member: `skip_ws` eats the indent, the key
/// parses back, the colon and one space follow, and the value begins `rest`.
proof fn lemma_member_shape(key: Seq<char>, val: Seq<char>, tail: Seq<char>)
    requires
        val.len() >= 1,
        !is_ws(val[0]),
    ensures
        ({
            let s = render_member(key, val) + tail;
            let rest1 = seq![':', ' '] + val + tail;
            &&& skip_ws(s) == render_string(key) + rest1
            &&& parse_string(render_string(key) + rest1) == Some((key, rest1))
            &&& skip_ws(rest1) == rest1
            &&& rest1[0] == ':'
            &&& skip_ws(rest1.skip(1)) == val + tail
            &&& tail.len() < s.len()
        }),
{
    let s = render_member(key, val) + tail;
    let rest1 = seq![':', ' '] + val + tail;
    assert(s =~= seq!['\n', ' ', ' '] + (render_string(key) + rest1));
    lemma_parse_render_string(key, rest1);
    assert((render_string(key) + rest1)[0] == '"');
    lemma_skip_ws_prefix(seq!['\n', ' ', ' '], render_string(key) + rest1);
    assert(rest1[0] == ':');
    lemma_skip_ws_nop(rest1);
    assert(rest1.skip(1) =~= seq![' '] + (val + tail));
    assert((val + tail)[0] == val[0]);
    lemma_skip_ws_prefix(seq![' '], val + tail);
    assert(tail.len() < s.len());
}

proof fn lemma_step_device_type(val: Seq<char>, tail: Seq<char>)
    ensures
        parse_members(render_member(key_device_type(), render_string(val)) + tail,
            None, None, None, None, None)
            == parse_members_tail(tail, Some(val), None, None, None, None),
{
    lemma_parse_render_string(val, tail);
    assert(!is_ws(render_string(val)[0]));
    lemma_member_shape(key_device_type(), render_string(val), tail);
}

proof fn lemma_step_ip(dt: Seq<char>, val: Seq<char>, tail: Seq<char>)
    ensures
        parse_members(render_member(key_ip(), render_string(val)) + tail,
            Some(dt), None, None, None, None)
            == parse_members_tail(tail, Some(dt), Some(val), None, None, None),
{
    lemma_keys_distinct();
    lemma_parse_render_string(val, tail);
    assert(!is_ws(render_string(val)[0]));
    lemma_member_shape(key_ip(), render_string(val), tail);
}

proof fn lemma_step_token(dt: Seq<char>, ip: Seq<char>, val: Seq<char>, tail: Seq<char>)
    ensures
        parse_members(render_member(key_token(), render_string(val)) + tail,
            Some(dt), Some(ip), None, None, None)
            == parse_members_tail(tail, Some(dt), Some(ip), Some(val), None, None),
{
    lemma_keys_distinct();
    lemma_parse_render_string(val, tail);
    assert(!is_ws(render_string(val)[0]));
    lemma_member_shape(key_token(), render_string(val), tail);
}

proof fn lemma_step_handle(
    dt: Seq<char>,
    ip: Seq<char>,
    tok: Seq<char>,
    val: Seq<u8>,
    tail: Seq<char>,
)
    ensures
        parse_members(render_member(key_handle(), render_bytes(val)) + tail,
            Some(dt), Some(ip), Some(tok), None, None)
            == parse_members_tail(tail, Some(dt), Some(ip), Some(tok), Some(val), None),
{
    lemma_keys_distinct();
    lemma_parse_render_bytes(val, tail);
    assert(!is_ws(render_bytes(val)[0]));
    lemma_member_shape(key_handle(), render_bytes(val), tail);
}

proof fn lemma_step_methods(
    dt: Seq<char>,
    ip: Seq<char>,
    tok: Seq<char>,
    by: Seq<u8>,
    val: Seq<(Seq<char>, Seq<char>)>,
    tail: Seq<char>,
)
    ensures
        parse_members(render_member(key_methods(), render_methods(val)) + tail,
            Some(dt), Some(ip), Some(tok), Some(by), None)
            == parse_members_tail(tail, Some(dt), Some(ip), Some(tok), Some(by), Some(val)),
{
    lemma_keys_distinct();
    lemma_parse_render_methods(val, tail);
    assert(!is_ws(render_methods(val)[0]));
    lemma_member_shape(key_methods(), render_methods(val), tail);
}

proof fn lemma_tail_comma(
    rest: Seq<char>,
    dt: Option<Seq<char>>,
    ip: Option<Seq<char>>,
    tok: Option<Seq<char>>,
    by: Option<Seq<u8>>,
    ms: Option<Seq<(Seq<char>, Seq<char>)>>,
)
    ensures
        parse_members_tail(seq![','] + rest, dt, ip, tok, by, ms)
            == parse_members(rest, dt, ip, tok, by, ms),
{
    let s = seq![','] + rest;
    assert(s[0] == ',');
    lemma_skip_ws_nop(s);
    assert(s.skip(1) =~= rest);
    assert(s.skip(1).len() < s.len());
}

/// Law: persistence round-trips.  Parsing the canonical rendering of any
/// well-formed session yields exactly that session, every field intact -
/// the opaque handle byte for byte, the method table entry for entry.
#[verifier::rlimit(100)]
pub proof fn lemma_device_json_round_trip(v: DeviceView)
    requires
        v.wf(),
    ensures
        parse_device(render_device(v)) == Some(v),
{
    let s = render_device(v);
    let r1 = render_string(v.device_type);
    let r2 = render_string(v.ip);
    let r3 = render_string(v.token);
    let r4 = render_bytes(v.serialized_py_object);
    let r5 = render_methods(v.callable_methods);

    let t5 = seq!['\n', '}'];
    let m5 = render_member(key_methods(), r5) + t5;
    let t4 = seq![','] + m5;
    let m4 = render_member(key_handle(), r4) + t4;
    let t3 = seq![','] + m4;
    let m3 = render_member(key_token(), r3) + t3;
    let t2 = seq![','] + m3;
    let m2 = render_member(key_ip(), r2) + t2;
    let t1 = seq![','] + m2;
    let m1 = render_member(key_device_type(), r1) + t1;

    assert(s =~= seq!['{'] + m1);
    assert(s[0] == '{');
    lemma_skip_ws_nop(s);
    assert(s.skip(1) =~= m1);

    lemma_step_device_type(v.device_type, t1);
    lemma_tail_comma(m2, Some(v.device_type), None, None, None, None);
    lemma_step_ip(v.device_type, v.ip, t2);
    lemma_tail_comma(m3, Some(v.device_type), Some(v.ip), None, None, None);
    lemma_step_token(v.device_type, v.ip, v.token, t3);
    lemma_tail_comma(m4, Some(v.device_type), Some(v.ip), Some(v.token), None, None);
    lemma_step_handle(v.device_type, v.ip, v.token, v.serialized_py_object, t4);
    lemma_tail_comma(m5, Some(v.device_type), Some(v.ip), Some(v.token),
        Some(v.serialized_py_object), None);
    lemma_step_methods(v.device_type, v.ip, v.token, v.serialized_py_object,
        v.callable_methods, t5);

    assert(t5 =~= seq!['\n'] + seq!['}']);
    lemma_skip_ws_prefix(seq!['\n'], seq!['}']);
    assert(skip_ws(t5) == seq!['}']);
    let parsed = DeviceView {
        device_type: v.device_type,
        ip: v.ip,
        token: v.token,
        serialized_py_object: v.serialized_py_object,
        callable_methods: v.callable_methods,
    };
    assert(parsed =~= v);
    assert(seq!['}'].skip(1) =~= Seq::<char>::empty());
    assert(parse_members_tail(t5, Some(v.device_type), Some(v.ip), Some(v.token),
        Some(v.serialized_py_object), Some(v.callable_methods))
        == Some((v, Seq::<char>::empty())));
    assert(skip_ws(Seq::<char>::empty()).len() == 0);
}

} // verus!
