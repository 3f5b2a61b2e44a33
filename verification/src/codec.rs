//! Executable serialization and parsing of the persistence format, each
//! proved against the format's mathematical definition in [`crate::json`].

use vstd::prelude::*;
use crate::device::{methods_view, str_eq, Device, DeviceView};
use crate::json::{
    digit_char, digit_val, esc_char, escape, hex_char, hex_val, is_ctl, is_digit, is_hex, is_ws,
    key_device_type, key_handle, key_ip, key_methods, key_token, parse_byte, parse_bytes,
    parse_bytes_rest, parse_device, parse_members, parse_members_tail, parse_methods,
    parse_methods_rest, parse_pair, parse_string, parse_string_body, render_byte, render_bytes,
    render_bytes_rest, render_member_prefix, render_methods, render_methods_rest, render_pair,
    render_string, scalar_ok, skip_ws, unesc_char,
};
use crate::DeviceError;

verus! {

// ---------------------------------------------------------------------------
// Building character output
// ---------------------------------------------------------------------------

/// Relies on `String: FromIterator<char>`: collecting an iterator of
/// characters yields them in order.
#[verifier::external_body]
pub(crate) fn chars_to_string(v: &Vec<char>) -> (r: String)
    ensures
        r@ == v@,
{
    v.iter().collect()
}

pub(crate) fn str_to_chars(s: &str) -> (r: Vec<char>)
    ensures
        r@ == s@,
{
    let n = s.unicode_len();
    let mut r: Vec<char> = Vec::new();
    let mut i: usize = 0;
    while i < n
        invariant
            i <= n,
            n == s@.len(),
            r@ == s@.take(i as int),
        decreases n - i,
    {
        r.push(s.get_char(i));
        assert(s@.take(i + 1 as int) =~= s@.take(i as int).push(s@[i as int]));
        i += 1;
    }
    assert(s@.take(n as int) =~= s@);
    r
}

proof fn lemma_escape_snoc(a: Seq<char>, x: char)
    ensures
        escape(a.push(x)) == escape(a) + esc_char(x),
    decreases a.len(),
{
    assert(escape(a.push(x)) == esc_char(a.push(x)[0]) + escape(a.push(x).skip(1)));
    if a.len() == 0 {
        assert(a.push(x)[0] == x);
        assert(a.push(x).skip(1) =~= Seq::<char>::empty());
        assert(escape(Seq::<char>::empty()) == Seq::<char>::empty());
        assert(escape(a) == Seq::<char>::empty());
        assert(escape(a.push(x)) =~= escape(a) + esc_char(x));
    } else {
        lemma_escape_snoc(a.skip(1), x);
        assert(a.push(x).skip(1) =~= a.skip(1).push(x));
        assert(a.push(x)[0] == a[0]);
        assert(escape(a) == esc_char(a[0]) + escape(a.skip(1)));
        assert(escape(a.push(x)) =~= escape(a) + esc_char(x));
    }
}

fn digit_to_char(d: u8) -> (c: char)
    requires
        d < 10,
    ensures
        c == digit_char(d as int),
{
    if d == 0 { '0' }
    else if d == 1 { '1' }
    else if d == 2 { '2' }
    else if d == 3 { '3' }
    else if d == 4 { '4' }
    else if d == 5 { '5' }
    else if d == 6 { '6' }
    else if d == 7 { '7' }
    else if d == 8 { '8' }
    else { '9' }
}

fn hex_to_char(d: u8) -> (c: char)
    requires
        d < 16,
    ensures
        c == hex_char(d as int),
{
    if d == 10 { 'a' }
    else if d == 11 { 'b' }
    else if d == 12 { 'c' }
    else if d == 13 { 'd' }
    else if d == 14 { 'e' }
    else if d == 15 { 'f' }
    else { digit_to_char(d) }
}

pub(crate) fn push_string(out: &mut Vec<char>, s: &str)
    ensures
        final(out)@ == old(out)@ + render_string(s@),
{
    out.push('"');
    let n = s.unicode_len();
    assert(escape(s@.take(0)) =~= Seq::<char>::empty());
    assert(out@ =~= old(out)@ + seq!['"'] + escape(s@.take(0)));
    let mut i: usize = 0;
    while i < n
        invariant
            i <= n,
            n == s@.len(),
            out@ == old(out)@ + seq!['"'] + escape(s@.take(i as int)),
        decreases n - i,
    {
        let c = s.get_char(i);
        if c == '"' {
            out.push('\\');
            out.push('"');
        } else if c == '\\' {
            out.push('\\');
            out.push('\\');
        } else if c == '\n' {
            out.push('\\');
            out.push('n');
        } else if c == '\r' {
            out.push('\\');
            out.push('r');
        } else if c == '\t' {
            out.push('\\');
            out.push('t');
        } else if (c as u32) < 0x20 {
            out.push('\\');
            out.push('u');
            out.push('0');
            out.push('0');
            out.push(hex_to_char((c as u32 / 16) as u8));
            out.push(hex_to_char((c as u32 % 16) as u8));
        } else {
            out.push(c);
        }
        proof {
            lemma_escape_snoc(s@.take(i as int), s@[i as int]);
            assert(s@.take(i + 1 as int) =~= s@.take(i as int).push(s@[i as int]));
            assert(out@ =~= old(out)@ + seq!['"'] + escape(s@.take(i + 1 as int)));
        }
        i += 1;
    }
    out.push('"');
    proof {
        assert(s@.take(n as int) =~= s@);
        assert(out@ =~= old(out)@ + render_string(s@));
    }
}

pub(crate) fn push_byte(out: &mut Vec<char>, n: u8)
    ensures
        final(out)@ == old(out)@ + render_byte(n),
{
    if n < 10 {
        out.push(digit_to_char(n));
        assert(out@ =~= old(out)@ + render_byte(n));
    } else if n < 100 {
        out.push(digit_to_char(n / 10));
        out.push(digit_to_char(n % 10));
        assert(out@ =~= old(out)@ + render_byte(n));
    } else {
        out.push(digit_to_char(n / 100));
        out.push(digit_to_char((n / 10) % 10));
        out.push(digit_to_char(n % 10));
        assert(out@ =~= old(out)@ + render_byte(n));
    }
}

proof fn lemma_bytes_rest_snoc(q: Seq<u8>, b: u8)
    ensures
        render_bytes_rest(q.push(b)) == render_bytes_rest(q) + seq![',', ' '] + render_byte(b),
    decreases q.len(),
{
    assert(render_bytes_rest(q.push(b)) == seq![',', ' '] + render_byte(q.push(b)[0])
        + render_bytes_rest(q.push(b).skip(1)));
    if q.len() == 0 {
        assert(q.push(b)[0] == b);
        assert(q.push(b).skip(1) =~= Seq::<u8>::empty());
        assert(render_bytes_rest(Seq::<u8>::empty()) == Seq::<char>::empty());
        assert(render_bytes_rest(q) == Seq::<char>::empty());
        assert(render_bytes_rest(q.push(b))
            =~= render_bytes_rest(q) + seq![',', ' '] + render_byte(b));
    } else {
        lemma_bytes_rest_snoc(q.skip(1), b);
        assert(q.push(b).skip(1) =~= q.skip(1).push(b));
        assert(q.push(b)[0] == q[0]);
        assert(render_bytes_rest(q) == seq![',', ' '] + render_byte(q[0])
            + render_bytes_rest(q.skip(1)));
        assert(render_bytes_rest(q.push(b))
            =~= render_bytes_rest(q) + seq![',', ' '] + render_byte(b));
    }
}

pub(crate) fn push_bytes(out: &mut Vec<char>, bs: &Vec<u8>)
    ensures
        final(out)@ == old(out)@ + render_bytes(bs@),
{
    out.push('[');
    if bs.len() == 0 {
        out.push(']');
        assert(out@ =~= old(out)@ + render_bytes(bs@));
    } else {
        push_byte(out, bs[0]);
        let n = bs.len();
        assert(bs@.subrange(1, 1) =~= Seq::<u8>::empty());
        assert(render_bytes_rest(bs@.subrange(1, 1)) =~= Seq::<char>::empty());
        assert(out@ =~= old(out)@ + seq!['['] + render_byte(bs@[0])
            + render_bytes_rest(bs@.subrange(1, 1)));
        let mut i: usize = 1;
        while i < n
            invariant
                1 <= i <= n,
                n == bs@.len(),
                out@ == old(out)@ + seq!['['] + render_byte(bs@[0])
                    + render_bytes_rest(bs@.subrange(1, i as int)),
            decreases n - i,
        {
            out.push(',');
            out.push(' ');
            push_byte(out, bs[i]);
            proof {
                lemma_bytes_rest_snoc(bs@.subrange(1, i as int), bs@[i as int]);
                assert(bs@.subrange(1, i + 1 as int)
                    =~= bs@.subrange(1, i as int).push(bs@[i as int]));
                assert(out@ =~= old(out)@ + seq!['['] + render_byte(bs@[0])
                    + render_bytes_rest(bs@.subrange(1, i + 1 as int)));
            }
            i += 1;
        }
        out.push(']');
        proof {
            assert(bs@.subrange(1, n as int) =~= bs@.skip(1));
            assert(out@ =~= old(out)@ + render_bytes(bs@));
        }
    }
}

proof fn lemma_methods_rest_snoc(q: Seq<(Seq<char>, Seq<char>)>, p: (Seq<char>, Seq<char>))
    ensures
        render_methods_rest(q.push(p)) == render_methods_rest(q) + seq![',', ' ']
            + render_pair(p),
    decreases q.len(),
{
    assert(render_methods_rest(q.push(p)) == seq![',', ' '] + render_pair(q.push(p)[0])
        + render_methods_rest(q.push(p).skip(1)));
    if q.len() == 0 {
        assert(q.push(p)[0] == p);
        assert(q.push(p).skip(1) =~= Seq::<(Seq<char>, Seq<char>)>::empty());
        assert(render_methods_rest(Seq::<(Seq<char>, Seq<char>)>::empty())
            == Seq::<char>::empty());
        assert(render_methods_rest(q) == Seq::<char>::empty());
        assert(render_methods_rest(q.push(p))
            =~= render_methods_rest(q) + seq![',', ' '] + render_pair(p));
    } else {
        lemma_methods_rest_snoc(q.skip(1), p);
        assert(q.push(p).skip(1) =~= q.skip(1).push(p));
        assert(q.push(p)[0] == q[0]);
        assert(render_methods_rest(q) == seq![',', ' '] + render_pair(q[0])
            + render_methods_rest(q.skip(1)));
        assert(render_methods_rest(q.push(p))
            =~= render_methods_rest(q) + seq![',', ' '] + render_pair(p));
    }
}

fn push_pair(out: &mut Vec<char>, k: &str, v: &str)
    ensures
        final(out)@ == old(out)@ + render_pair((k@, v@)),
{
    push_string(out, k);
    out.push(':');
    out.push(' ');
    push_string(out, v);
    assert(out@ =~= old(out)@ + render_pair((k@, v@)));
}

pub(crate) fn push_methods(out: &mut Vec<char>, ms: &Vec<(String, String)>)
    ensures
        final(out)@ == old(out)@ + render_methods(methods_view(ms@)),
{
    let ghost mv = methods_view(ms@);
    out.push('{');
    if ms.len() == 0 {
        out.push('}');
        assert(out@ =~= old(out)@ + render_methods(mv));
    } else {
        push_pair(out, ms[0].0.as_str(), ms[0].1.as_str());
        let n = ms.len();
        assert(mv.subrange(1, 1) =~= Seq::<(Seq<char>, Seq<char>)>::empty());
        assert(render_methods_rest(mv.subrange(1, 1)) =~= Seq::<char>::empty());
        assert(out@ =~= old(out)@ + seq!['{'] + render_pair(mv[0])
            + render_methods_rest(mv.subrange(1, 1)));
        let mut i: usize = 1;
        while i < n
            invariant
                1 <= i <= n,
                n == ms@.len(),
                mv == methods_view(ms@),
                mv.len() == n,
                out@ == old(out)@ + seq!['{'] + render_pair(mv[0])
                    + render_methods_rest(mv.subrange(1, i as int)),
            decreases n - i,
        {
            out.push(',');
            out.push(' ');
            push_pair(out, ms[i].0.as_str(), ms[i].1.as_str());
            proof {
                lemma_methods_rest_snoc(mv.subrange(1, i as int), mv[i as int]);
                assert(mv.subrange(1, i + 1 as int)
                    =~= mv.subrange(1, i as int).push(mv[i as int]));
                assert(out@ =~= old(out)@ + seq!['{'] + render_pair(mv[0])
                    + render_methods_rest(mv.subrange(1, i + 1 as int)));
            }
            i += 1;
        }
        out.push('}');
        proof {
            assert(mv.subrange(1, n as int) =~= mv.skip(1));
            assert(out@ =~= old(out)@ + render_methods(mv));
        }
    }
}

/// One canonical member up to its value: newline, indent, the quoted key,
/// a colon and a space.
pub(crate) fn push_member_prefix(out: &mut Vec<char>, key: &str)
    ensures
        final(out)@ == old(out)@ + render_member_prefix(key@),
{
    out.push('\n');
    out.push(' ');
    out.push(' ');
    push_string(out, key);
    out.push(':');
    out.push(' ');
    assert(out@ =~= old(out)@ + render_member_prefix(key@));
}

// ---------------------------------------------------------------------------
// Parsing character input
// ---------------------------------------------------------------------------

/// Relies on `char::from_u32`: defined for every Unicode scalar value.
#[verifier::external_body]
fn char_from_u32(n: u32) -> (c: char)
    requires
        scalar_ok(n as int),
    ensures
        c == n as char,
{
    char::from_u32(n).unwrap()
}

fn is_ws_char(c: char) -> (r: bool)
    ensures
        r == is_ws(c),
{
    c == ' ' || c == '\t' || c == '\n' || c == '\r'
}

fn p_skip_ws(v: &Vec<char>, i: usize) -> (r: usize)
    requires
        i <= v@.len(),
    ensures
        i <= r <= v@.len(),
        v@.skip(r as int) == skip_ws(v@.skip(i as int)),
{
    let mut j = i;
    while j < v.len() && is_ws_char(v[j])
        invariant
            i <= j <= v@.len(),
            skip_ws(v@.skip(i as int)) == skip_ws(v@.skip(j as int)),
        decreases v@.len() - j,
    {
        proof {
            assert(v@.skip(j as int)[0] == v@[j as int]);
            assert(v@.skip(j as int).skip(1) =~= v@.skip(j + 1 as int));
        }
        j += 1;
    }
    proof {
        if j < v@.len() {
            assert(v@.skip(j as int)[0] == v@[j as int]);
        }
        assert(skip_ws(v@.skip(j as int)) == v@.skip(j as int));
    }
    j
}

fn char_digit(c: char) -> (r: Option<u8>)
    ensures
        (match r {
            Some(d) => d < 10 && digit_val(c) == d as int,
            None => !is_digit(c),
        }),
{
    if c == '0' { Some(0) }
    else if c == '1' { Some(1) }
    else if c == '2' { Some(2) }
    else if c == '3' { Some(3) }
    else if c == '4' { Some(4) }
    else if c == '5' { Some(5) }
    else if c == '6' { Some(6) }
    else if c == '7' { Some(7) }
    else if c == '8' { Some(8) }
    else if c == '9' { Some(9) }
    else { None }
}

fn char_hex(c: char) -> (r: Option<u8>)
    ensures
        (match r {
            Some(d) => d < 16 && hex_val(c) == d as int,
            None => !is_hex(c),
        }),
{
    if c == 'a' || c == 'A' { Some(10) }
    else if c == 'b' || c == 'B' { Some(11) }
    else if c == 'c' || c == 'C' { Some(12) }
    else if c == 'd' || c == 'D' { Some(13) }
    else if c == 'e' || c == 'E' { Some(14) }
    else if c == 'f' || c == 'F' { Some(15) }
    else { char_digit(c) }
}

/// Prefixes a parsed string body with already-decoded characters.
spec fn prepend_body(acc: Seq<char>, r: Option<(Seq<char>, Seq<char>)>) -> Option<
    (Seq<char>, Seq<char>),
> {
    match r {
        Some(p) => Some((acc + p.0, p.1)),
        None => None,
    }
}

fn p_string(v: &Vec<char>, i: usize) -> (r: Option<(String, usize)>)
    requires
        i <= v@.len(),
    ensures
        (match r {
            Some(p) => i < p.1 <= v@.len()
                && parse_string(v@.skip(i as int)) == Some((p.0@, v@.skip(p.1 as int))),
            None => parse_string(v@.skip(i as int)) is None,
        }),
{
    if i >= v.len() || v[i] != '"' {
        return None;
    }
    proof {
        assert(v@.skip(i as int)[0] == '"');
        assert(v@.skip(i as int).skip(1) =~= v@.skip(i + 1 as int));
    }
    let mut acc: Vec<char> = Vec::new();
    let mut j: usize = i + 1;
    proof {
        match parse_string_body(v@.skip(i + 1 as int)) {
            Some(p) => {
                assert(Seq::<char>::empty() + p.0 =~= p.0);
            },
            None => {},
        }
    }
    loop
        invariant
            i + 1 <= j <= v@.len(),
            parse_string(v@.skip(i as int)) == prepend_body(
                acc@,
                parse_string_body(v@.skip(j as int)),
            ),
        decreases v@.len() - j,
    {
        if j >= v.len() {
            proof {
                assert(v@.skip(j as int).len() == 0);
            }
            return None;
        }
        let c = v[j];
        proof {
            assert(v@.skip(j as int)[0] == c);
        }
        if c == '"' {
            proof {
                assert(v@.skip(j as int).skip(1) =~= v@.skip(j + 1 as int));
                assert(acc@ + Seq::<char>::empty() =~= acc@);
            }
            return Some((chars_to_string(&acc), j + 1));
        } else if c == '\\' {
            if j + 1 >= v.len() {
                proof {
                    assert(v@.skip(j as int).len() == 1);
                }
                return None;
            }
            let d = v[j + 1];
            proof {
                assert(v@.skip(j as int)[1] == d);
            }
            if d == 'u' {
                let ghost s = v@.skip(j as int);
                if v.len() - j <= 5 {
                    proof {
                        assert(s.len() < 6);
                    }
                    return None;
                }
                proof {
                    assert(s.len() >= 6);
                    assert(s[2] == v@[j + 2] && s[3] == v@[j + 3] && s[4] == v@[j + 4]
                        && s[5] == v@[j + 5]);
                }
                let h0 = match char_hex(v[j + 2]) {
                    Some(d) => d,
                    None => {
                        return None;
                    },
                };
                let h1 = match char_hex(v[j + 3]) {
                    Some(d) => d,
                    None => {
                        return None;
                    },
                };
                let h2 = match char_hex(v[j + 4]) {
                    Some(d) => d,
                    None => {
                        return None;
                    },
                };
                let h3 = match char_hex(v[j + 5]) {
                    Some(d) => d,
                    None => {
                        return None;
                    },
                };
                let n: u32 = h0 as u32 * 4096 + h1 as u32 * 256 + h2 as u32 * 16 + h3 as u32;
                if 0xD800 <= n && n < 0xE000 {
                    proof {
                        assert(!scalar_ok(hex_val(s[2]) * 4096 + hex_val(s[3]) * 256
                            + hex_val(s[4]) * 16 + hex_val(s[5])));
                    }
                    return None;
                }
                let u = char_from_u32(n);
                let ghost acc0 = acc@;
                acc.push(u);
                proof {
                    assert(scalar_ok(n as int));
                    assert(v@.skip(j as int).skip(6) =~= v@.skip(j + 6 as int));
                    match parse_string_body(v@.skip(j + 6 as int)) {
                        Some(p) => {
                            assert(acc0 + (seq![u] + p.0) =~= acc0.push(u) + p.0);
                        },
                        None => {},
                    }
                }
                j += 6;
            } else {
                let u: char;
                if d == '"' {
                    u = '"';
                } else if d == '\\' {
                    u = '\\';
                } else if d == '/' {
                    u = '/';
                } else if d == 'b' {
                    u = '\u{0008}';
                } else if d == 'f' {
                    u = '\u{000C}';
                } else if d == 'n' {
                    u = '\n';
                } else if d == 'r' {
                    u = '\r';
                } else if d == 't' {
                    u = '\t';
                } else {
                    proof {
                        assert(unesc_char(d) is None);
                    }
                    return None;
                }
                let ghost acc0 = acc@;
                acc.push(u);
                proof {
                    assert(unesc_char(d) == Some(u));
                    assert(v@.skip(j as int).skip(2) =~= v@.skip(j + 2 as int));
                    match parse_string_body(v@.skip(j + 2 as int)) {
                        Some(p) => {
                            assert(acc0 + (seq![u] + p.0) =~= acc0.push(u) + p.0);
                        },
                        None => {},
                    }
                }
                j += 2;
            }
        } else if (c as u32) < 0x20 {
            proof {
                assert(is_ctl(v@.skip(j as int)[0]));
            }
            return None;
        } else {
            let ghost acc0 = acc@;
            acc.push(c);
            proof {
                assert(!is_ctl(v@.skip(j as int)[0]));
                assert(v@.skip(j as int).skip(1) =~= v@.skip(j + 1 as int));
                match parse_string_body(v@.skip(j + 1 as int)) {
                    Some(p) => {
                        assert(acc0 + (seq![c] + p.0) =~= acc0.push(c) + p.0);
                    },
                    None => {},
                }
            }
            j += 1;
        }
    }
}

fn p_byte(v: &Vec<char>, i: usize) -> (r: Option<(u8, usize)>)
    requires
        i <= v@.len(),
    ensures
        (match r {
            Some(p) => i < p.1 <= v@.len()
                && parse_byte(v@.skip(i as int)) == Some((p.0, v@.skip(p.1 as int))),
            None => parse_byte(v@.skip(i as int)) is None,
        }),
{
    let ghost s = v@.skip(i as int);
    if i >= v.len() {
        return None;
    }
    proof {
        assert(s[0] == v@[i as int]);
    }
    let d0 = match char_digit(v[i]) {
        Some(d) => d,
        None => {
            return None;
        },
    };
    if i + 1 >= v.len() {
        proof {
            assert(s.len() == 1);
            assert(s.skip(1) =~= v@.skip(i + 1 as int));
        }
        return Some((d0, i + 1));
    }
    proof {
        assert(s[1] == v@[i + 1]);
    }
    let d1 = match char_digit(v[i + 1]) {
        Some(d) => d,
        None => {
            proof {
                assert(s.skip(1) =~= v@.skip(i + 1 as int));
            }
            return Some((d0, i + 1));
        },
    };
    if d0 == 0 {
        return None;
    }
    if i + 2 >= v.len() {
        proof {
            assert(s.len() == 2);
            assert(s.skip(2) =~= v@.skip(i + 2 as int));
        }
        return Some((d0 * 10 + d1, i + 2));
    }
    proof {
        assert(s[2] == v@[i + 2]);
    }
    let d2 = match char_digit(v[i + 2]) {
        Some(d) => d,
        None => {
            proof {
                assert(s.skip(2) =~= v@.skip(i + 2 as int));
            }
            return Some((d0 * 10 + d1, i + 2));
        },
    };
    if i + 3 < v.len() {
        proof {
            assert(s[3] == v@[i + 3]);
        }
        if char_digit(v[i + 3]).is_some() {
            return None;
        }
    } else {
        proof {
            assert(s.len() == 3);
        }
    }
    let val: u16 = d0 as u16 * 100 + d1 as u16 * 10 + d2 as u16;
    if val <= 255 {
        proof {
            assert(s.skip(3) =~= v@.skip(i + 3 as int));
        }
        Some((val as u8, i + 3))
    } else {
        None
    }
}

fn p_bytes(v: &Vec<char>, i: usize) -> (r: Option<(Vec<u8>, usize)>)
    requires
        i <= v@.len(),
    ensures
        (match r {
            Some(p) => i < p.1 <= v@.len()
                && parse_bytes(v@.skip(i as int)) == Some((p.0@, v@.skip(p.1 as int))),
            None => parse_bytes(v@.skip(i as int)) is None,
        }),
{
    let ghost s = v@.skip(i as int);
    if i >= v.len() || v[i] != '[' {
        return None;
    }
    proof {
        assert(s[0] == '[');
        assert(s.skip(1) =~= v@.skip(i + 1 as int));
    }
    let t = p_skip_ws(v, i + 1);
    if t < v.len() && v[t] == ']' {
        let empty: Vec<u8> = Vec::new();
        proof {
            assert(skip_ws(s.skip(1))[0] == ']');
            assert(skip_ws(s.skip(1)).skip(1) =~= v@.skip(t + 1 as int));
            assert(empty@ =~= Seq::<u8>::empty());
        }
        return Some((empty, t + 1));
    }
    proof {
        if t < v@.len() {
            assert(skip_ws(s.skip(1))[0] == v@[t as int]);
        } else {
            assert(skip_ws(s.skip(1)).len() == 0);
        }
    }
    let first = match p_byte(v, t) {
        Some(p) => p,
        None => {
            return None;
        },
    };
    let mut acc: Vec<u8> = Vec::new();
    acc.push(first.0);
    let mut j = first.1;
    proof {
        assert(v@.skip(first.1 as int).len() < s.len());
        match parse_bytes_rest(v@.skip(j as int)) {
            Some(q) => {
                assert(acc@ + q.0 =~= seq![first.0] + q.0);
            },
            None => {},
        }
    }
    loop
        invariant
            i < j <= v@.len(),
            (match parse_bytes_rest(v@.skip(j as int)) {
                Some(q) => parse_bytes(v@.skip(i as int)) == Some((acc@ + q.0, q.1)),
                None => parse_bytes(v@.skip(i as int)) is None,
            }),
        decreases v@.len() - j,
    {
        let ghost sj = v@.skip(j as int);
        let u = p_skip_ws(v, j);
        if u >= v.len() {
            proof {
                assert(skip_ws(sj).len() == 0);
            }
            return None;
        }
        let c = v[u];
        proof {
            assert(skip_ws(sj)[0] == c);
        }
        if c == ']' {
            proof {
                assert(skip_ws(sj).skip(1) =~= v@.skip(u + 1 as int));
                assert(acc@ + Seq::<u8>::empty() =~= acc@);
            }
            return Some((acc, u + 1));
        }
        if c != ',' {
            return None;
        }
        proof {
            assert(skip_ws(sj).skip(1) =~= v@.skip(u + 1 as int));
        }
        let w = p_skip_ws(v, u + 1);
        let b = match p_byte(v, w) {
            Some(p) => p,
            None => {
                return None;
            },
        };
        let ghost acc0 = acc@;
        acc.push(b.0);
        proof {
            assert(v@.skip(b.1 as int).len() < sj.len());
            match parse_bytes_rest(v@.skip(b.1 as int)) {
                Some(q) => {
                    assert(acc0 + (seq![b.0] + q.0) =~= acc0.push(b.0) + q.0);
                },
                None => {},
            }
        }
        j = b.1;
    }
}

fn p_pair(v: &Vec<char>, i: usize) -> (r: Option<((String, String), usize)>)
    requires
        i <= v@.len(),
    ensures
        (match r {
            Some(p) => i < p.1 <= v@.len()
                && parse_pair(v@.skip(i as int)) == Some(((p.0.0@, p.0.1@), v@.skip(p.1 as int))),
            None => parse_pair(v@.skip(i as int)) is None,
        }),
{
    let k = match p_string(v, i) {
        Some(p) => p,
        None => {
            return None;
        },
    };
    let ghost mid = v@.skip(k.1 as int);
    let t = p_skip_ws(v, k.1);
    if t >= v.len() || v[t] != ':' {
        proof {
            if t < v@.len() {
                assert(skip_ws(mid)[0] == v@[t as int]);
            } else {
                assert(skip_ws(mid).len() == 0);
            }
        }
        return None;
    }
    proof {
        assert(skip_ws(mid)[0] == ':');
        assert(skip_ws(mid).skip(1) =~= v@.skip(t + 1 as int));
    }
    let w = p_skip_ws(v, t + 1);
    let val = match p_string(v, w) {
        Some(p) => p,
        None => {
            return None;
        },
    };
    Some(((k.0, val.0), val.1))
}

fn p_methods(v: &Vec<char>, i: usize) -> (r: Option<(Vec<(String, String)>, usize)>)
    requires
        i <= v@.len(),
    ensures
        (match r {
            Some(p) => i < p.1 <= v@.len()
                && parse_methods(v@.skip(i as int)) == Some(
                (methods_view(p.0@), v@.skip(p.1 as int)),
            ),
            None => parse_methods(v@.skip(i as int)) is None,
        }),
{
    let ghost s = v@.skip(i as int);
    if i >= v.len() || v[i] != '{' {
        return None;
    }
    proof {
        assert(s[0] == '{');
        assert(s.skip(1) =~= v@.skip(i + 1 as int));
    }
    let t = p_skip_ws(v, i + 1);
    if t < v.len() && v[t] == '}' {
        let empty: Vec<(String, String)> = Vec::new();
        proof {
            assert(skip_ws(s.skip(1))[0] == '}');
            assert(skip_ws(s.skip(1)).skip(1) =~= v@.skip(t + 1 as int));
            assert(methods_view(empty@) =~= Seq::<(Seq<char>, Seq<char>)>::empty());
        }
        return Some((empty, t + 1));
    }
    proof {
        if t < v@.len() {
            assert(skip_ws(s.skip(1))[0] == v@[t as int]);
        } else {
            assert(skip_ws(s.skip(1)).len() == 0);
        }
    }
    let first = match p_pair(v, t) {
        Some(p) => p,
        None => {
            return None;
        },
    };
    let mut acc: Vec<(String, String)> = Vec::new();
    let ghost kv = (first.0.0@, first.0.1@);
    acc.push(first.0);
    let mut j = first.1;
    proof {
        assert(v@.skip(first.1 as int).len() < s.len());
        assert(methods_view(acc@) =~= seq![kv]);
        match parse_methods_rest(v@.skip(j as int)) {
            Some(q) => {
                assert(methods_view(acc@) + q.0 =~= seq![kv] + q.0);
            },
            None => {},
        }
    }
    loop
        invariant
            i < j <= v@.len(),
            (match parse_methods_rest(v@.skip(j as int)) {
                Some(q) => parse_methods(v@.skip(i as int)) == Some(
                    (methods_view(acc@) + q.0, q.1),
                ),
                None => parse_methods(v@.skip(i as int)) is None,
            }),
        decreases v@.len() - j,
    {
        let ghost sj = v@.skip(j as int);
        let u = p_skip_ws(v, j);
        if u >= v.len() {
            proof {
                assert(skip_ws(sj).len() == 0);
            }
            return None;
        }
        let c = v[u];
        proof {
            assert(skip_ws(sj)[0] == c);
        }
        if c == '}' {
            proof {
                assert(skip_ws(sj).skip(1) =~= v@.skip(u + 1 as int));
                assert(methods_view(acc@) + Seq::<(Seq<char>, Seq<char>)>::empty()
                    =~= methods_view(acc@));
            }
            return Some((acc, u + 1));
        }
        if c != ',' {
            return None;
        }
        proof {
            assert(skip_ws(sj).skip(1) =~= v@.skip(u + 1 as int));
        }
        let w = p_skip_ws(v, u + 1);
        let p = match p_pair(v, w) {
            Some(p) => p,
            None => {
                return None;
            },
        };
        let ghost acc0 = acc@;
        let ghost kv2 = (p.0.0@, p.0.1@);
        acc.push(p.0);
        proof {
            assert(v@.skip(p.1 as int).len() < sj.len());
            assert(methods_view(acc@) =~= methods_view(acc0).push(kv2));
            match parse_methods_rest(v@.skip(p.1 as int)) {
                Some(q) => {
                    assert(methods_view(acc0) + (seq![kv2] + q.0)
                        =~= methods_view(acc0).push(kv2) + q.0);
                },
                None => {},
            }
        }
        j = p.1;
    }
}

fn parse_error() -> (e: DeviceError)
    ensures
        e is Parse,
{
    DeviceError::Parse(String::from_str("malformed device JSON"))
}

spec fn opt_str_view(o: Option<String>) -> Option<Seq<char>> {
    match o {
        Some(s) => Some(s@),
        None => None,
    }
}

spec fn opt_bytes_view(o: Option<Vec<u8>>) -> Option<Seq<u8>> {
    match o {
        Some(b) => Some(b@),
        None => None,
    }
}

spec fn opt_methods_view(o: Option<Vec<(String, String)>>) -> Option<
    Seq<(Seq<char>, Seq<char>)>,
> {
    match o {
        Some(m) => Some(methods_view(m@)),
        None => None,
    }
}

/// What `parse_device` makes of the members from position `j` on, given the
/// fields gathered so far.
spec fn members_outcome(
    v: Seq<char>,
    j: int,
    dt: Option<String>,
    ip: Option<String>,
    tok: Option<String>,
    by: Option<Vec<u8>>,
    ms: Option<Vec<(String, String)>>,
) -> Option<DeviceView> {
    match parse_members(v.skip(j), opt_str_view(dt), opt_str_view(ip), opt_str_view(tok),
        opt_bytes_view(by), opt_methods_view(ms)) {
        Some(p) => if skip_ws(p.1).len() == 0 {
            Some(p.0)
        } else {
            None
        },
        None => None,
    }
}

impl Device {
    /// Deserializes a session from JSON text.  Accepts exactly the documents
    /// that `parse_device` accepts - a JSON object with the five correctly
    /// typed fields, in any member order, with any insignificant whitespace -
    /// and yields the well-formed session such a document denotes.
    /// Everything else - malformed JSON, a missing, mistyped, repeated or
    /// unknown member, trailing text, or a duplicate method name - is a
    /// parse error.
    #[verifier::rlimit(100)]
    pub fn from_json(s: &str) -> (r: Result<Device, DeviceError>)
        ensures
            (match r {
                Ok(d) => parse_device(s@) == Some(d@) && d@.wf(),
                Err(e) => parse_device(s@) is None && e is Parse,
            }),
    {
        let v = str_to_chars(s);
        proof {
            assert(v@.skip(0) =~= s@);
        }
        let t0 = p_skip_ws(&v, 0);
        if t0 >= v.len() || v[t0] != '{' {
            proof {
                if t0 < v@.len() {
                    assert(skip_ws(s@)[0] == v@[t0 as int]);
                } else {
                    assert(skip_ws(s@).len() == 0);
                }
            }
            return Err(parse_error());
        }
        proof {
            assert(skip_ws(s@)[0] == '{');
            assert(skip_ws(s@).skip(1) =~= v@.skip(t0 + 1 as int));
        }
        let mut dt: Option<String> = None;
        let mut ip: Option<String> = None;
        let mut tok: Option<String> = None;
        let mut by: Option<Vec<u8>> = None;
        let mut ms: Option<Vec<(String, String)>> = None;
        let mut j = t0 + 1;
        loop
            invariant
                j <= v@.len(),
                v@ == s@,
                parse_device(s@) == members_outcome(v@, j as int, dt, ip, tok, by, ms),
            decreases v@.len() - j,
        {
            let ghost sj = v@.skip(j as int);
            let a = p_skip_ws(&v, j);
            let k = match p_string(&v, a) {
                Some(k) => k,
                None => {
                    return Err(parse_error());
                },
            };
            let b = p_skip_ws(&v, k.1);
            if b >= v.len() || v[b] != ':' {
                proof {
                    if b < v@.len() {
                        assert(skip_ws(v@.skip(k.1 as int))[0] == v@[b as int]);
                    } else {
                        assert(skip_ws(v@.skip(k.1 as int)).len() == 0);
                    }
                }
                return Err(parse_error());
            }
            proof {
                assert(skip_ws(v@.skip(k.1 as int))[0] == ':');
                assert(skip_ws(v@.skip(k.1 as int)).skip(1) =~= v@.skip(b + 1 as int));
            }
            let c0 = p_skip_ws(&v, b + 1);
            let rest: usize;
            if str_eq(k.0.as_str(), "device_type") {
                if dt.is_some() {
                    return Err(parse_error());
                }
                let val = match p_string(&v, c0) {
                    Some(p) => p,
                    None => {
                        return Err(parse_error());
                    },
                };
                proof {
                    assert(v@.skip(val.1 as int).len() < sj.len());
                }
                dt = Some(val.0);
                rest = val.1;
            } else if str_eq(k.0.as_str(), "ip") {
                if ip.is_some() {
                    return Err(parse_error());
                }
                let val = match p_string(&v, c0) {
                    Some(p) => p,
                    None => {
                        return Err(parse_error());
                    },
                };
                proof {
                    assert(v@.skip(val.1 as int).len() < sj.len());
                }
                ip = Some(val.0);
                rest = val.1;
            } else if str_eq(k.0.as_str(), "token") {
                if tok.is_some() {
                    return Err(parse_error());
                }
                let val = match p_string(&v, c0) {
                    Some(p) => p,
                    None => {
                        return Err(parse_error());
                    },
                };
                proof {
                    assert(v@.skip(val.1 as int).len() < sj.len());
                }
                tok = Some(val.0);
                rest = val.1;
            } else if str_eq(k.0.as_str(), "serialized_py_object") {
                if by.is_some() {
                    return Err(parse_error());
                }
                let val = match p_bytes(&v, c0) {
                    Some(p) => p,
                    None => {
                        return Err(parse_error());
                    },
                };
                proof {
                    assert(v@.skip(val.1 as int).len() < sj.len());
                }
                by = Some(val.0);
                rest = val.1;
            } else if str_eq(k.0.as_str(), "callable_methods") {
                if ms.is_some() {
                    return Err(parse_error());
                }
                let val = match p_methods(&v, c0) {
                    Some(p) => p,
                    None => {
                        return Err(parse_error());
                    },
                };
                proof {
                    assert(v@.skip(val.1 as int).len() < sj.len());
                }
                ms = Some(val.0);
                rest = val.1;
            } else {
                proof {
                    assert(k.0@ != key_device_type() && k.0@ != key_ip()
                        && k.0@ != key_token() && k.0@ != key_handle()
                        && k.0@ != key_methods());
                }
                return Err(parse_error());
            }
            let ghost srest = v@.skip(rest as int);
            let u = p_skip_ws(&v, rest);
            if u >= v.len() {
                proof {
                    assert(skip_ws(srest).len() == 0);
                }
                return Err(parse_error());
            }
            let c = v[u];
            proof {
                assert(skip_ws(srest)[0] == c);
            }
            if c == '}' {
                proof {
                    assert(skip_ws(srest).skip(1) =~= v@.skip(u + 1 as int));
                }
                let (dt, ip, tok, by, ms) = match (dt, ip, tok, by, ms) {
                    (Some(a1), Some(a2), Some(a3), Some(a4), Some(a5)) => (a1, a2, a3, a4, a5),
                    _ => {
                        return Err(parse_error());
                    },
                };
                let z = p_skip_ws(&v, u + 1);
                if z != v.len() {
                    proof {
                        assert(skip_ws(v@.skip(u + 1 as int)).len() != 0);
                    }
                    return Err(parse_error());
                }
                proof {
                    assert(skip_ws(v@.skip(u + 1 as int)).len() == 0);
                }
                match Device::from_parts(dt, ip, tok, by, ms) {
                    Ok(d) => {
                        proof {
                            let pv = parse_device(s@).unwrap();
                            assert(pv =~= d@);
                        }
                        return Ok(d);
                    },
                    Err(_) => {
                        return Err(parse_error());
                    },
                }
            } else if c == ',' {
                proof {
                    assert(skip_ws(srest).skip(1) =~= v@.skip(u + 1 as int));
                    assert(v@.skip(u + 1 as int).len() < srest.len());
                }
                j = u + 1;
            } else {
                return Err(parse_error());
            }
        }
    }
}

} // verus!
