//! String literals: where one ends, and what text it stands for.
use vstd::prelude::*;
use crate::chars::{is_space, space_char};
use crate::scanner::is_quote;

verus! {

/// The position of the opening quote of a literal at `p`: one further when
/// the literal has the raw prefix `r`.
pub open spec fn string_open(t: Seq<char>, p: int) -> int {
    if 0 <= p && p + 1 < t.len() && t[p] == 'r' && is_quote(t[p + 1]) {
        p + 1
    } else {
        p
    }
}

/// The end of a literal body from `i` on, closed by `d`: the position after
/// the closing quote, or -1. A backslash takes the next character with it,
/// unless that is a newline.
pub open spec fn string_close(t: Seq<char>, i: int, d: char) -> int
    decreases t.len() - i,
{
    if i < 0 || i >= t.len() {
        -1
    } else if t[i] == d {
        i + 1
    } else if t[i] == '\\' {
        if i + 1 < t.len() && t[i + 1] != '\n' {
            string_close(t, i + 2, d)
        } else {
            -1
        }
    } else {
        string_close(t, i + 1, d)
    }
}

/// The end of a string literal that starts at `p`, or `p` if none does.
pub open spec fn string_end(t: Seq<char>, p: int) -> int {
    let q = string_open(t, p);
    if 0 <= q < t.len() && is_quote(t[q]) {
        let e = string_close(t, q + 1, t[q]);
        if e > q {
            e
        } else {
            p
        }
    } else {
        p
    }
}

/// `s[i..]` with each backslash-`n` pair read as a newline.
pub open spec fn unescape_newlines(s: Seq<char>, i: int) -> Seq<char>
    decreases s.len() - i,
{
    if i < 0 || i >= s.len() {
        seq![]
    } else if i + 1 < s.len() && s[i] == '\\' && s[i + 1] == 'n' {
        seq!['\n'] + unescape_newlines(s, i + 2)
    } else {
        seq![s[i]] + unescape_newlines(s, i + 1)
    }
}

pub open spec fn is_hex(c: char) -> bool {
    ('0' <= c && c <= '9') || ('a' <= c && c <= 'f') || ('A' <= c && c <= 'F')
}

pub open spec fn hex_digit_value(c: char) -> nat {
    if '0' <= c && c <= '9' {
        (c as u32 - '0' as u32) as nat
    } else if 'a' <= c && c <= 'f' {
        (c as u32 - 'a' as u32 + 10) as nat
    } else {
        (c as u32 - 'A' as u32 + 10) as nat
    }
}

/// The number of hex digits at `i + k` and on, up to four in all.
pub open spec fn hex_count(s: Seq<char>, i: int, k: int) -> int
    decreases 4 - k,
{
    if k < 0 || k >= 4 || i + k >= s.len() || !is_hex(s[i + k]) {
        k
    } else {
        hex_count(s, i, k + 1)
    }
}

/// The value of a sequence of hex digits.
pub open spec fn hex_value(h: Seq<char>) -> nat
    decreases h.len(),
{
    if h.len() == 0 {
        0
    } else {
        hex_value(h.drop_last()) * 16 + hex_digit_value(h.last())
    }
}

/// The character that a `\u` escape of value `v` stands for: a single byte,
/// the value modulo 256, read as the code point of that byte.
pub open spec fn byte_char(v: nat) -> char {
    ((v % 256) as u8) as char
}

/// `s[i..]` with each backslash-`u` and one to four hex digits read as a
/// single byte.
pub open spec fn decode_unicode(s: Seq<char>, i: int) -> Seq<char>
    decreases s.len() - i,
{
    if i < 0 || i >= s.len() {
        seq![]
    } else if i + 2 < s.len() && s[i] == '\\' && s[i + 1] == 'u' && is_hex(s[i + 2]) {
        let k = hex_count(s, i + 2, 0);
        if k < 1 || i + 2 + k > s.len() {
            seq![]
        } else {
            seq![byte_char(hex_value(s.subrange(i + 2, i + 2 + k)))] + decode_unicode(s, i + 2 + k)
        }
    } else {
        seq![s[i]] + decode_unicode(s, i + 1)
    }
}

/// `s[i..]` with each backslash dropped before the character it escapes
/// (any but a newline).
pub open spec fn drop_escapes(s: Seq<char>, i: int) -> Seq<char>
    decreases s.len() - i,
{
    if i < 0 || i >= s.len() {
        seq![]
    } else if i + 1 < s.len() && s[i] == '\\' && s[i + 1] != '\n' {
        seq![s[i + 1]] + drop_escapes(s, i + 2)
    } else {
        seq![s[i]] + drop_escapes(s, i + 1)
    }
}

/// `s[i..]` with each run of whitespace replaced by one space; `prev` says
/// that the character before `i` was whitespace already replaced.
pub open spec fn collapse_spaces(s: Seq<char>, i: int, prev: bool) -> Seq<char>
    decreases s.len() - i,
{
    if i < 0 || i >= s.len() {
        seq![]
    } else if is_space(s[i]) {
        if prev {
            collapse_spaces(s, i + 1, true)
        } else {
            seq![' '] + collapse_spaces(s, i + 1, true)
        }
    } else {
        seq![s[i]] + collapse_spaces(s, i + 1, false)
    }
}

/// The text that a literal body without the raw prefix stands for: newline
/// escapes, then byte escapes, then other escapes are decoded, and runs of
/// whitespace become one space.
pub open spec fn decode_body(body: Seq<char>) -> Seq<char> {
    let a = unescape_newlines(body, 0);
    let b = decode_unicode(a, 0);
    let c = drop_escapes(b, 0);
    collapse_spaces(c, 0, false)
}

/// The text that the literal `t[p..e]` stands for: its body, decoded
/// unless it is raw.
pub open spec fn string_value(t: Seq<char>, p: int, e: int) -> Seq<char> {
    let q = string_open(t, p);
    let body = t.subrange(q + 1, e - 1);
    if q > p {
        body
    } else {
        decode_body(body)
    }
}

fn quote_char(c: char) -> (r: bool)
    ensures
        r == is_quote(c),
{
    c == '"' || c == '\'' || c == '`'
}

fn open_at(t: &[char], p: usize) -> (r: usize)
    requires
        p <= t@.len(),
    ensures
        r == string_open(t@, p as int),
        p <= r <= p + 1,
{
    if p < t.len() && t.len() - p > 1 && t[p] == 'r' && quote_char(t[p + 1]) {
        p + 1
    } else {
        p
    }
}

/// The end of a string literal that starts at `p`, or `p` if none does.
pub fn match_string(t: &[char], p: usize) -> (r: usize)
    requires
        p <= t@.len(),
    ensures
        r == string_end(t@, p as int),
        p <= r <= t@.len(),
{
    let n = t.len();
    let q = open_at(t, p);
    if q >= n || !quote_char(t[q]) {
        return p;
    }
    let d = t[q];
    let mut i = q + 1;
    while i < n
        invariant
            n == t@.len(),
            q < i <= n,
            p <= q,
            q == string_open(t@, p as int),
            d == t@[q as int],
            is_quote(d),
            string_close(t@, i as int, d) == string_close(t@, q + 1, d),
        decreases n - i,
    {
        if t[i] == d {
            proof {
                assert(string_close(t@, i as int, d) == i + 1);
                assert(string_end(t@, p as int) == i + 1);
            }
            return i + 1;
        }
        if t[i] == '\\' {
            if i + 1 < n && t[i + 1] != '\n' {
                i = i + 2;
            } else {
                return p;
            }
        } else {
            i = i + 1;
        }
    }
    p
}

fn unescape_newlines_exec(s: &[char]) -> (r: Vec<char>)
    ensures
        r@ == unescape_newlines(s@, 0),
{
    let n = s.len();
    let mut r: Vec<char> = Vec::new();
    let mut i: usize = 0;
    while i < n
        invariant
            n == s@.len(),
            i <= n + 1,
            r@ + unescape_newlines(s@, i as int) == unescape_newlines(s@, 0),
        decreases n + 1 - i,
    {
        if i + 1 < n && s[i] == '\\' && s[i + 1] == 'n' {
            proof {
                assert(r@ + unescape_newlines(s@, i as int) =~= r@.push('\n') + unescape_newlines(s@, i + 2));
            }
            r.push('\n');
            i = i + 2;
        } else {
            proof {
                assert(r@ + unescape_newlines(s@, i as int) =~= r@.push(s@[i as int]) + unescape_newlines(s@, i + 1));
            }
            r.push(s[i]);
            i = i + 1;
        }
    }
    proof {
        assert(r@ + unescape_newlines(s@, i as int) =~= r@);
    }
    r
}

fn hex_char(c: char) -> (r: bool)
    ensures
        r == is_hex(c),
{
    ('0' <= c && c <= '9') || ('a' <= c && c <= 'f') || ('A' <= c && c <= 'F')
}

fn hex_digit(c: char) -> (r: u32)
    requires
        is_hex(c),
    ensures
        r == hex_digit_value(c),
        r < 16,
{
    if '0' <= c && c <= '9' {
        (c as u32) - ('0' as u32)
    } else if 'a' <= c && c <= 'f' {
        (c as u32) - ('a' as u32) + 10
    } else {
        (c as u32) - ('A' as u32) + 10
    }
}

fn decode_unicode_exec(s: &[char]) -> (r: Vec<char>)
    ensures
        r@ == decode_unicode(s@, 0),
{
    let n = s.len();
    let mut r: Vec<char> = Vec::new();
    let mut i: usize = 0;
    while i < n
        invariant
            n == s@.len(),
            i <= n,
            r@ + decode_unicode(s@, i as int) == decode_unicode(s@, 0),
        decreases n - i,
    {
        if n - i > 2 && s[i] == '\\' && s[i + 1] == 'u' && hex_char(s[i + 2]) {
            let a = i + 2;
            let mut k: usize = 0;
            let mut v: u32 = 0;
            while k < 4 && a + k < n && hex_char(s[a + k])
                invariant
                    n == s@.len(),
                    a < n,
                    k <= 4,
                    a + k <= n,
                    hex_count(s@, a as int, k as int) == hex_count(s@, a as int, 0),
                    v == hex_value(s@.subrange(a as int, a + k)),
                    v < 0x10000,
                    k == 0 ==> v == 0,
                    k <= 1 ==> v < 16,
                    k <= 2 ==> v < 0x100,
                    k <= 3 ==> v < 0x1000,
                decreases 4 - k,
            {
                proof {
                    assert(s@.subrange(a as int, a + k + 1).drop_last() =~= s@.subrange(a as int, a + k));
                }
                let d = hex_digit(s[a + k]);
                v = v * 16 + d;
                k = k + 1;
            }
            let c = ((v % 256) as u8) as char;
            proof {
                assert(r@ + decode_unicode(s@, i as int) =~= r@.push(c) + decode_unicode(s@, (a + k) as int));
            }
            r.push(c);
            i = a + k;
        } else {
            proof {
                assert(r@ + decode_unicode(s@, i as int) =~= r@.push(s@[i as int]) + decode_unicode(s@, i + 1));
            }
            r.push(s[i]);
            i = i + 1;
        }
    }
    proof {
        assert(r@ + decode_unicode(s@, i as int) =~= r@);
    }
    r
}

fn drop_escapes_exec(s: &[char]) -> (r: Vec<char>)
    ensures
        r@ == drop_escapes(s@, 0),
{
    let n = s.len();
    let mut r: Vec<char> = Vec::new();
    let mut i: usize = 0;
    while i < n
        invariant
            n == s@.len(),
            i <= n + 1,
            r@ + drop_escapes(s@, i as int) == drop_escapes(s@, 0),
        decreases n + 1 - i,
    {
        if i + 1 < n && s[i] == '\\' && s[i + 1] != '\n' {
            proof {
                assert(r@ + drop_escapes(s@, i as int) =~= r@.push(s@[i + 1]) + drop_escapes(s@, i + 2));
            }
            r.push(s[i + 1]);
            i = i + 2;
        } else {
            proof {
                assert(r@ + drop_escapes(s@, i as int) =~= r@.push(s@[i as int]) + drop_escapes(s@, i + 1));
            }
            r.push(s[i]);
            i = i + 1;
        }
    }
    proof {
        assert(r@ + drop_escapes(s@, i as int) =~= r@);
    }
    r
}

fn collapse_spaces_exec(s: &[char]) -> (r: Vec<char>)
    ensures
        r@ == collapse_spaces(s@, 0, false),
{
    let n = s.len();
    let mut r: Vec<char> = Vec::new();
    let mut i: usize = 0;
    let mut prev = false;
    while i < n
        invariant
            n == s@.len(),
            i <= n,
            r@ + collapse_spaces(s@, i as int, prev) == collapse_spaces(s@, 0, false),
        decreases n - i,
    {
        if space_char(s[i]) {
            if !prev {
                proof {
                    assert(r@ + collapse_spaces(s@, i as int, prev) =~= r@.push(' ') + collapse_spaces(s@, i + 1, true));
                }
                r.push(' ');
            }
            prev = true;
        } else {
            proof {
                assert(r@ + collapse_spaces(s@, i as int, prev) =~= r@.push(s@[i as int]) + collapse_spaces(s@, i + 1, false));
            }
            r.push(s[i]);
            prev = false;
        }
        i = i + 1;
    }
    proof {
        assert(r@ + collapse_spaces(s@, i as int, prev) =~= r@);
    }
    r
}

/// The text that the literal `t[p..e]` stands for.
pub fn string_value_exec(t: &[char], p: usize, e: usize) -> (r: Vec<char>)
    requires
        p < e <= t@.len(),
        e == string_end(t@, p as int),
    ensures
        r@ == string_value(t@, p as int, e as int),
{
    let q = open_at(t, p);
    proof {
        assert(string_close(t@, q + 1, t@[q as int]) > q + 1) by {
            lemma_close_after(t@, q + 1, t@[q as int]);
        }
    }
    let body = crate::chars::slice_chars(t, q + 1, e - 1);
    if q > p {
        body
    } else {
        let a = unescape_newlines_exec(&body);
        let b = decode_unicode_exec(&a);
        let c = drop_escapes_exec(&b);
        collapse_spaces_exec(&c)
    }
}

proof fn lemma_close_after(t: Seq<char>, i: int, d: char)
    ensures
        string_close(t, i, d) == -1 || string_close(t, i, d) > i,
    decreases t.len() - i,
{
    if 0 <= i < t.len() && t[i] != d && t[i] == '\\' && i + 1 < t.len() && t[i + 1] != '\n' {
        lemma_close_after(t, i + 2, d);
    } else if 0 <= i < t.len() && t[i] != d && t[i] != '\\' {
        lemma_close_after(t, i + 1, d);
    }
}

} // verus!
