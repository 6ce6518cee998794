//! The tokens of the statement grammar, each as the end of the longest
//! match that starts at a given position of a line.
use vstd::prelude::*;
use crate::chars::{
    digit_char, is_digit, is_name_start, is_space, is_word_char, is_word_rest, space_char, word_char,
    word_rest_char,
};

verus! {

/// The first position at or after `p` that holds no whitespace.
pub open spec fn ws_end(t: Seq<char>, p: int) -> int
    decreases t.len() - p,
{
    if p < 0 || p >= t.len() || !is_space(t[p]) {
        p
    } else {
        ws_end(t, p + 1)
    }
}

/// The first position at or after `p` that cannot continue a word.
pub open spec fn rest_end(t: Seq<char>, p: int) -> int
    decreases t.len() - p,
{
    if p < 0 || p >= t.len() || !is_word_rest(t[p]) {
        p
    } else {
        rest_end(t, p + 1)
    }
}

/// The first position at or after `p` that holds no ASCII digit.
pub open spec fn digits_end(t: Seq<char>, p: int) -> int
    decreases t.len() - p,
{
    if p < 0 || p >= t.len() || !is_digit(t[p]) {
        p
    } else {
        digits_end(t, p + 1)
    }
}

/// Past an optional sign at `p`.
pub open spec fn sign_end(t: Seq<char>, p: int) -> int {
    if 0 <= p < t.len() && (t[p] == '+' || t[p] == '-') {
        p + 1
    } else {
        p
    }
}

/// A word: a word character, then characters that may continue a word.
pub open spec fn word_end(t: Seq<char>, p: int) -> int {
    if 0 <= p < t.len() && is_word_char(t[p]) {
        rest_end(t, p + 1)
    } else {
        p
    }
}

/// A name: a word that does not start with a digit.
pub open spec fn name_end(t: Seq<char>, p: int) -> int {
    if 0 <= p < t.len() && is_name_start(t[p]) {
        rest_end(t, p + 1)
    } else {
        p
    }
}

/// An integer: an optional sign and one or more digits.
pub open spec fn integer_end(t: Seq<char>, p: int) -> int {
    let a = sign_end(t, p);
    let b = digits_end(t, a);
    if b > a {
        b
    } else {
        p
    }
}

/// An optional exponent at `c`: `e` or `E`, an optional sign, digits.
pub open spec fn exponent_end(t: Seq<char>, c: int) -> int {
    if 0 <= c < t.len() && (t[c] == 'e' || t[c] == 'E') {
        let d = sign_end(t, c + 1);
        let e = digits_end(t, d);
        if e > d {
            e
        } else {
            c
        }
    } else {
        c
    }
}

/// A float: an optional sign, digits with a decimal point and a digit on at
/// least one side of it, and an optional exponent.
pub open spec fn float_end(t: Seq<char>, p: int) -> int {
    let a = sign_end(t, p);
    let b = digits_end(t, a);
    if 0 <= b < t.len() && t[b] == '.' {
        let c = digits_end(t, b + 1);
        if b > a || c > b + 1 {
            exponent_end(t, c)
        } else {
            p
        }
    } else {
        p
    }
}

/// Whether a word starts or ends between positions `e - 1` and `e`.
pub open spec fn is_boundary(t: Seq<char>, e: int) -> bool {
    (0 < e <= t.len() && is_word_char(t[e - 1])) != (0 <= e < t.len() && is_word_char(t[e]))
}

/// Whether the keyword `w` stands at `p`, followed by a word boundary.
pub open spec fn keyword_at(t: Seq<char>, p: int, w: Seq<char>) -> bool {
    &&& 0 <= p
    &&& p + w.len() <= t.len()
    &&& t.subrange(p, p + w.len()) == w
    &&& is_boundary(t, p + w.len())
}

pub fn skip_spaces(t: &[char], p: usize) -> (r: usize)
    requires
        p <= t@.len(),
    ensures
        r == ws_end(t@, p as int),
        p <= r <= t@.len(),
{
    let mut i = p;
    while i < t.len() && space_char(t[i])
        invariant
            p <= i <= t@.len(),
            ws_end(t@, i as int) == ws_end(t@, p as int),
        decreases t@.len() - i,
    {
        i = i + 1;
    }
    i
}

fn skip_rest(t: &[char], p: usize) -> (r: usize)
    requires
        p <= t@.len(),
    ensures
        r == rest_end(t@, p as int),
        p <= r <= t@.len(),
{
    let mut i = p;
    while i < t.len() && word_rest_char(t[i])
        invariant
            p <= i <= t@.len(),
            rest_end(t@, i as int) == rest_end(t@, p as int),
        decreases t@.len() - i,
    {
        i = i + 1;
    }
    i
}

pub fn skip_digits(t: &[char], p: usize) -> (r: usize)
    requires
        p <= t@.len(),
    ensures
        r == digits_end(t@, p as int),
        p <= r <= t@.len(),
{
    let mut i = p;
    while i < t.len() && digit_char(t[i])
        invariant
            p <= i <= t@.len(),
            digits_end(t@, i as int) == digits_end(t@, p as int),
        decreases t@.len() - i,
    {
        i = i + 1;
    }
    i
}

fn skip_sign(t: &[char], p: usize) -> (r: usize)
    requires
        p <= t@.len(),
    ensures
        r == sign_end(t@, p as int),
        p <= r <= t@.len(),
{
    if p < t.len() && (t[p] == '+' || t[p] == '-') {
        p + 1
    } else {
        p
    }
}

pub fn match_word(t: &[char], p: usize) -> (r: usize)
    requires
        p <= t@.len(),
    ensures
        r == word_end(t@, p as int),
        p <= r <= t@.len(),
{
    if p < t.len() && word_char(t[p]) {
        skip_rest(t, p + 1)
    } else {
        p
    }
}

pub fn match_name(t: &[char], p: usize) -> (r: usize)
    requires
        p <= t@.len(),
    ensures
        r == name_end(t@, p as int),
        p <= r <= t@.len(),
{
    if p < t.len() && word_char(t[p]) && !digit_char(t[p]) {
        skip_rest(t, p + 1)
    } else {
        p
    }
}

pub fn match_integer(t: &[char], p: usize) -> (r: usize)
    requires
        p <= t@.len(),
    ensures
        r == integer_end(t@, p as int),
        p <= r <= t@.len(),
{
    let a = skip_sign(t, p);
    let b = skip_digits(t, a);
    if b > a {
        b
    } else {
        p
    }
}

fn match_exponent(t: &[char], c: usize) -> (r: usize)
    requires
        c <= t@.len(),
    ensures
        r == exponent_end(t@, c as int),
        c <= r <= t@.len(),
{
    if c < t.len() && (t[c] == 'e' || t[c] == 'E') {
        let d = skip_sign(t, c + 1);
        let e = skip_digits(t, d);
        if e > d {
            e
        } else {
            c
        }
    } else {
        c
    }
}

pub fn match_float(t: &[char], p: usize) -> (r: usize)
    requires
        p <= t@.len(),
    ensures
        r == float_end(t@, p as int),
        p <= r <= t@.len(),
{
    let a = skip_sign(t, p);
    let b = skip_digits(t, a);
    if b < t.len() && t[b] == '.' {
        let c = skip_digits(t, b + 1);
        if b > a || c > b + 1 {
            match_exponent(t, c)
        } else {
            p
        }
    } else {
        p
    }
}

pub fn boundary_at(t: &[char], e: usize) -> (r: bool)
    requires
        e <= t@.len(),
    ensures
        r == is_boundary(t@, e as int),
{
    let before = e > 0 && word_char(t[e - 1]);
    let after = e < t.len() && word_char(t[e]);
    before != after
}

/// Whether the keyword `w` stands at `p`.
pub fn keyword_matches(t: &[char], p: usize, w: &[char]) -> (r: bool)
    requires
        p <= t@.len(),
    ensures
        r == keyword_at(t@, p as int, w@),
{
    if w.len() > t.len() - p {
        return false;
    }
    let n = t.len();
    let mut i: usize = 0;
    while i < w.len()
        invariant
            n == t@.len(),
            p + w@.len() <= t@.len(),
            i <= w@.len(),
            forall|j: int| 0 <= j < i ==> t@[p + j] == w@[j],
        decreases w@.len() - i,
    {
        if t[p + i] != w[i] {
            proof {
                assert(t@.subrange(p as int, p + w@.len())[i as int] != w@[i as int]);
            }
            return false;
        }
        i = i + 1;
    }
    proof {
        assert(t@.subrange(p as int, p + w@.len()) =~= w@);
    }
    boundary_at(t, p + w.len())
}

pub proof fn lemma_ws_end(t: Seq<char>, p: int)
    requires
        0 <= p <= t.len(),
    ensures
        p <= ws_end(t, p) <= t.len(),
        ws_end(t, ws_end(t, p)) == ws_end(t, p),
        ws_end(t, p) < t.len() ==> !is_space(t[ws_end(t, p)]),
    decreases t.len() - p,
{
    if p < t.len() && is_space(t[p]) {
        lemma_ws_end(t, p + 1);
    }
}

proof fn lemma_rest_end(t: Seq<char>, p: int)
    requires
        0 <= p <= t.len(),
    ensures
        p <= rest_end(t, p) <= t.len(),
    decreases t.len() - p,
{
    if p < t.len() && is_word_rest(t[p]) {
        lemma_rest_end(t, p + 1);
    }
}

pub proof fn lemma_token_bounds(t: Seq<char>, p: int)
    requires
        0 <= p <= t.len(),
    ensures
        p <= name_end(t, p) <= t.len(),
        p <= word_end(t, p) <= t.len(),
{
    if p < t.len() {
        lemma_rest_end(t, p + 1);
    }
}

} // verus!
