//! Rewriting the file name that errors report.
use vstd::prelude::*;
use crate::chars::{append_chars, chars_eq, chars_of, slice_chars, string_of};

verus! {

/// The number of colons in `s`.
pub open spec fn colons(s: Seq<char>) -> nat
    decreases s.len(),
{
    if s.len() == 0 {
        0
    } else {
        colons(s.drop_last()) + if s.last() == ':' { 1nat } else { 0nat }
    }
}

/// The index of the first colon in `s` at or after `i`, or its length.
pub open spec fn colon_index(s: Seq<char>, i: int) -> int
    decreases s.len() - i,
{
    if i < 0 || i >= s.len() {
        s.len() as int
    } else if s[i] == ':' {
        i
    } else {
        colon_index(s, i + 1)
    }
}

/// The file name `f` as errors report it under the setting `A:B`: a leading
/// `A` becomes `B`. A setting without exactly one colon changes nothing.
pub open spec fn elided(f: Seq<char>, setting: Seq<char>) -> Seq<char> {
    let k = colon_index(setting, 0);
    let a = setting.subrange(0, k);
    let b = setting.subrange(k + 1, setting.len() as int);
    if colons(setting) == 1 && a.len() <= f.len() && f.subrange(0, a.len() as int) == a {
        b + f.subrange(a.len() as int, f.len() as int)
    } else {
        f
    }
}

proof fn lemma_colon_index(s: Seq<char>, i: int)
    requires
        0 <= i <= s.len(),
    ensures
        i <= colon_index(s, i) <= s.len(),
        colons(s) >= 1 ==> colon_index(s, 0) < s.len(),
    decreases s.len() - i,
{
    if i < s.len() && s[i] != ':' {
        lemma_colon_index(s, i + 1);
    }
    if colons(s) >= 1 {
        lemma_colons_found(s);
    }
}

proof fn lemma_colons_found(s: Seq<char>)
    requires
        colons(s) >= 1,
    ensures
        colon_index(s, 0) < s.len(),
    decreases s.len(),
{
    let p = s.drop_last();
    if s.last() != ':' {
        lemma_colons_found(p);
        lemma_colon_prefix(s, 0);
    } else {
        lemma_colon_prefix(s, 0);
    }
}

proof fn lemma_colon_prefix(s: Seq<char>, i: int)
    requires
        s.len() > 0,
        0 <= i <= s.len() - 1,
    ensures
        colon_index(s.drop_last(), i) < s.len() - 1 ==> colon_index(s, i) == colon_index(s.drop_last(), i),
        s.last() == ':' ==> colon_index(s, i) < s.len(),
    decreases s.len() - i,
{
    if i < s.len() - 1 && s[i] != ':' {
        lemma_colon_prefix(s, i + 1);
    }
}

/// The file name `filename` as errors report it under the setting
/// `A:B`: a leading `A` becomes `B`. A setting without exactly one colon
/// changes nothing.
pub fn elide_filename(filename: &str, setting: &str) -> (r: String)
    ensures
        r@ == elided(filename@, setting@),
{
    let f = chars_of(filename);
    let s = chars_of(setting);
    let mut count: usize = 0;
    let mut first: usize = s.len();
    let mut i: usize = 0;
    proof {
        assert(s@.subrange(0, 0) =~= Seq::<char>::empty());
    }
    while i < s.len()
        invariant
            i <= s@.len(),
            count == colons(s@.subrange(0, i as int)),
            count <= i,
            first == if count == 0 { s@.len() as int } else { colon_index(s@, 0) },
            count == 0 ==> forall|j: int| 0 <= j < i ==> s@[j] != ':',
            count > 0 ==> first < i,
        decreases s@.len() - i,
    {
        proof {
            assert(s@.subrange(0, i + 1).drop_last() =~= s@.subrange(0, i as int));
            if count == 0 {
                lemma_no_colon_before(s@, 0, i as int);
            }
        }
        if s[i] == ':' {
            if count == 0 {
                first = i;
            }
            count = count + 1;
        }
        i = i + 1;
    }
    proof {
        assert(s@.subrange(0, s@.len() as int) =~= s@);
        lemma_colon_index(s@, 0);
    }
    if count != 1 {
        return string_of(&f);
    }
    let a = slice_chars(&s, 0, first);
    let b = slice_chars(&s, first + 1, s.len());
    if a.len() > f.len() {
        return string_of(&f);
    }
    let head = slice_chars(&f, 0, a.len());
    if !chars_eq(&head, &a) {
        return string_of(&f);
    }
    let mut out = b;
    append_chars(&mut out, &slice_chars(&f, a.len(), f.len()));
    string_of(&out)
}

proof fn lemma_no_colon_before(s: Seq<char>, i: int, n: int)
    requires
        0 <= i <= n <= s.len(),
        forall|j: int| i <= j < n ==> s[j] != ':',
    ensures
        colon_index(s, i) == colon_index(s, n),
    decreases n - i,
{
    if i < n {
        lemma_no_colon_before(s, i + 1, n);
    }
}

} // verus!
