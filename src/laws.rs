//! Properties that hold across the parser's functions.
use vstd::prelude::*;
use crate::ast::{fmt_nodes, loc_of, view_asts, AST};
use crate::grouper::{block_of, group_from, indent, indent_end, BlockView, LineView};
use crate::parsers::{block_outcome, block_outcomes, statement};
use crate::chars::is_space;
use crate::scanner::{
    scan_step, unterminated,
    body_start, initial_scan_state, is_blank, newline_index, normalize_newlines, prepared, scan_all, scan_from,
    tab_index, ScanState,
};
use crate::{scan_lines, scenario};
use crate::ast::{fmt_node, quoted, Node};
use crate::literal::{
    collapse_spaces, decode_body, decode_unicode, drop_escapes, string_close, string_end, string_value,
    unescape_newlines,
};
use crate::parsers::{body_of, errs, kw, oks, say_stmt};
use crate::tokens::{keyword_at, word_end, ws_end};

verus! {

/// Whether the text does not start with a space.
pub open spec fn unindented(s: Seq<char>) -> bool {
    s.len() == 0 || s[0] != ' '
}

/// Whether no block of the tree `bs` has a text that starts with a space.
pub open spec fn tree_unindented(bs: Seq<BlockView>) -> bool
    decreases bs,
{
    bs.len() == 0 || (unindented(bs[0].text) && tree_unindented(bs[0].subblocks)
        && tree_unindented(bs.subrange(1, bs.len() as int)))
}

proof fn lemma_indent_end(s: Seq<char>, i: int)
    requires
        0 <= i <= s.len(),
    ensures
        i <= indent_end(s, i) <= s.len(),
        indent_end(s, i) < s.len() ==> s[indent_end(s, i)] != ' ',
    decreases s.len() - i,
{
    if i < s.len() && s[i] == ' ' {
        lemma_indent_end(s, i + 1);
    }
}

/// Grouping lines into blocks strips all indentation: the text of every
/// block in the tree starts with something other than a space.
pub proof fn law_blocks_unindented(lines: Seq<LineView>, i: int, above: Option<nat>, depth: Option<nat>)
    ensures
        group_from(lines, i, above, depth) matches Ok((bs, _)) ==> tree_unindented(bs),
    decreases lines.len() - i,
{
    if 0 <= i < lines.len() {
        let d = indent(lines[i].text);
        if !(above matches Some(a) && d <= a) && !(depth matches Some(sd) && sd != d) {
            law_blocks_unindented(lines, i + 1, Some(d), None);
            match group_from(lines, i + 1, Some(d), None) {
                Ok((children, j)) => {
                    if i < j <= lines.len() {
                        law_blocks_unindented(lines, j, above, Some(d));
                        match group_from(lines, j, above, Some(d)) {
                            Ok((siblings, k)) => {
                                let t = lines[i].text;
                                lemma_indent_end(t, 0);
                                let b = block_of(lines[i], children);
                                let all = seq![b] + siblings;
                                assert(all[0] == b);
                                assert(all.subrange(1, all.len() as int) =~= siblings);
                            },
                            Err(_) => {},
                        }
                    }
                },
                Err(_) => {},
            }
        }
    }
}

/// The lines that a group takes, from `i` up to the first line it leaves,
/// are all deeper than `a`. So every line in the block of a line is deeper
/// than that line.
pub proof fn law_children_deeper(lines: Seq<LineView>, i: int, a: nat, depth: Option<nat>)
    requires
        0 <= i,
    ensures
        group_from(lines, i, Some(a), depth) matches Ok((_, k)) ==> (i <= k && forall|j: int|
            i <= j < k ==> indent(#[trigger] lines[j].text) > a),
    decreases lines.len() - i,
{
    if 0 <= i < lines.len() {
        let d = indent(lines[i].text);
        if !(d <= a) && !(depth matches Some(sd) && sd != d) {
            law_children_deeper(lines, i + 1, d, None);
            match group_from(lines, i + 1, Some(d), None) {
                Ok((children, j)) => {
                    if i < j <= lines.len() {
                        law_children_deeper(lines, j, a, Some(d));
                    }
                },
                Err(_) => {},
            }
        }
    }
}

/// Every statement read from a block has that block's line number as its
/// location.
pub proof fn law_location_is_line(bs: Seq<BlockView>)
    ensures
        block_outcomes(bs).len() == bs.len(),
        forall|i: int| 0 <= i < bs.len() ==> (#[trigger] block_outcomes(bs)[i] matches Ok(n) ==> loc_of(n)
            == Some(bs[i].line_number)),
    decreases bs.len(),
{
    if bs.len() > 0 {
        law_location_is_line(bs.subrange(1, bs.len() as int));
        assert forall|i: int| 0 <= i < bs.len() implies (#[trigger] block_outcomes(bs)[i] matches Ok(n)
            ==> loc_of(n) == Some(bs[i].line_number)) by {
            if i == 0 {
                let b = bs[0];
                assert(block_outcomes(bs)[0] == block_outcome(b));
            } else {
                assert(block_outcomes(bs)[i] == block_outcomes(bs.subrange(1, bs.len() as int))[i - 1]);
                assert(bs.subrange(1, bs.len() as int)[i - 1] == bs[i]);
            }
        }
    }
}

/// Formatting depends on the statements alone: formatting equal statements
/// twice gives the same text.
pub proof fn law_format_stable(a: Seq<AST>, b: Seq<AST>)
    requires
        view_asts(a) == view_asts(b),
    ensures
        fmt_nodes(view_asts(a)) == fmt_nodes(view_asts(b)),
{
}

/// Whether `s` holds only blank lines and comments: whitespace other than
/// tabs, and comments from `#` to the end of their line. `in_comment` says
/// that `s` starts inside a comment.
pub open spec fn quiet(s: Seq<char>, in_comment: bool) -> bool
    decreases s.len(),
{
    if s.len() == 0 {
        true
    } else {
        let c = s[0];
        let rest = s.subrange(1, s.len() as int);
        if c == '\t' {
            false
        } else if in_comment {
            quiet(rest, c != '\n')
        } else if c == '#' {
            quiet(rest, true)
        } else if is_space(c) {
            quiet(rest, false)
        } else {
            false
        }
    }
}

proof fn lemma_quiet_normalized(s: Seq<char>, m: bool)
    requires
        quiet(s, m),
    ensures
        quiet(normalize_newlines(s), m),
    decreases s.len(),
{
    if s.len() == 0 {
    } else if s.len() >= 2 && s[0] == '\r' && s[1] == '\n' {
        let rest = s.subrange(2, s.len() as int);
        let s1 = s.subrange(1, s.len() as int);
        assert(s1.subrange(1, s1.len() as int) =~= rest);
        assert(s1[0] == '\n');
        assert(is_space('\r'));
        assert(quiet(s1, m));
        assert(quiet(rest, false));
        lemma_quiet_normalized(rest, false);
        let n = seq!['\n'] + normalize_newlines(rest);
        assert(n.subrange(1, n.len() as int) =~= normalize_newlines(rest));
    } else {
        let rest = s.subrange(1, s.len() as int);
        let m2 = if s[0] == '\t' { m } else if m { s[0] != '\n' } else if s[0] == '#' { true } else { false };
        lemma_quiet_normalized(rest, m2);
        let n = seq![s[0]] + normalize_newlines(rest);
        assert(n.subrange(1, n.len() as int) =~= normalize_newlines(rest));
    }
}

proof fn lemma_quiet_newlines(s: Seq<char>, m: bool)
    requires
        quiet(s, m),
    ensures
        quiet(s + seq!['\n', '\n'], m),
    decreases s.len(),
{
    let w = s + seq!['\n', '\n'];
    if s.len() == 0 {
        let w1 = w.subrange(1, 2);
        assert(w1 =~= seq!['\n']);
        assert(w1.subrange(1, 1) =~= Seq::<char>::empty());
        assert(w1[0] == '\n');
        assert(is_space('\n'));
        assert(quiet(w1.subrange(1, 1), false));
        assert(quiet(w1, false));
        assert(w[0] == '\n');
        assert(w.subrange(1, w.len() as int) =~= w1);
    } else {
        let rest = s.subrange(1, s.len() as int);
        assert(w.subrange(1, w.len() as int) =~= rest + seq!['\n', '\n']);
        let m2 = if m { s[0] != '\n' } else if s[0] == '#' { true } else { false };
        lemma_quiet_newlines(rest, m2);
    }
}

proof fn lemma_quiet_no_tab(cs: Seq<char>, p: int, m: bool)
    requires
        0 <= p <= cs.len(),
        quiet(cs.subrange(p, cs.len() as int), m),
    ensures
        tab_index(cs, p) == cs.len(),
    decreases cs.len() - p,
{
    if p < cs.len() {
        let s = cs.subrange(p, cs.len() as int);
        assert(s[0] == cs[p]);
        assert(s.subrange(1, s.len() as int) =~= cs.subrange(p + 1, cs.len() as int));
        let m2 = if m { cs[p] != '\n' } else if cs[p] == '#' { true } else { false };
        lemma_quiet_no_tab(cs, p + 1, m2);
    }
}

proof fn lemma_comment_skip(cs: Seq<char>, q: int)
    requires
        0 <= q <= cs.len(),
        quiet(cs.subrange(q, cs.len() as int), true),
    ensures
        quiet(cs.subrange(newline_index(cs, q), cs.len() as int), false),
        q <= newline_index(cs, q) <= cs.len(),
    decreases cs.len() - q,
{
    if q < cs.len() {
        let s = cs.subrange(q, cs.len() as int);
        assert(s[0] == cs[q]);
        assert(s.subrange(1, s.len() as int) =~= cs.subrange(q + 1, cs.len() as int));
        if cs[q] != '\n' {
            lemma_comment_skip(cs, q + 1);
        }
    } else {
        assert(cs.subrange(q, cs.len() as int) =~= Seq::<char>::empty());
    }
}

proof fn lemma_scan_quiet(cs: Seq<char>, p: int, st: ScanState)
    requires
        0 <= p <= cs.len(),
        quiet(cs.subrange(p, cs.len() as int), false),
        !st.in_string,
        st.depth == 0,
        is_blank(st.line),
    ensures
        scan_from(cs, p, st).lines == st.lines,
        !scan_from(cs, p, st).in_string,
        scan_from(cs, p, st).depth == 0,
    decreases cs.len() - p,
{
    if p < cs.len() {
        let s = cs.subrange(p, cs.len() as int);
        let c = cs[p];
        assert(s[0] == c);
        assert(s.subrange(1, s.len() as int) =~= cs.subrange(p + 1, cs.len() as int));
        if c == '#' {
            lemma_comment_skip(cs, p + 1);
            assert(newline_index(cs, p) == newline_index(cs, p + 1));
            lemma_scan_quiet(cs, newline_index(cs, p), st);
        } else if c == '\n' {
            let next = ScanState { line: seq![], start: st.number + 1, number: st.number + 1, ..st };
            assert(is_blank(next.line));
            lemma_scan_quiet(cs, p + 1, next);
        } else {
            let next = ScanState { line: st.line.push(c), ..st };
            assert(is_blank(next.line)) by {
                assert forall|i: int| 0 <= i < next.line.len() implies is_space(#[trigger] next.line[i]) by {
                    if i < st.line.len() {
                        assert(next.line[i] == st.line[i]);
                    }
                }
            }
            lemma_scan_quiet(cs, p + 1, next);
        }
    }
}

/// A script of blank lines and comments only, without tabs, parses to no
/// statements and no errors.
pub proof fn law_comments_only(text: Seq<char>, f: Seq<char>)
    requires
        quiet(text, false),
    ensures
        scenario(text, f) == Ok::<(Seq<crate::ast::Node>, Seq<Seq<char>>), (nat, Seq<char>)>((seq![], seq![])),
{
    lemma_quiet_normalized(text, false);
    lemma_quiet_newlines(normalize_newlines(text), false);
    let cs = prepared(text);
    assert(cs.subrange(0, cs.len() as int) =~= cs);
    lemma_quiet_no_tab(cs, 0, false);
    assert(cs.len() >= 2);
    assert(body_start(cs) == 0);
    let st0 = initial_scan_state();
    assert(is_blank(st0.line));
    lemma_scan_quiet(cs, 0, st0);
    let st = scan_all(cs);
    assert(scan_lines(st.lines, f) =~= Seq::<LineView>::empty());
    assert(block_outcomes(Seq::<BlockView>::empty()) =~= seq![]);
}

/// A script of whitespace only, without tabs, parses to no statements and
/// no errors.
pub proof fn law_whitespace_only(text: Seq<char>, f: Seq<char>)
    requires
        forall|i: int| 0 <= i < text.len() ==> is_space(#[trigger] text[i]) && text[i] != '\t',
    ensures
        scenario(text, f) == Ok::<(Seq<crate::ast::Node>, Seq<Seq<char>>), (nat, Seq<char>)>((seq![], seq![])),
{
    lemma_blank_quiet(text);
    law_comments_only(text, f);
}

proof fn lemma_blank_quiet(s: Seq<char>)
    requires
        forall|i: int| 0 <= i < s.len() ==> is_space(#[trigger] s[i]) && s[i] != '\t',
    ensures
        quiet(s, false),
    decreases s.len(),
{
    if s.len() > 0 {
        let rest = s.subrange(1, s.len() as int);
        assert forall|i: int| 0 <= i < rest.len() implies is_space(#[trigger] rest[i]) && rest[i] != '\t' by {
            assert(rest[i] == s[i + 1]);
        }
        assert(is_space(s[0]) && s[0] != '\t');
        lemma_blank_quiet(rest);
    }
}

/// Whether `s` holds neither a double quote nor a backslash.
pub open spec fn plain(s: Seq<char>) -> bool {
    forall|i: int| 0 <= i < s.len() ==> s[i] != '"' && s[i] != '\\'
}

proof fn lemma_plain_passes(s: Seq<char>, i: int)
    requires
        plain(s),
        0 <= i <= s.len(),
    ensures
        unescape_newlines(s, i) == s.subrange(i, s.len() as int),
        decode_unicode(s, i) == s.subrange(i, s.len() as int),
        drop_escapes(s, i) == s.subrange(i, s.len() as int),
    decreases s.len() - i,
{
    if i < s.len() {
        lemma_plain_passes(s, i + 1);
        assert(s.subrange(i, s.len() as int) =~= seq![s[i]] + s.subrange(i + 1, s.len() as int));
    } else {
        assert(s.subrange(i, s.len() as int) =~= Seq::<char>::empty());
    }
}

proof fn lemma_close_plain(t: Seq<char>, i: int)
    requires
        1 <= i <= t.len() - 1,
        t[t.len() - 1] == '"',
        plain(t.subrange(1, t.len() - 1)),
    ensures
        string_close(t, i, '"') == t.len(),
    decreases t.len() - i,
{
    if i < t.len() - 1 {
        assert(t.subrange(1, t.len() - 1)[i - 1] == t[i]);
        lemma_close_plain(t, i + 1);
    }
}

proof fn lemma_no_keyword_at_quote(t: Seq<char>, w: Seq<char>)
    requires
        t.len() > 0,
        t[0] == '"',
        w.len() > 0,
        w[0] != '"',
    ensures
        !kw(t, 0, w),
{
    lemma_other_first(t, w);
}

/// A keyword whose first character differs from the text's does not start it.
proof fn lemma_other_first(t: Seq<char>, w: Seq<char>)
    requires
        t.len() > 0,
        !is_space(t[0]),
        w.len() > 0,
        w[0] != t[0],
    ensures
        !kw(t, 0, w),
{
    assert(ws_end(t, 0) == 0);
    if 0 + w.len() <= t.len() {
        assert(t.subrange(0, w.len() as int)[0] == t[0]);
    }
}

proof fn lemma_keyword_starts(t: Seq<char>, w: Seq<char>)
    requires
        w.len() > 0,
        w.len() <= t.len(),
        t.subrange(0, w.len() as int) == w,
        !is_space(t[0]),
        crate::chars::is_word_char(w[w.len() - 1]),
        w.len() == t.len() || !crate::chars::is_word_char(t[w.len() as int]),
    ensures
        kw(t, 0, w),
{
    assert(ws_end(t, 0) == 0);
    assert(t[w.len() - 1] == t.subrange(0, w.len() as int)[w.len() - 1]);
}

proof fn lemma_reveal_keywords()
    ensures
        "return"@ =~= seq!['r', 'e', 't', 'u', 'r', 'n'],
        "jump"@ =~= seq!['j', 'u', 'm', 'p'],
        "scene"@ =~= seq!['s', 'c', 'e', 'n', 'e'],
        "game_mechanic"@ =~= seq!['g', 'a', 'm', 'e', '_', 'm', 'e', 'c', 'h', 'a', 'n', 'i', 'c'],
        "llm_generate"@ =~= seq!['l', 'l', 'm', '_', 'g', 'e', 'n', 'e', 'r', 'a', 't', 'e'],
        "show"@ =~= seq!['s', 'h', 'o', 'w'],
        "hide"@ =~= seq!['h', 'i', 'd', 'e'],
        "play"@ =~= seq!['p', 'l', 'a', 'y'],
        "stop"@ =~= seq!['s', 't', 'o', 'p'],
        "label"@ =~= seq!['l', 'a', 'b', 'e', 'l'],
        "define"@ =~= seq!['d', 'e', 'f', 'i', 'n', 'e'],
        "init"@ =~= seq!['i', 'n', 'i', 't'],
        "define "@ =~= seq!['d', 'e', 'f', 'i', 'n', 'e', ' '],
        "return "@ =~= seq!['r', 'e', 't', 'u', 'r', 'n', ' '],
{
    reveal_strlit("return");
    reveal_strlit("jump");
    reveal_strlit("scene");
    reveal_strlit("game_mechanic");
    reveal_strlit("llm_generate");
    reveal_strlit("show");
    reveal_strlit("hide");
    reveal_strlit("play");
    reveal_strlit("stop");
    reveal_strlit("label");
    reveal_strlit("define");
    reveal_strlit("init");
    reveal_strlit("define ");
    reveal_strlit("return ");
}

/// A dialogue line without a speaker reads back as itself once formatted,
/// when its text holds neither quotes nor backslashes and has no runs of
/// whitespace to collapse: reading the formatted line as a statement gives
/// the same statement.
#[verifier::rlimit(40)]
pub proof fn law_say_round_trip(what: Seq<char>, loc: nat, loc2: nat, body: Result<Seq<Node>, Seq<char>>)
    requires
        plain(what),
        collapse_spaces(what, 0, false) == what,
    ensures
        statement(fmt_node(Node::Say(loc, None, what)), 0, false, loc2, body) == Ok::<Node, Seq<char>>(Node::Say(loc2, None, what)),
{
    let t = fmt_node(Node::Say(loc, None, what));
    assert(t == quoted(what));
    assert(t.subrange(1, t.len() - 1) =~= what);
    assert(t[0] == '"');
    assert(t[t.len() - 1] == '"');
    reveal_strlit("return");
    reveal_strlit("jump");
    reveal_strlit("scene");
    reveal_strlit("game_mechanic");
    reveal_strlit("llm_generate");
    reveal_strlit("show");
    reveal_strlit("hide");
    reveal_strlit("play");
    reveal_strlit("stop");
    reveal_strlit("label");
    reveal_strlit("define");
    reveal_strlit("init");
    lemma_no_keyword_at_quote(t, "return"@);
    lemma_no_keyword_at_quote(t, "jump"@);
    lemma_no_keyword_at_quote(t, "scene"@);
    lemma_no_keyword_at_quote(t, "game_mechanic"@);
    lemma_no_keyword_at_quote(t, "llm_generate"@);
    lemma_no_keyword_at_quote(t, "show"@);
    lemma_no_keyword_at_quote(t, "hide"@);
    lemma_no_keyword_at_quote(t, "play"@);
    lemma_no_keyword_at_quote(t, "stop"@);
    lemma_no_keyword_at_quote(t, "label"@);
    lemma_no_keyword_at_quote(t, "define"@);
    lemma_no_keyword_at_quote(t, "init"@);
    assert(ws_end(t, 0) == 0);
    assert(word_end(t, 0) == 0);
    lemma_close_plain(t, 1);
    assert(string_end(t, 0) == t.len());
    assert(ws_end(t, t.len() as int) == t.len());
    lemma_plain_passes(what, 0);
    assert(what.subrange(0, what.len() as int) =~= what);
    assert(decode_body(what) == what);
    assert(string_value(t, 0, t.len() as int) == what);
    assert(say_stmt(t, 0, false, loc2) == Ok::<Node, Seq<char>>(Node::Say(loc2, None, what)));
}

/// A `define` statement reads back as itself once formatted, when its text
/// is empty or starts with something other than whitespace.
pub proof fn law_define_round_trip(d: Seq<char>, loc: nat, loc2: nat, has_sub: bool, body: Result<Seq<Node>, Seq<char>>)
    requires
        d.len() == 0 || !is_space(d[0]),
    ensures
        statement(fmt_node(Node::Define(loc, d)), 0, has_sub, loc2, body) == Ok::<Node, Seq<char>>(Node::Define(loc2, d)),
{
    let t = fmt_node(Node::Define(loc, d));
    lemma_reveal_keywords();
    assert(t == "define "@ + d);
    assert(t[0] == 'd');
    assert(t[6] == ' ');
    lemma_other_first(t, "return"@);
    lemma_other_first(t, "jump"@);
    lemma_other_first(t, "scene"@);
    lemma_other_first(t, "game_mechanic"@);
    lemma_other_first(t, "llm_generate"@);
    lemma_other_first(t, "show"@);
    lemma_other_first(t, "hide"@);
    lemma_other_first(t, "play"@);
    lemma_other_first(t, "stop"@);
    lemma_other_first(t, "label"@);
    assert(t.subrange(0, 6) =~= "define"@);
    lemma_keyword_starts(t, "define"@);
    assert(ws_end(t, 0) == 0);
    assert(ws_end(t, 7) == 7);
    assert(ws_end(t, 6) == 7);
    assert(t.subrange(7, t.len() as int) =~= d);
}

/// A `return` statement reads back as itself once formatted, when its
/// expression, if any, is not empty and starts with something other than
/// whitespace.
pub proof fn law_return_round_trip(e: Option<Seq<char>>, loc: nat, loc2: nat, body: Result<Seq<Node>, Seq<char>>)
    requires
        e matches Some(x) ==> x.len() > 0 && !is_space(x[0]),
    ensures
        statement(fmt_node(Node::Return(loc, e)), 0, false, loc2, body) == Ok::<Node, Seq<char>>(Node::Return(loc2, e)),
{
    let t = fmt_node(Node::Return(loc, e));
    lemma_reveal_keywords();
    assert(t.subrange(0, 6) =~= "return"@);
    assert(t[0] == 'r');
    lemma_keyword_starts(t, "return"@);
    assert(ws_end(t, 0) == 0);
    match e {
        Some(x) => {
            assert(t == "return "@ + x);
            assert(ws_end(t, 7) == 7);
            assert(ws_end(t, 6) == 7);
            assert(t.subrange(7, t.len() as int) =~= x);
        },
        None => {
            assert(t.len() == 6);
            assert(t.subrange(6, 6) =~= Seq::<char>::empty());
        },
    }
}

/// Dialogue text that reads back unchanged: no quotes, no backslashes, and
/// no whitespace but single spaces.
pub open spec fn spoken(w: Seq<char>) -> bool {
    &&& plain(w)
    &&& forall|i: int| 0 <= i < w.len() && is_space(#[trigger] w[i]) ==> w[i] == ' '
    &&& forall|i: int| 0 < i < w.len() && #[trigger] w[i] == ' ' ==> w[i - 1] != ' '
}

proof fn lemma_spoken_collapsed(w: Seq<char>, i: int)
    requires
        spoken(w),
        0 <= i <= w.len(),
    ensures
        collapse_spaces(w, i, i > 0 && w[i - 1] == ' ') == w.subrange(i, w.len() as int),
    decreases w.len() - i,
{
    if i < w.len() {
        lemma_spoken_collapsed(w, i + 1);
        assert(w.subrange(i, w.len() as int) =~= seq![w[i]] + w.subrange(i + 1, w.len() as int));
        if is_space(w[i]) {
            assert(w[i] == ' ');
        }
    } else {
        assert(w.subrange(i, w.len() as int) =~= Seq::<char>::empty());
    }
}

/// The dialogue lines `ws` without speaker, located from line `start` on.
pub open spec fn narration(ws: Seq<Seq<char>>, start: nat) -> Seq<Node> {
    Seq::new(ws.len(), |i: int| Node::Say((start + i) as nat, None, ws[i]))
}

proof fn lemma_fmt_narration(ws: Seq<Seq<char>>, a: nat)
    requires
        ws.len() >= 2,
    ensures
        fmt_nodes(narration(ws, a)) == quoted(ws[0]) + "\n"@ + fmt_nodes(narration(ws.subrange(1, ws.len() as int), a + 1)),
{
    let n = narration(ws, a);
    let m = narration(ws.subrange(1, ws.len() as int), a + 1);
    assert forall|i: int| 0 <= i < m.len() implies #[trigger] m[i] == n.subrange(1, n.len() as int)[i] by {
        assert(((a + 1) + i) as nat == (a + (i + 1)) as nat);
    }
    assert(n.subrange(1, n.len() as int) =~= m);
    assert(n[0] == Node::Say(a, None, ws[0]));
    assert(fmt_node(n[0]) == quoted(ws[0]));
}

proof fn lemma_norm_id(s: Seq<char>)
    requires
        forall|i: int| 0 <= i < s.len() ==> s[i] != '\r',
    ensures
        normalize_newlines(s) == s,
    decreases s.len(),
{
    if s.len() > 0 {
        let rest = s.subrange(1, s.len() as int);
        lemma_norm_id(rest);
        assert(s =~= seq![s[0]] + rest);
    }
}

/// The scanner stands at the start of a line, with nothing pending.
pub open spec fn fresh_line(st: ScanState) -> bool {
    &&& !st.in_string
    &&& !st.escaped
    &&& st.depth == 0
    &&& st.line == Seq::<char>::empty()
    &&& st.start == st.number
}

proof fn lemma_scan_string_body(cs: Seq<char>, p: int, e: int, st: ScanState)
    requires
        0 < p <= e < cs.len(),
        cs[e] == '"',
        forall|j: int| p <= j < e ==> cs[j] != '"' && cs[j] != '\\' && cs[j] != '\n',
        st.in_string,
        st.delim == '"',
        !st.escaped,
    ensures
        scan_from(cs, p, st) == scan_from(
            cs,
            e + 1,
            ScanState { in_string: false, line: st.line + cs.subrange(p, e + 1), ..st },
        ),
    decreases e - p,
{
    if p < e {
        let next = ScanState { line: st.line.push(cs[p]), ..st };
        assert(scan_step(cs, p, st) == (p + 1, next));
        lemma_scan_string_body(cs, p + 1, e, next);
        assert(next.line + cs.subrange(p + 1, e + 1) =~= st.line + cs.subrange(p, e + 1));
    } else {
        assert(st.line + cs.subrange(p, e + 1) =~= st.line.push('"'));
    }
}

/// The scanner state after the finished line `text` at physical line
/// `st.start`.
pub open spec fn after_line(st: ScanState, text: Seq<char>) -> ScanState {
    ScanState {
        in_string: false,
        delim: '"',
        escaped: false,
        line: seq![],
        depth: 0,
        start: st.number + 1,
        number: st.number + 1,
        lines: st.lines.push((st.start, text)),
    }
}

proof fn lemma_scan_line(cs: Seq<char>, p: int, w: Seq<char>, st: ScanState)
    requires
        0 <= p,
        p + w.len() + 3 <= cs.len(),
        cs.subrange(p, p + w.len() + 3) == quoted(w) + "\n"@,
        spoken(w),
        fresh_line(st),
    ensures
        scan_from(cs, p, st) == scan_from(cs, p + w.len() + 3, after_line(st, quoted(w))),
{
    reveal_strlit("\n");
    let n = w.len() as int;
    let seg = cs.subrange(p, p + n + 3);
    assert(seg[0] == '"');
    assert(cs[p] == '"');
    assert(cs[p + n + 1] == seg[n + 1]);
    assert(cs[p + n + 2] == seg[n + 2]);
    assert(cs[p + n + 1] == '"');
    assert(cs[p + n + 2] == '\n');
    assert forall|j: int| p + 1 <= j < p + n + 1 implies cs[j] != '"' && cs[j] != '\\' && cs[j] != '\n' by {
        assert(cs[j] == seg[j - p]);
        assert(seg[j - p] == w[j - p - 1]);
        if cs[j] == '\n' {
            assert(is_space(w[j - p - 1]));
        }
    }
    let opened = ScanState { in_string: true, delim: '"', escaped: false, line: st.line.push('"'), ..st };
    assert(scan_step(cs, p, st) == (p + 1, opened));
    lemma_scan_string_body(cs, p + 1, p + n + 1, opened);
    let closed = ScanState { in_string: false, line: opened.line + cs.subrange(p + 1, p + n + 2), ..opened };
    assert(cs.subrange(p + 1, p + n + 2) =~= w.push('"')) by {
        assert forall|j: int| 0 <= j < n + 1 implies #[trigger] cs.subrange(p + 1, p + n + 2)[j] == w.push('"')[j] by {
            assert(cs[p + 1 + j] == seg[1 + j]);
        }
    }
    assert(closed.line =~= quoted(w));
    assert(!is_blank(closed.line)) by {
        assert(closed.line[0] == '"');
    }
    assert(scan_step(cs, p + n + 2, closed) == (p + n + 3, after_line(st, quoted(w))));
}

/// The lines that the scanner finds in formatted narration `ws`, numbered
/// from `k` on.
pub open spec fn expected_lines(ws: Seq<Seq<char>>, k: nat) -> Seq<(nat, Seq<char>)> {
    Seq::new(ws.len(), |i: int| ((k + i) as nat, quoted(ws[i])))
}

#[verifier::rlimit(40)]
proof fn lemma_scan_narration(cs: Seq<char>, p: int, ws: Seq<Seq<char>>, a: nat, st: ScanState)
    requires
        fresh_line(st),
        ws.len() >= 1,
        forall|i: int| 0 <= i < ws.len() ==> spoken(#[trigger] ws[i]),
        0 <= p <= cs.len(),
        cs.subrange(p, cs.len() as int) == fmt_nodes(narration(ws, a)) + seq!['\n', '\n'],
    ensures
        scan_from(cs, p, st).lines == st.lines + expected_lines(ws, st.start),
        !unterminated(scan_from(cs, p, st)),
    decreases ws.len(),
{
    reveal_strlit("\n");
    let w = ws[0];
    let n = w.len() as int;
    assert(spoken(w));
    let nodes = narration(ws, a);
    assert(nodes[0] == Node::Say(a, None, w));
    let rest_cs = cs.subrange(p, cs.len() as int);
    if ws.len() == 1 {
        assert(fmt_nodes(nodes) == fmt_node(nodes[0]));
        assert(rest_cs =~= quoted(w) + seq!['\n', '\n']);
        assert(cs.subrange(p, p + n + 3) =~= quoted(w) + "\n"@) by {
            assert forall|j: int| 0 <= j < n + 3 implies #[trigger] cs.subrange(p, p + n + 3)[j] == (quoted(w) + "\n"@)[j] by {
                assert(cs[p + j] == rest_cs[j]);
            }
        }
        lemma_scan_line(cs, p, w, st);
        let st1 = after_line(st, quoted(w));
        assert(cs.len() == p + n + 4);
        assert(cs[p + n + 3] == rest_cs[n + 3]);
        assert(is_blank(st1.line));
        let st2 = ScanState { line: seq![], start: st1.number + 1, number: st1.number + 1, ..st1 };
        assert(scan_step(cs, p + n + 3, st1) == (p + n + 4, st2));
        assert(scan_from(cs, p + n + 4, st2) == st2);
        assert(st.lines.push((st.start, quoted(w))) =~= st.lines + expected_lines(ws, st.start));
    } else {
        lemma_fmt_narration(ws, a);
        let rest = ws.subrange(1, ws.len() as int);
        let tail = fmt_nodes(narration(rest, a + 1));
        assert(rest_cs =~= quoted(w) + "\n"@ + tail + seq!['\n', '\n']);
        assert(cs.subrange(p, p + n + 3) =~= quoted(w) + "\n"@) by {
            assert forall|j: int| 0 <= j < n + 3 implies #[trigger] cs.subrange(p, p + n + 3)[j] == (quoted(w) + "\n"@)[j] by {
                assert(cs[p + j] == rest_cs[j]);
            }
        }
        lemma_scan_line(cs, p, w, st);
        let st1 = after_line(st, quoted(w));
        assert(cs.subrange(p + n + 3, cs.len() as int) =~= tail + seq!['\n', '\n']) by {
            assert forall|j: int| 0 <= j < cs.len() - (p + n + 3) implies #[trigger] cs.subrange(p + n + 3, cs.len() as int)[j] == (tail + seq!['\n', '\n'])[j] by {
                assert(cs[p + n + 3 + j] == rest_cs[n + 3 + j]);
            }
        }
        assert forall|i: int| 0 <= i < rest.len() implies spoken(#[trigger] rest[i]) by {
            assert(rest[i] == ws[i + 1]);
        }
        lemma_scan_narration(cs, p + n + 3, rest, a + 1, st1);
        assert(st1.lines + expected_lines(rest, st1.start) =~= st.lines + expected_lines(ws, st.start));
    }
}

proof fn lemma_outcomes_index(bs: Seq<BlockView>, i: int)
    requires
        0 <= i < bs.len(),
    ensures
        block_outcomes(bs).len() == bs.len(),
        block_outcomes(bs)[i] == block_outcome(bs[i]),
    decreases bs.len(),
{
    law_location_is_line(bs);
    if i > 0 {
        lemma_outcomes_index(bs.subrange(1, bs.len() as int), i - 1);
    }
}

proof fn lemma_all_ok(outs: Seq<Result<Node, Seq<char>>>, nodes: Seq<Node>)
    requires
        outs.len() == nodes.len(),
        forall|i: int| 0 <= i < outs.len() ==> #[trigger] outs[i] == Ok::<Node, Seq<char>>(nodes[i]),
    ensures
        oks(outs) == nodes,
        errs(outs) == Seq::<Seq<char>>::empty(),
    decreases outs.len(),
{
    if outs.len() > 0 {
        let o = outs.drop_last();
        let m = nodes.drop_last();
        assert forall|i: int| 0 <= i < o.len() implies #[trigger] o[i] == Ok::<Node, Seq<char>>(m[i]) by {
            assert(o[i] == outs[i]);
        }
        lemma_all_ok(o, m);
        assert(outs.last() == Ok::<Node, Seq<char>>(nodes.last()));
        assert(m.push(nodes.last()) =~= nodes);
    }
}

/// The blocks of unindented lines without children, from `i` on.
pub open spec fn flat_blocks(lines: Seq<LineView>, i: int) -> Seq<BlockView> {
    Seq::new((lines.len() - i) as nat, |k: int| block_of(lines[i + k], seq![]))
}

proof fn lemma_group_flat(lines: Seq<LineView>, i: int, depth: Option<nat>)
    requires
        0 <= i <= lines.len(),
        forall|k: int| 0 <= k < lines.len() ==> indent(#[trigger] lines[k].text) == 0,
        depth is None || depth == Some(0nat),
    ensures
        group_from(lines, i, None, depth) == Ok::<(Seq<BlockView>, int), int>((flat_blocks(lines, i), lines.len() as int)),
    decreases lines.len() - i,
{
    if i < lines.len() {
        if i + 1 < lines.len() {
            assert(indent(lines[i + 1].text) == 0);
        }
        assert(group_from(lines, i + 1, Some(0), None) == Ok::<(Seq<BlockView>, int), int>((seq![], i + 1)));
        lemma_group_flat(lines, i + 1, Some(0));
        assert(seq![block_of(lines[i], seq![])] + flat_blocks(lines, i + 1) =~= flat_blocks(lines, i));
    } else {
        assert(flat_blocks(lines, i) =~= Seq::<BlockView>::empty());
    }
}

proof fn lemma_narration_chars(ws: Seq<Seq<char>>, a: nat, i: int)
    requires
        ws.len() >= 1,
        forall|k: int| 0 <= k < ws.len() ==> spoken(#[trigger] ws[k]),
        0 <= i < fmt_nodes(narration(ws, a)).len(),
    ensures
        fmt_nodes(narration(ws, a))[i] != '\r',
        fmt_nodes(narration(ws, a))[i] != '\t',
    decreases ws.len(),
{
    reveal_strlit("\n");
    let w = ws[0];
    assert(spoken(w));
    let nodes = narration(ws, a);
    assert(nodes[0] == Node::Say(a, None, w));
    let q = quoted(w);
    assert forall|j: int| 0 <= j < q.len() implies q[j] != '\r' && q[j] != '\t' by {
        if 0 < j < q.len() - 1 {
            assert(q[j] == w[j - 1]);
            assert(is_space('\r'));
            assert(is_space('\t'));
        }
    }
    if ws.len() == 1 {
        assert(fmt_nodes(nodes) == fmt_node(nodes[0]));
        assert(fmt_nodes(nodes) == q);
    } else {
        lemma_fmt_narration(ws, a);
        let rest = ws.subrange(1, ws.len() as int);
        if i > q.len() {
            assert forall|k: int| 0 <= k < rest.len() implies spoken(#[trigger] rest[k]) by {
                assert(rest[k] == ws[k + 1]);
            }
            lemma_narration_chars(rest, a + 1, i - q.len() - 1);
        }
    }
}

proof fn lemma_narration_first(ws: Seq<Seq<char>>, a: nat)
    requires
        ws.len() >= 1,
    ensures
        fmt_nodes(narration(ws, a)).len() > 0,
        fmt_nodes(narration(ws, a))[0] == '"',
{
    let nodes = narration(ws, a);
    assert(nodes[0] == Node::Say(a, None, ws[0]));
    if ws.len() == 1 {
        assert(fmt_nodes(nodes) == fmt_node(nodes[0]));
        assert(fmt_nodes(nodes) == quoted(ws[0]));
    } else {
        lemma_fmt_narration(ws, a);
    }
}

proof fn lemma_tab_free(cs: Seq<char>, p: int)
    requires
        0 <= p <= cs.len(),
        forall|i: int| 0 <= i < cs.len() ==> cs[i] != '\t',
    ensures
        tab_index(cs, p) == cs.len(),
    decreases cs.len() - p,
{
    if p < cs.len() {
        lemma_tab_free(cs, p + 1);
    }
}

/// Narration that the formatter prints reads back as the same statements:
/// for dialogue lines without a speaker whose texts hold no quotes, no
/// backslashes and no whitespace but single spaces, parsing the formatted
/// script gives them back, on lines one, two, and so on.
#[verifier::rlimit(40)]
pub proof fn law_narration_round_trip(ws: Seq<Seq<char>>, a: nat, f: Seq<char>)
    requires
        ws.len() >= 1,
        forall|i: int| 0 <= i < ws.len() ==> spoken(#[trigger] ws[i]),
    ensures
        scenario(fmt_nodes(narration(ws, a)), f) == Ok::<(Seq<Node>, Seq<Seq<char>>), (nat, Seq<char>)>((narration(ws, 1), seq![])),
{
    let text = fmt_nodes(narration(ws, a));
    assert forall|i: int| 0 <= i < text.len() implies text[i] != '\r' && text[i] != '\t' by {
        lemma_narration_chars(ws, a, i);
    }
    lemma_norm_id(text);
    let cs = prepared(text);
    assert(cs == text + seq!['\n', '\n']);
    lemma_tab_free(cs, 0);
    lemma_narration_first(ws, a);
    assert(body_start(cs) == 0);
    let st0 = initial_scan_state();
    assert(cs.subrange(0, cs.len() as int) =~= cs);
    lemma_scan_narration(cs, 0, ws, a, st0);
    let st = scan_all(cs);
    let lines = scan_lines(st.lines, f);
    assert(st.lines =~= expected_lines(ws, 1));
    assert forall|k: int| 0 <= k < lines.len() implies indent(#[trigger] lines[k].text) == 0 by {
        assert(lines[k].text == quoted(ws[k]));
        assert(quoted(ws[k])[0] == '"');
    }
    lemma_group_flat(lines, 0, None);
    let bs = flat_blocks(lines, 0);
    assert forall|i: int| 0 <= i < bs.len() implies #[trigger] block_outcomes(bs)[i]
        == Ok::<Node, Seq<char>>(narration(ws, 1)[i]) by {
        lemma_outcomes_index(bs, i);
        let w = ws[i];
        assert(spoken(w));
        lemma_spoken_collapsed(w, 0);
        assert(w.subrange(0, w.len() as int) =~= w);
        assert(bs[i].text =~= quoted(w));
        assert(block_outcomes(Seq::<BlockView>::empty()) =~= Seq::<Result<Node, Seq<char>>>::empty());
        law_say_round_trip(w, 0, (1 + i) as nat, body_of(block_outcomes(bs[i].subblocks)));
        assert(fmt_node(Node::Say(0, None, w)) == quoted(w));
    }
    lemma_outcomes_index(bs, 0);
    lemma_all_ok(block_outcomes(bs), narration(ws, 1));
}

} // verus!
