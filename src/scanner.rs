//! The first pass: splitting source text into logical lines.
//!
//! A logical line is one statement's worth of text. Brackets and
//! backslash-newline join physical lines, strings may span lines, comments
//! are dropped and blank lines are skipped.
use vstd::prelude::*;
use crate::chars::{chars_of, is_space, space_char, string_of};
use crate::error::ParseError;

verus! {

/// One logical line of a script, with its leading indentation.
#[derive(Debug, Clone)]
pub struct LogicalLine {
    pub filename: String,
    pub line_number: usize,
    pub text: String,
}

/// The text with every `\r\n` replaced by `\n`.
pub open spec fn normalize_newlines(s: Seq<char>) -> Seq<char>
    decreases s.len(),
{
    if s.len() == 0 {
        s
    } else if s.len() >= 2 && s[0] == '\r' && s[1] == '\n' {
        seq!['\n'] + normalize_newlines(s.subrange(2, s.len() as int))
    } else {
        seq![s[0]] + normalize_newlines(s.subrange(1, s.len() as int))
    }
}

/// What the scanner reads: the normalized text followed by two newlines.
pub open spec fn prepared(s: Seq<char>) -> Seq<char> {
    normalize_newlines(s) + seq!['\n', '\n']
}

/// Where scanning starts: past a leading byte-order mark, if there is one.
pub open spec fn body_start(cs: Seq<char>) -> int {
    if cs.len() > 0 && cs[0] == '\u{feff}' { 1 } else { 0 }
}

/// The number of newlines in `s`.
pub open spec fn count_newlines(s: Seq<char>) -> nat
    decreases s.len(),
{
    if s.len() == 0 {
        0
    } else {
        count_newlines(s.drop_last()) + if s.last() == '\n' { 1nat } else { 0nat }
    }
}

/// The index of the first tab at or after `p`, or the length if there is none.
pub open spec fn tab_index(cs: Seq<char>, p: int) -> int
    decreases cs.len() - p,
{
    if p < 0 || p >= cs.len() {
        cs.len() as int
    } else if cs[p] == '\t' {
        p
    } else {
        tab_index(cs, p + 1)
    }
}

/// The index of the first newline at or after `p`, or the length if there is none.
pub open spec fn newline_index(cs: Seq<char>, p: int) -> int
    decreases cs.len() - p,
{
    if p < 0 || p >= cs.len() {
        cs.len() as int
    } else if cs[p] == '\n' {
        p
    } else {
        newline_index(cs, p + 1)
    }
}

pub open spec fn is_blank(s: Seq<char>) -> bool {
    forall|i: int| 0 <= i < s.len() ==> is_space(#[trigger] s[i])
}

pub open spec fn is_quote(c: char) -> bool {
    c == '"' || c == '\'' || c == '`'
}

pub open spec fn is_open_bracket(c: char) -> bool {
    c == '(' || c == '[' || c == '{'
}

pub open spec fn is_close_bracket(c: char) -> bool {
    c == ')' || c == ']' || c == '}'
}

/// The scanner's state between two characters.
pub struct ScanState {
    /// Inside a string literal.
    pub in_string: bool,
    /// The quote that closes the current string.
    pub delim: char,
    /// The previous character inside the string was a backslash.
    pub escaped: bool,
    /// The logical line built so far.
    pub line: Seq<char>,
    /// Open brackets not yet closed.
    pub depth: nat,
    /// The physical line on which the current logical line started.
    pub start: nat,
    /// The current physical line.
    pub number: nat,
    /// The finished logical lines: line number and text.
    pub lines: Seq<(nat, Seq<char>)>,
}

pub open spec fn initial_scan_state() -> ScanState {
    ScanState {
        in_string: false,
        delim: ' ',
        escaped: false,
        line: seq![],
        depth: 0,
        start: 1,
        number: 1,
        lines: seq![],
    }
}

/// One step of the scanner at position `p`: the next position and state.
pub open spec fn scan_step(cs: Seq<char>, p: int, st: ScanState) -> (int, ScanState) {
    let c = cs[p];
    if st.in_string {
        let number = if c == '\n' { st.number + 1 } else { st.number };
        let line = st.line.push(c);
        if st.escaped {
            (p + 1, ScanState { escaped: false, line, number, ..st })
        } else if c == st.delim {
            (p + 1, ScanState { in_string: false, line, number, ..st })
        } else if c == '\\' {
            (p + 1, ScanState { escaped: true, line, number, ..st })
        } else {
            (p + 1, ScanState { line, number, ..st })
        }
    } else if c == '\n' {
        if st.depth == 0 {
            let lines = if is_blank(st.line) {
                st.lines
            } else {
                st.lines.push((st.start, st.line))
            };
            (p + 1, ScanState { line: seq![], start: st.number + 1, number: st.number + 1, lines, ..st })
        } else {
            (p + 1, ScanState { line: st.line.push('\n'), number: st.number + 1, ..st })
        }
    } else if c == '\\' && p + 1 < cs.len() && cs[p + 1] == '\n' {
        (p + 2, ScanState { line: st.line.push('\n'), number: st.number + 1, ..st })
    } else if c == '#' {
        (newline_index(cs, p), st)
    } else if is_quote(c) {
        (p + 1, ScanState { in_string: true, delim: c, escaped: false, line: st.line.push(c), ..st })
    } else if is_open_bracket(c) {
        (p + 1, ScanState { depth: st.depth + 1, line: st.line.push(c), ..st })
    } else if is_close_bracket(c) {
        let depth = if st.depth > 0 { (st.depth - 1) as nat } else { 0 };
        (p + 1, ScanState { depth, line: st.line.push(c), ..st })
    } else {
        (p + 1, ScanState { line: st.line.push(c), ..st })
    }
}

/// The scanner's state once it has read everything from `p` on.
pub open spec fn scan_from(cs: Seq<char>, p: int, st: ScanState) -> ScanState
    decreases cs.len() - p,
{
    if p < 0 || p >= cs.len() {
        st
    } else {
        let (q, next) = scan_step(cs, p, st);
        if q <= p || q > cs.len() {
            next
        } else {
            scan_from(cs, q, next)
        }
    }
}

/// The scanner's final state on the prepared text `cs`.
pub open spec fn scan_all(cs: Seq<char>) -> ScanState {
    scan_from(cs, body_start(cs), initial_scan_state())
}

/// The text ended inside a string or inside brackets.
pub open spec fn unterminated(st: ScanState) -> bool {
    st.in_string || st.depth > 0
}

/// Exec lines that hold the spec lines `s`, each with file name `f`.
pub open spec fn lines_agree(v: Seq<LogicalLine>, s: Seq<(nat, Seq<char>)>, f: Seq<char>) -> bool {
    v.len() == s.len() && forall|i: int|
        0 <= i < v.len() ==> {
            &&& (#[trigger] v[i]).filename@ == f
            &&& v[i].line_number as nat == s[i].0
            &&& v[i].text@ == s[i].1
        }
}


/// The characters of `data` with every `\r\n` replaced by `\n`, followed by
/// two newlines.
fn prepare(data: &[char]) -> (r: Vec<char>)
    requires
        data@.len() + 2 <= usize::MAX,
    ensures
        r@ == prepared(data@),
        r@.len() <= data@.len() + 2,
{
    let mut r: Vec<char> = Vec::new();
    let n = data.len();
    let mut i: usize = 0;
    proof {
        assert(data@.subrange(0, n as int) =~= data@);
    }
    while i < n
        invariant
            n == data@.len(),
            i <= n,
            r@.len() <= i,
            r@ + normalize_newlines(data@.subrange(i as int, n as int)) == normalize_newlines(data@),
        decreases n - i,
    {
        let ghost rest = data@.subrange(i as int, n as int);
        if i + 1 < n && data[i] == '\r' && data[i + 1] == '\n' {
            proof {
                assert(rest.subrange(2, rest.len() as int) =~= data@.subrange(i + 2, n as int));
                assert(r@.push('\n') + normalize_newlines(data@.subrange(i + 2, n as int))
                    =~= r@ + normalize_newlines(rest));
            }
            r.push('\n');
            i = i + 2;
        } else {
            proof {
                assert(rest.subrange(1, rest.len() as int) =~= data@.subrange(i + 1, n as int));
                assert(r@.push(data@[i as int]) + normalize_newlines(data@.subrange(i + 1, n as int))
                    =~= r@ + normalize_newlines(rest));
            }
            r.push(data[i]);
            i = i + 1;
        }
    }
    proof {
        assert(data@.subrange(n as int, n as int) =~= Seq::<char>::empty());
        assert(r@ =~= normalize_newlines(data@));
    }
    r.push('\n');
    r.push('\n');
    r
}

/// The index of the first tab in `cs`, or its length if there is none.
fn find_tab(cs: &[char]) -> (r: usize)
    ensures
        r == tab_index(cs@, 0),
{
    let mut i: usize = 0;
    while i < cs.len()
        invariant
            i <= cs@.len(),
            tab_index(cs@, i as int) == tab_index(cs@, 0),
        decreases cs@.len() - i,
    {
        if cs[i] == '\t' {
            return i;
        }
        i = i + 1;
    }
    i
}

/// The number of newlines among the first `end` characters.
fn newlines_before(cs: &[char], end: usize) -> (r: usize)
    requires
        end <= cs@.len(),
    ensures
        r == count_newlines(cs@.subrange(0, end as int)),
        r <= end,
{
    let mut i: usize = 0;
    let mut k: usize = 0;
    while i < end
        invariant
            i <= end <= cs@.len(),
            k == count_newlines(cs@.subrange(0, i as int)),
            k <= i,
        decreases end - i,
    {
        proof {
            assert(cs@.subrange(0, i + 1).drop_last() =~= cs@.subrange(0, i as int));
        }
        if cs[i] == '\n' {
            k = k + 1;
        }
        i = i + 1;
    }
    k
}

fn blank(s: &[char]) -> (r: bool)
    ensures
        r == is_blank(s@),
{
    let mut i: usize = 0;
    while i < s.len()
        invariant
            i <= s@.len(),
            forall|j: int| 0 <= j < i ==> is_space(#[trigger] s@[j]),
        decreases s@.len() - i,
    {
        if !space_char(s[i]) {
            return false;
        }
        i = i + 1;
    }
    true
}

/// The scanner state that the exec variables stand for.
pub open spec fn state_of(
    in_string: bool,
    delim: char,
    escaped: bool,
    line: Seq<char>,
    depth: usize,
    start: usize,
    number: usize,
    lines: Seq<(nat, Seq<char>)>,
) -> ScanState {
    ScanState {
        in_string,
        delim,
        escaped,
        line,
        depth: depth as nat,
        start: start as nat,
        number: number as nat,
        lines,
    }
}

pub open spec fn tab_message() -> Seq<char> {
    "Tab characters are not allowed in Ren'Py scripts"@
}

pub open spec fn unterminated_message() -> Seq<char> {
    "is not terminated with a newline (check quotes and parenthesis)"@
}

/// Splits `data` into logical lines, each labelled with `filename`.
///
/// A tab anywhere in the text is an error on the tab's line. Text that ends
/// inside a string or inside brackets is an error on the line where the
/// unfinished logical line started. Otherwise the lines are those that the
/// scanner collects, in order.
pub fn parse_logical_lines(data: String, filename: String) -> (r: Result<Vec<LogicalLine>, ParseError>)
    requires
        data@.len() + 3 <= usize::MAX,
    ensures
        ({
            let cs = prepared(data@);
            let t = tab_index(cs, 0);
            let st = scan_all(cs);
            &&& t < cs.len() ==> (r matches Err(e) && e.filename@ == filename@
                && e.line_number == 1 + count_newlines(cs.subrange(0, t))
                && e.message@ == tab_message())
            &&& t >= cs.len() && unterminated(st) ==> (r matches Err(e) && e.filename@ == filename@
                && e.line_number == st.start && e.message@ == unterminated_message())
            &&& t >= cs.len() && !unterminated(st) ==> (r matches Ok(v) && lines_agree(v@, st.lines, filename@))
        }),
{
    let raw = chars_of(data.as_str());
    let cs = prepare(&raw);
    let n = cs.len();
    let t = find_tab(&cs);
    if t < n {
        let k = newlines_before(&cs, t);
        let msg = chars_of("Tab characters are not allowed in Ren'Py scripts");
        return Err(ParseError::new(filename, k + 1, string_of(&msg), None, Some(t)));
    }
    let mut pos: usize = if n > 0 && cs[0] == '\u{feff}' { 1 } else { 0 };
    let mut in_string = false;
    let mut delim = ' ';
    let mut escaped = false;
    let mut line: Vec<char> = Vec::new();
    let mut depth: usize = 0;
    let mut start: usize = 1;
    let mut number: usize = 1;
    let mut rv: Vec<LogicalLine> = Vec::new();
    let ghost mut lines: Seq<(nat, Seq<char>)> = seq![];
    while pos < n
        invariant
            n == cs@.len(),
            cs@ == prepared(data@),
            n <= data@.len() + 2,
            data@.len() + 3 <= usize::MAX,
            pos <= n,
            number <= pos + 1,
            start <= number,
            depth <= pos,
            scan_from(cs@, pos as int, state_of(in_string, delim, escaped, line@, depth, start, number, lines))
                == scan_all(cs@),
            lines_agree(rv@, lines, filename@),
        decreases n - pos,
    {
        let ghost before = state_of(in_string, delim, escaped, line@, depth, start, number, lines);
        let ghost p0 = pos as int;
        let c = cs[pos];
        if in_string {
            if c == '\n' {
                number = number + 1;
            }
            line.push(c);
            if escaped {
                escaped = false;
            } else if c == delim {
                in_string = false;
            } else if c == '\\' {
                escaped = true;
            }
            pos = pos + 1;
        } else if c == '\n' {
            number = number + 1;
            if depth == 0 {
                if !blank(&line) {
                    rv.push(LogicalLine { filename: filename.clone(), line_number: start, text: string_of(&line) });
                    proof {
                        lines = lines.push((start as nat, line@));
                    }
                }
                line = Vec::new();
                start = number;
            } else {
                line.push('\n');
            }
            pos = pos + 1;
        } else if c == '\\' && pos + 1 < n && cs[pos + 1] == '\n' {
            line.push('\n');
            number = number + 1;
            pos = pos + 2;
        } else if c == '#' {
            let mut j: usize = pos;
            while j < n && cs[j] != '\n'
                invariant
                    pos <= j <= n,
                    n == cs@.len(),
                    newline_index(cs@, j as int) == newline_index(cs@, pos as int),
                decreases n - j,
            {
                j = j + 1;
            }
            pos = j;
        } else if c == '"' || c == '\'' || c == '`' {
            in_string = true;
            delim = c;
            escaped = false;
            line.push(c);
            pos = pos + 1;
        } else if c == '(' || c == '[' || c == '{' {
            depth = depth + 1;
            line.push(c);
            pos = pos + 1;
        } else if c == ')' || c == ']' || c == '}' {
            if depth > 0 {
                depth = depth - 1;
            }
            line.push(c);
            pos = pos + 1;
        } else {
            line.push(c);
            pos = pos + 1;
        }
        proof {
            let after = state_of(in_string, delim, escaped, line@, depth, start, number, lines);
            assert(scan_step(cs@, p0, before) == (pos as int, after));
        }
    }
    let ghost fin = state_of(in_string, delim, escaped, line@, depth, start, number, lines);
    assert(scan_from(cs@, pos as int, fin) == fin);
    if in_string || depth > 0 {
        let msg = chars_of("is not terminated with a newline (check quotes and parenthesis)");
        return Err(ParseError::new(filename, start, string_of(&msg), None, Some(pos)));
    }
    Ok(rv)
}

} // verus!
