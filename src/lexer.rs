//! The third pass's cursor: a position in the text of one block among its
//! siblings, with the token primitives of the statement grammar.
use vstd::prelude::*;
pub use crate::grouper::Block;
use crate::chars::{append_chars, chars_eq, chars_of, is_space, is_word_char, slice_chars, space_char, string_of, word_char};
use crate::error::ParseError;
use crate::tokens::{ws_end, word_end, name_end, integer_end, float_end, keyword_at, skip_spaces, match_word, match_name, match_integer, match_float, keyword_matches, skip_digits, digits_end};
use crate::literal::{string_end, string_value, match_string, string_value_exec};
use crate::grouper::{copy_blocks, lemma_view_blocks_index, lemma_view_blocks_len, view_blocks, BlockView};

verus! {

/// A cursor over a sequence of sibling blocks.
pub struct Lexer {
    block: Vec<Block>,
    init: bool,
    eob: bool,
    next: usize,
    filename: String,
    line_number: usize,
    text: Vec<char>,
    subblock: Vec<Block>,
    pos: usize,
}

/// A lexer's state as mathematical values.
pub struct LexerView {
    /// The sibling blocks that the cursor walks.
    pub blocks: Seq<BlockView>,
    /// Whether the cursor is inside an `init` context.
    pub init: bool,
    /// Whether the cursor has moved past the last block.
    pub eob: bool,
    /// The index of the block that `advance` loads next.
    pub next: nat,
    pub filename: Seq<char>,
    pub line_number: nat,
    /// The text of the current block.
    pub text: Seq<char>,
    /// The children of the current block.
    pub subblocks: Seq<BlockView>,
    /// The position in `text`, counted in characters.
    pub pos: nat,
}

impl View for Lexer {
    type V = LexerView;

    closed spec fn view(&self) -> LexerView {
        LexerView {
            blocks: view_blocks(self.block@),
            init: self.init,
            eob: self.eob,
            next: self.next as nat,
            filename: self.filename@,
            line_number: self.line_number as nat,
            text: self.text@,
            subblocks: view_blocks(self.subblock@),
            pos: self.pos as nat,
        }
    }
}

/// A snapshot of the position inside the current line.
pub struct LexerState {
    filename: String,
    line_number: usize,
    text: Vec<char>,
    subblock: Vec<Block>,
    pos: usize,
}

/// What a snapshot restores, as mathematical values.
pub struct CursorView {
    pub filename: Seq<char>,
    pub line_number: nat,
    pub text: Seq<char>,
    pub subblocks: Seq<BlockView>,
    pub pos: nat,
}

impl View for LexerState {
    type V = CursorView;

    closed spec fn view(&self) -> CursorView {
        CursorView {
            filename: self.filename@,
            line_number: self.line_number as nat,
            text: self.text@,
            subblocks: view_blocks(self.subblock@),
            pos: self.pos as nat,
        }
    }
}

/// A well-formed lexer: its position lies within its text and it has not
/// walked further than one past the last block.
pub open spec fn lexer_wf(v: LexerView) -> bool {
    &&& v.pos <= v.text.len()
    &&& v.next <= v.blocks.len()
    &&& v.eob ==> v.next == v.blocks.len()
}

/// The lexer state right after construction.
pub open spec fn fresh(blocks: Seq<BlockView>, init: bool) -> LexerView {
    LexerView {
        blocks,
        init,
        eob: false,
        next: 0,
        filename: seq![],
        line_number: 0,
        text: seq![],
        subblocks: seq![],
        pos: 0,
    }
}

/// The lexer state after `advance`.
pub open spec fn advanced(v: LexerView) -> LexerView {
    if v.next >= v.blocks.len() {
        LexerView { eob: true, ..v }
    } else {
        let b = v.blocks[v.next as int];
        LexerView {
            next: v.next + 1,
            filename: b.filename,
            line_number: b.line_number,
            text: b.text,
            subblocks: b.subblocks,
            pos: 0,
            ..v
        }
    }
}

pub open spec fn cursor_of(v: LexerView) -> CursorView {
    CursorView {
        filename: v.filename,
        line_number: v.line_number,
        text: v.text,
        subblocks: v.subblocks,
        pos: v.pos,
    }
}

impl Lexer {
    pub closed spec fn wf(&self) -> bool {
        lexer_wf(self@)
    }

    pub proof fn lemma_wf(&self)
        ensures
            self.wf() == lexer_wf(self@),
    {
    }

    /// A cursor over `block`, placed before the first block.
    pub fn new(block: Vec<Block>, init: bool) -> (r: Lexer)
        ensures
            r@ == fresh(view_blocks(block@), init),
            r.wf(),
    {
        let r = Lexer {
            block,
            init,
            eob: false,
            next: 0,
            filename: String::new(),
            line_number: 0,
            text: Vec::new(),
            subblock: Vec::new(),
            pos: 0,
        };
        proof {
            assert(view_blocks(r.subblock@) =~= Seq::<BlockView>::empty());
            assert(r@ =~= fresh(view_blocks(block@), init));
        }
        r
    }

    /// Whether the cursor has moved past the last block.
    pub fn eob(&self) -> (r: bool)
        ensures
            r == self@.eob,
    {
        self.eob
    }

    /// The text of the current block.
    pub fn text(&self) -> (r: String)
        ensures
            r@ == self@.text,
    {
        string_of(&self.text)
    }

    /// The position in the current text, counted in characters.
    pub fn pos(&self) -> (r: usize)
        ensures
            r == self@.pos,
    {
        self.pos
    }

    /// The line number of the current block.
    pub fn get_location(&self) -> (r: usize)
        ensures
            r == self@.line_number,
    {
        self.line_number
    }

    /// Moves to the next block, or past the last one. Returns whether there
    /// was a block to move to.
    pub fn advance(&mut self) -> (r: bool)
        requires
            old(self).wf(),
        ensures
            final(self).wf(),
            final(self)@ == advanced(old(self)@),
            r == (old(self)@.next < old(self)@.blocks.len()),
    {
        if self.next >= self.block.len() {
            self.eob = true;
            proof {
                lemma_view_blocks_len(self.block@);
                assert(self@ =~= advanced(old(self)@));
            }
            return false;
        }
        let i = self.next;
        let b = self.block[i].copy();
        proof {
            lemma_view_blocks_index(self.block@, i as int);
        }
        self.filename = b.filename;
        self.line_number = b.line_number;
        self.text = chars_of(b.text.as_str());
        self.subblock = b.subblocks;
        self.pos = 0;
        self.next = i + 1;
        proof {
            assert(self@ =~= advanced(old(self)@));
        }
        true
    }

    /// A snapshot of the position inside the current line.
    pub fn checkpoint(&self) -> (r: LexerState)
        ensures
            r@ == cursor_of(self@),
    {
        let text = slice_chars(&self.text, 0, self.text.len());
        proof {
            assert(text@ =~= self.text@);
        }
        let r = LexerState {
            filename: self.filename.clone(),
            line_number: self.line_number,
            text,
            subblock: copy_blocks(&self.subblock),
            pos: self.pos,
        };
        proof {
            assert(r@ =~= cursor_of(self@));
        }
        r
    }

    /// Restores a snapshot. The walk through the blocks is not undone.
    pub fn revert(&mut self, state: LexerState)
        requires
            old(self).wf(),
            state@.pos <= state@.text.len(),
        ensures
            final(self).wf(),
            final(self)@ == (LexerView {
                filename: state@.filename,
                line_number: state@.line_number,
                text: state@.text,
                subblocks: state@.subblocks,
                pos: state@.pos,
                ..old(self)@
            }),
    {
        self.filename = state.filename;
        self.line_number = state.line_number;
        self.text = state.text;
        self.subblock = state.subblock;
        self.pos = state.pos;
    }
}

/// The names that `name` refuses: the words that start statements.
pub open spec fn is_keyword(w: Seq<char>) -> bool {
    w == "hide"@ || w == "jump"@ || w == "return"@ || w == "scene"@ || w == "show"@
        || w == "play"@ || w == "define"@ || w == "game_mechanic"@ || w == "llm_generate"@
        || w == "scene_generate"@ || w == "music_generate"@ || w == "init"@
}

pub fn keyword_word(w: &[char]) -> (r: bool)
    ensures
        r == is_keyword(w@),
{
    chars_eq(w, &chars_of("hide")) || chars_eq(w, &chars_of("jump")) || chars_eq(w, &chars_of("return"))
        || chars_eq(w, &chars_of("scene")) || chars_eq(w, &chars_of("show"))
        || chars_eq(w, &chars_of("play")) || chars_eq(w, &chars_of("define"))
        || chars_eq(w, &chars_of("game_mechanic")) || chars_eq(w, &chars_of("llm_generate"))
        || chars_eq(w, &chars_of("scene_generate")) || chars_eq(w, &chars_of("music_generate"))
        || chars_eq(w, &chars_of("init"))
}

/// The position after skipping whitespace; at the end of the blocks the
/// position stays.
pub open spec fn skipped(v: LexerView) -> int {
    if v.eob {
        v.pos as int
    } else {
        ws_end(v.text, v.pos as int)
    }
}

/// The lexer moved to position `p` of the current line.
pub open spec fn at(v: LexerView, p: int) -> LexerView {
    LexerView { pos: p as nat, ..v }
}

/// A token that ends at `e` when one starts right after the whitespace:
/// `r` holds its text and the lexer `w` stands after it; otherwise `r` is
/// `None` and `w` stands after the whitespace.
pub open spec fn token_result(v: LexerView, e: int, r: Option<String>, w: LexerView) -> bool {
    let p = skipped(v);
    if !v.eob && e > p {
        r matches Some(s) && s@ == v.text.subrange(p, e) && w == at(v, e)
    } else {
        r is None && w == at(v, p)
    }
}

/// `e` is the error that the lexer in state `v` reports with `msg`.
pub open spec fn error_at(e: ParseError, v: LexerView, msg: Seq<char>) -> bool {
    &&& e.filename@ == v.filename
    &&& e.line_number == v.line_number
    &&& e.message@ == msg
    &&& e.line matches Some(l) && l@ == v.text
    &&& e.pos == Some(v.pos as usize)
}

pub open spec fn noblock_message(stmt: Seq<char>) -> Seq<char> {
    stmt + " does not expect a block. Please check the indentation of the line after this one."@
}

pub open spec fn block_message(stmt: Seq<char>) -> Seq<char> {
    stmt + " expects a non-empty block."@
}

pub open spec fn require_message(thing: Seq<char>) -> Seq<char> {
    "expected '"@ + thing + "' not found"@
}

/// What the regular expression `pattern` finds first in `haystack`: the text
/// before the match and the match, or `None`.
pub uninterp spec fn regex_find(pattern: Seq<char>, haystack: Seq<char>) -> Option<(Seq<char>, Seq<char>)>;

/// Relies on `regex::Regex::new` and `regex::Regex::find`: the text before the
/// leftmost-first match of `pattern` in `haystack`, and the match. `None`
/// where the pattern does not compile or nothing matches.
#[verifier::external_body]
fn find_regex(pattern: &str, haystack: &str) -> (r: Option<(String, String)>)
    ensures
        r matches Some((a, m)) ==> regex_find(pattern@, haystack@) == Some((a@, m@))
            && a@.len() + m@.len() <= haystack@.len()
            && haystack@.subrange(0, (a@.len() + m@.len()) as int) == a@ + m@,
        r is None ==> regex_find(pattern@, haystack@) is None,
{
    match regex::Regex::new(pattern) {
        Ok(re) => match re.find(haystack) {
            Some(m) => Some((haystack[..m.start()].to_string(), m.as_str().to_string())),
            None => None,
        },
        Err(_) => None,
    }
}

/// The position at which the fade arguments of a `stop` statement end when
/// they start at `p`: `fadeout`, one space, digits, a point and digits, up
/// to the end of the line; or `p` if they are not there.
pub open spec fn fade_end(t: Seq<char>, p: int) -> int {
    let a = p + 8;
    let b = digits_end(t, a);
    let c = digits_end(t, b + 1);
    if 0 <= p && a <= t.len() && t.subrange(p, a) == "fadeout "@ && b > a && b < t.len() && t[b] == '.'
        && c > b + 1 && c == t.len() {
        c
    } else {
        p
    }
}

/// The start of the run of word characters that ends at `j`.
pub open spec fn tail_start(b: Seq<char>, j: int) -> int
    decreases j,
{
    if j <= 0 || j > b.len() || !is_word_char(b[j - 1]) {
        j
    } else {
        tail_start(b, j - 1)
    }
}

/// The body of a quoted audio file name: it starts with a word character,
/// ends in a point and a non-empty extension of word characters, has at
/// least two characters before that point and no newline.
pub open spec fn audio_body(b: Seq<char>) -> bool {
    let s = tail_start(b, b.len() as int);
    &&& b.len() > 0
    &&& is_word_char(b[0])
    &&& s < b.len()
    &&& s >= 3
    &&& b[s - 1] == '.'
    &&& forall|j: int| 1 <= j < s - 1 ==> b[j] != '\n'
}

/// A quoted audio file name that runs from `p` to the end of the line.
pub open spec fn audio_end(t: Seq<char>, p: int) -> int {
    if 0 <= p && p + 1 < t.len() && t[p] == '"' && t[t.len() - 1] == '"'
        && audio_body(t.subrange(p + 1, t.len() - 1)) {
        t.len() as int
    } else {
        p
    }
}

/// The position after the characters at and after `p` that are not
/// whitespace.
pub open spec fn nonspace_end(t: Seq<char>, p: int) -> int
    decreases t.len() - p,
{
    if p < 0 || p >= t.len() || is_space(t[p]) {
        p
    } else {
        nonspace_end(t, p + 1)
    }
}

fn tail_start_exec(b: &[char]) -> (r: usize)
    ensures
        r == tail_start(b@, b@.len() as int),
        r <= b@.len(),
{
    let mut j = b.len();
    while j > 0 && word_char(b[j - 1])
        invariant
            j <= b@.len(),
            tail_start(b@, j as int) == tail_start(b@, b@.len() as int),
        decreases j,
    {
        j = j - 1;
    }
    j
}

fn no_newline(b: &[char], from: usize, to: usize) -> (r: bool)
    requires
        from <= to <= b@.len(),
    ensures
        r == forall|k: int| from <= k < to ==> b@[k] != '\n',
{
    let mut j = from;
    while j < to
        invariant
            from <= j <= to <= b@.len(),
            forall|k: int| from <= k < j ==> b@[k] != '\n',
        decreases to - j,
    {
        if b[j] == '\n' {
            return false;
        }
        j = j + 1;
    }
    true
}

fn match_audio(t: &[char], p: usize) -> (r: usize)
    requires
        p <= t@.len(),
    ensures
        r == audio_end(t@, p as int),
{
    let n = t.len();
    if !(p < n && n - p > 1 && t[p] == '"' && t[n - 1] == '"') {
        return p;
    }
    let b = slice_chars(t, p + 1, n - 1);
    if b.len() == 0 || !word_char(b[0]) {
        return p;
    }
    let s = tail_start_exec(&b);
    if !(s < b.len() && s >= 3 && b[s - 1] == '.') {
        return p;
    }
    if !no_newline(&b, 1, s - 1) {
        return p;
    }
    n
}

fn match_fade(t: &[char], p: usize) -> (r: usize)
    requires
        p <= t@.len(),
    ensures
        r == fade_end(t@, p as int),
        p <= r <= t@.len(),
{
    let n = t.len();
    if n - p < 8 {
        return p;
    }
    let a = p + 8;
    let f = chars_of("fadeout ");
    let head = slice_chars(t, p, a);
    if !chars_eq(&head, &f) {
        return p;
    }
    let b = skip_digits(t, a);
    if !(b > a && b < n && t[b] == '.') {
        return p;
    }
    let c = skip_digits(t, b + 1);
    if c > b + 1 && c == n {
        c
    } else {
        p
    }
}

fn nonspace_end_exec(t: &[char], p: usize) -> (r: usize)
    requires
        p <= t@.len(),
    ensures
        r == nonspace_end(t@, p as int),
        p <= r <= t@.len(),
{
    let mut i = p;
    while i < t.len() && !space_char(t[i])
        invariant
            p <= i <= t@.len(),
            nonspace_end(t@, i as int) == nonspace_end(t@, p as int),
        decreases t@.len() - i,
    {
        i = i + 1;
    }
    i
}

impl Lexer {
    /// Skips whitespace at the position, unless past the last block.
    pub fn skip_whitespace(&mut self)
        requires
            old(self).wf(),
        ensures
            final(self).wf(),
            final(self)@ == at(old(self)@, skipped(old(self)@)),
            old(self)@.pos <= skipped(old(self)@) <= old(self)@.text.len(),
    {
        if !self.eob {
            self.pos = skip_spaces(&self.text, self.pos);
        }
        proof {
            assert(self@ =~= at(old(self)@, skipped(old(self)@)));
        }
    }

    /// Takes the text up to `e` and moves there.
    fn take(&mut self, e: usize) -> (r: String)
        requires
            old(self).wf(),
            old(self)@.pos <= e <= old(self)@.text.len(),
        ensures
            final(self).wf(),
            final(self)@ == at(old(self)@, e as int),
            r@ == old(self)@.text.subrange(old(self)@.pos as int, e as int),
    {
        let r = string_of(&slice_chars(&self.text, self.pos, e));
        self.pos = e;
        proof {
            assert(self@ =~= at(old(self)@, e as int));
        }
        r
    }

    /// Skips whitespace, then takes a token that ends at `e` if it is not empty.
    fn token(&mut self, e: usize) -> (r: Option<String>)
        requires
            old(self).wf(),
            !old(self)@.eob,
            old(self)@.pos <= e <= old(self)@.text.len(),
        ensures
            final(self).wf(),
            r matches Some(s) ==> s@ == old(self)@.text.subrange(old(self)@.pos as int, e as int)
                && e > old(self)@.pos && final(self)@ == at(old(self)@, e as int),
            r is None ==> e == old(self)@.pos && final(self)@ == old(self)@,
    {
        if e > self.pos {
            Some(self.take(e))
        } else {
            None
        }
    }

    /// Takes a match that a regular expression found in the rest of the
    /// line: `found` holds the text before the match and the match. The
    /// match is taken when it starts at the position and its text stands
    /// there; otherwise nothing changes.
    pub fn take_match(&mut self, found: Option<(String, String)>) -> (r: Option<String>)
        requires
            old(self).wf(),
        ensures
            final(self).wf(),
            ({
                let v = old(self)@;
                let rest = v.text.subrange(v.pos as int, v.text.len() as int);
                if !v.eob && v.pos < v.text.len() && found is Some && found->Some_0.0@.len() == 0
                    && found->Some_0.1@.len() <= rest.len()
                    && rest.subrange(0, found->Some_0.1@.len() as int) == found->Some_0.1@ {
                    r matches Some(s) && s@ == found->Some_0.1@ && final(self)@ == at(v, (v.pos + found->Some_0.1@.len()) as int)
                } else {
                    r is None && final(self)@ == v
                }
            }),
    {
        if self.eob || self.pos >= self.text.len() {
            return None;
        }
        match found {
            Some((a, m)) => {
                if a.as_str().unicode_len() != 0 {
                    return None;
                }
                let mc = chars_of(m.as_str());
                if mc.len() > self.text.len() - self.pos {
                    return None;
                }
                let e = self.pos + mc.len();
                let head = slice_chars(&self.text, self.pos, e);
                proof {
                    let rest = self@.text.subrange(self@.pos as int, self@.text.len() as int);
                    assert(rest.subrange(0, mc@.len() as int) =~= head@);
                }
                if !chars_eq(&head, &mc) {
                    return None;
                }
                let s = self.take(e);
                Some(s)
            },
            None => None,
        }
    }

    /// Skips whitespace, then matches the regular expression `regexp` at the
    /// position. Returns the matched text and moves past it.
    pub fn match_(&mut self, regexp: &str) -> (r: Option<String>)
        requires
            old(self).wf(),
        ensures
            final(self).wf(),
            ({
                let v = old(self)@;
                let p = skipped(v);
                let found = regex_find(regexp@, v.text.subrange(p, v.text.len() as int));
                if !v.eob && p < v.text.len() && found is Some && found->Some_0.0.len() == 0 {
                    r matches Some(s) && s@ == found->Some_0.1 && final(self)@ == at(v, p + found->Some_0.1.len())
                } else {
                    r is None && final(self)@ == at(v, p)
                }
            }),
    {
        self.skip_whitespace();
        if self.eob || self.pos == self.text.len() {
            return None;
        }
        let hay = string_of(&slice_chars(&self.text, self.pos, self.text.len()));
        let found = find_regex(regexp, hay.as_str());
        proof {
            if found is Some {
                let (a, m) = found->Some_0;
                if a@.len() == 0 {
                    assert(a@ + m@ =~= m@);
                }
            }
        }
        self.take_match(found)
    }

    /// Skips whitespace, then matches the word `w` followed by a word
    /// boundary.
    pub fn keyword(&mut self, w: &str) -> (r: Option<String>)
        requires
            old(self).wf(),
        ensures
            final(self).wf(),
            ({
                let v = old(self)@;
                let p = skipped(v);
                if !v.eob && p < v.text.len() && keyword_at(v.text, p, w@) {
                    r matches Some(s) && s@ == w@ && final(self)@ == at(v, p + w@.len())
                } else {
                    r is None && final(self)@ == at(v, p)
                }
            }),
    {
        self.skip_whitespace();
        if self.eob || self.pos == self.text.len() {
            return None;
        }
        let wc = chars_of(w);
        if keyword_matches(&self.text, self.pos, &wc) {
            let e = self.pos + wc.len();
            let s = self.take(e);
            Some(s)
        } else {
            None
        }
    }

    /// The error `msg` at the current position.
    pub fn error(&self, msg: &str) -> (r: Result<(), ParseError>)
        ensures
            r matches Err(e) && error_at(e, self@, msg@),
    {
        Err(self.error_here(msg))
    }

    /// The error `msg` at the current position, as a value.
    pub fn error_here(&self, msg: &str) -> (e: ParseError)
        ensures
            error_at(e, self@, msg@),
    {
        ParseError::new(
            self.filename.clone(),
            self.line_number,
            string_of(&chars_of(msg)),
            Some(string_of(&self.text)),
            Some(self.pos),
        )
    }

    /// Skips whitespace; whether nothing else is left on the line.
    pub fn eol(&mut self) -> (r: bool)
        requires
            old(self).wf(),
        ensures
            final(self).wf(),
            final(self)@ == at(old(self)@, skipped(old(self)@)),
            r == (skipped(old(self)@) >= old(self)@.text.len()),
    {
        self.skip_whitespace();
        self.pos >= self.text.len()
    }

    /// Fails unless nothing but whitespace is left on the line.
    pub fn expect_eol(&mut self) -> (r: Result<(), ParseError>)
        requires
            old(self).wf(),
        ensures
            final(self).wf(),
            final(self)@ == at(old(self)@, skipped(old(self)@)),
            (skipped(old(self)@) >= old(self)@.text.len()) ==> r is Ok,
            (skipped(old(self)@) < old(self)@.text.len()) ==> (r matches Err(e)
                && error_at(e, final(self)@, "end of line expected"@)),
    {
        if !self.eol() {
            return self.error("end of line expected");
        }
        Ok(())
    }

    /// Fails if the current block has children.
    pub fn expect_noblock(&mut self, stmt: &str) -> (r: Result<(), ParseError>)
        ensures
            final(self)@ == old(self)@,
            old(self).wf() ==> final(self).wf(),
            old(self)@.subblocks.len() == 0 ==> r is Ok,
            old(self)@.subblocks.len() > 0 ==> (r matches Err(e)
                && error_at(e, old(self)@, noblock_message(stmt@))),
    {
        if self.subblock.len() > 0 {
            proof {
                crate::grouper::lemma_view_blocks_len(self.subblock@);
            }
            let mut m = chars_of(stmt);
            append_chars(&mut m, &chars_of(" does not expect a block. Please check the indentation of the line after this one."));
            return self.error(string_of(&m).as_str());
        }
        proof {
            crate::grouper::lemma_view_blocks_len(self.subblock@);
        }
        Ok(())
    }

    /// Fails if the current block has no children.
    pub fn expect_block(&mut self, stmt: &str) -> (r: Result<(), ParseError>)
        ensures
            final(self)@ == old(self)@,
            old(self).wf() ==> final(self).wf(),
            old(self)@.subblocks.len() > 0 ==> r is Ok,
            old(self)@.subblocks.len() == 0 ==> (r matches Err(e)
                && error_at(e, old(self)@, block_message(stmt@))),
    {
        proof {
            crate::grouper::lemma_view_blocks_len(self.subblock@);
        }
        if self.subblock.len() == 0 {
            let mut m = chars_of(stmt);
            append_chars(&mut m, &chars_of(" expects a non-empty block."));
            return self.error(string_of(&m).as_str());
        }
        Ok(())
    }

    /// A cursor over the children of the current block, in an `init`
    /// context if this one is or if `init` asks for it.
    pub fn subblock_lexer(&mut self, init: bool) -> (r: Lexer)
        ensures
            final(self)@ == old(self)@,
            old(self).wf() ==> final(self).wf(),
            r@ == fresh(old(self)@.subblocks, old(self)@.init || init),
            r.wf(),
    {
        Lexer::new(copy_blocks(&self.subblock), self.init || init)
    }

    /// Skips whitespace, then takes a string literal and returns the text it
    /// stands for.
    pub fn string(&mut self) -> (r: Option<String>)
        requires
            old(self).wf(),
        ensures
            final(self).wf(),
            ({
                let v = old(self)@;
                let p = skipped(v);
                let e = string_end(v.text, p);
                if !v.eob && e > p {
                    r matches Some(s) && s@ == string_value(v.text, p, e) && final(self)@ == at(v, e)
                } else {
                    r is None && final(self)@ == at(v, p)
                }
            }),
            !old(self)@.eob ==> skipped(old(self)@) <= string_end(old(self)@.text, skipped(old(self)@)) <= old(self)@.text.len(),
    {
        self.skip_whitespace();
        if self.eob {
            return None;
        }
        let p = self.pos;
        let e = match_string(&self.text, p);
        if e > p {
            let value = string_value_exec(&self.text, p, e);
            self.pos = e;
            proof {
                assert(self@ =~= at(old(self)@, e as int));
            }
            Some(string_of(&value))
        } else {
            None
        }
    }

    /// Skips whitespace, then takes an integer.
    pub fn integer(&mut self) -> (r: Option<String>)
        requires
            old(self).wf(),
        ensures
            final(self).wf(),
            token_result(old(self)@, integer_end(old(self)@.text, skipped(old(self)@)), r, final(self)@),
            !old(self)@.eob ==> skipped(old(self)@) <= integer_end(old(self)@.text, skipped(old(self)@)) <= old(self)@.text.len(),
    {
        self.skip_whitespace();
        if self.eob {
            return None;
        }
        let e = match_integer(&self.text, self.pos);
        self.token(e)
    }

    /// Skips whitespace, then takes a floating-point number.
    pub fn float(&mut self) -> (r: Option<String>)
        requires
            old(self).wf(),
        ensures
            final(self).wf(),
            token_result(old(self)@, float_end(old(self)@.text, skipped(old(self)@)), r, final(self)@),
            !old(self)@.eob ==> skipped(old(self)@) <= float_end(old(self)@.text, skipped(old(self)@)) <= old(self)@.text.len(),
    {
        self.skip_whitespace();
        if self.eob {
            return None;
        }
        let e = match_float(&self.text, self.pos);
        self.token(e)
    }

    /// Skips whitespace, then takes a word.
    pub fn word(&mut self) -> (r: Option<String>)
        requires
            old(self).wf(),
        ensures
            final(self).wf(),
            token_result(old(self)@, word_end(old(self)@.text, skipped(old(self)@)), r, final(self)@),
            !old(self)@.eob ==> skipped(old(self)@) <= word_end(old(self)@.text, skipped(old(self)@)) <= old(self)@.text.len(),
    {
        self.skip_whitespace();
        if self.eob {
            return None;
        }
        let e = match_word(&self.text, self.pos);
        self.token(e)
    }

    /// Skips whitespace, then takes a quoted audio file name that runs to
    /// the end of the line, quotes included.
    pub fn audio_filename(&mut self) -> (r: Option<String>)
        requires
            old(self).wf(),
        ensures
            final(self).wf(),
            token_result(old(self)@, audio_end(old(self)@.text, skipped(old(self)@)), r, final(self)@),
            !old(self)@.eob ==> skipped(old(self)@) <= audio_end(old(self)@.text, skipped(old(self)@)) <= old(self)@.text.len(),
    {
        self.skip_whitespace();
        if self.eob {
            return None;
        }
        let e = match_audio(&self.text, self.pos);
        self.token(e)
    }

    /// Skips whitespace, then takes the fade arguments of a `stop`
    /// statement: the effect and its length in seconds, as written.
    pub fn stop_arguments(&mut self) -> (r: (Option<String>, Option<String>))
        requires
            old(self).wf(),
        ensures
            final(self).wf(),
            ({
                let v = old(self)@;
                let p = skipped(v);
                let e = fade_end(v.text, p);
                if !v.eob && e > p {
                    &&& (r.0 matches Some(f) && f@ == "fadeout"@)
                    &&& (r.1 matches Some(n) && n@ == v.text.subrange(p + 8, e))
                    &&& final(self)@ == at(v, e)
                } else {
                    r.0 is None && r.1 is None && final(self)@ == at(v, p)
                }
            }),
            !old(self)@.eob ==> skipped(old(self)@) <= fade_end(old(self)@.text, skipped(old(self)@)) <= old(self)@.text.len(),
    {
        self.skip_whitespace();
        if self.eob {
            return (None, None);
        }
        let p = self.pos;
        let e = match_fade(&self.text, p);
        if e > p {
            let length = string_of(&slice_chars(&self.text, p + 8, e));
            self.pos = e;
            proof {
                assert(self@ =~= at(old(self)@, e as int));
            }
            (Some(string_of(&chars_of("fadeout"))), Some(length))
        } else {
            (None, None)
        }
    }

    /// Skips whitespace, then takes a name that is not a keyword. On a
    /// keyword nothing is taken and the position stays where it was.
    pub fn name(&mut self) -> (r: Option<String>)
        requires
            old(self).wf(),
        ensures
            final(self).wf(),
            ({
                let v = old(self)@;
                let p = skipped(v);
                let e = name_end(v.text, p);
                if !v.eob && e > p && !is_keyword(v.text.subrange(p, e)) {
                    r matches Some(s) && s@ == v.text.subrange(p, e) && final(self)@ == at(v, e)
                } else if !v.eob && e > p {
                    r is None && final(self)@ == v
                } else {
                    r is None && final(self)@ == at(v, p)
                }
            }),
            !old(self)@.eob ==> skipped(old(self)@) <= name_end(old(self)@.text, skipped(old(self)@)) <= old(self)@.text.len(),
    {
        let oldpos = self.pos;
        self.skip_whitespace();
        if self.eob {
            return None;
        }
        let p = self.pos;
        let e = match_name(&self.text, p);
        if e <= p {
            return None;
        }
        let w = slice_chars(&self.text, p, e);
        if keyword_word(&w) {
            self.pos = oldpos;
            proof {
                assert(self@ =~= old(self)@);
            }
            return None;
        }
        self.token(e)
    }

    /// Skips whitespace, then takes the text up to the next whitespace;
    /// `None` at the end of the line.
    pub fn simple_expression(&mut self) -> (r: Result<Option<String>, ParseError>)
        requires
            old(self).wf(),
        ensures
            final(self).wf(),
            ({
                let v = old(self)@;
                let p = skipped(v);
                let e = nonspace_end(v.text, p);
                if p >= v.text.len() {
                    r matches Ok(None) && final(self)@ == at(v, p)
                } else {
                    r matches Ok(Some(s)) && s@ == v.text.subrange(p, e) && final(self)@ == at(v, e)
                }
            }),
            !old(self)@.eob ==> skipped(old(self)@) <= nonspace_end(old(self)@.text, skipped(old(self)@)) <= old(self)@.text.len(),
    {
        self.skip_whitespace();
        if self.pos >= self.text.len() {
            return Ok(None);
        }
        let e = nonspace_end_exec(&self.text, self.pos);
        Ok(Some(self.take(e)))
    }

    /// Like `match_`, but a missing match is the error
    /// "expected '...' not found".
    pub fn require(&mut self, thing: &str) -> (r: Result<String, ParseError>)
        requires
            old(self).wf(),
        ensures
            final(self).wf(),
            ({
                let v = old(self)@;
                let p = skipped(v);
                let found = regex_find(thing@, v.text.subrange(p, v.text.len() as int));
                if !v.eob && p < v.text.len() && found is Some && found->Some_0.0.len() == 0 {
                    r matches Ok(s) && s@ == found->Some_0.1 && final(self)@ == at(v, p + found->Some_0.1.len())
                } else {
                    r matches Err(e) && error_at(e, at(v, p), require_message(thing@))
                        && final(self)@ == at(v, p)
                }
            }),
    {
        match self.match_(thing) {
            Some(s) => Ok(s),
            None => {
                let mut m = chars_of("expected '");
                append_chars(&mut m, &chars_of(thing));
                append_chars(&mut m, &chars_of("' not found"));
                Err(self.error_here(string_of(&m).as_str()))
            },
        }
    }

    /// Skips whitespace, then takes the rest of the line.
    pub fn rest(&mut self) -> (r: String)
        requires
            old(self).wf(),
        ensures
            final(self).wf(),
            r@ == old(self)@.text.subrange(skipped(old(self)@), old(self)@.text.len() as int),
            final(self)@ == at(old(self)@, old(self)@.text.len() as int),
    {
        self.skip_whitespace();
        let e = self.text.len();
        self.take(e)
    }
}

impl Lexer {
    /// Skips whitespace, then takes the character `c` if it stands there.
    pub fn match_char(&mut self, c: char) -> (r: bool)
        requires
            old(self).wf(),
        ensures
            final(self).wf(),
            ({
                let v = old(self)@;
                let p = skipped(v);
                if !v.eob && p < v.text.len() && v.text[p] == c {
                    r && final(self)@ == at(v, p + 1)
                } else {
                    !r && final(self)@ == at(v, p)
                }
            }),
    {
        self.skip_whitespace();
        if !self.eob && self.pos < self.text.len() && self.text[self.pos] == c {
            self.pos = self.pos + 1;
            proof {
                assert(self@ =~= at(old(self)@, skipped(old(self)@) + 1));
            }
            true
        } else {
            false
        }
    }
}

} // verus!
